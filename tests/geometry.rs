use py_tsuro::MarkerPosition;

#[test]
fn test_from_entry_point_indices() {
    let tests = [
        (3, 4),
        (5, 3),
        (6, 4),
        (5, 6),
        (0, 1),
        (2, 18),
        (18, 13),
        (16, 9),
    ];
    let answers = [
        [((1, 1), 6), ((0, 1), 3)].as_slice(),
        [((1, 1), 4), ((1, 0), 1)].as_slice(),
        [((2, 1), 6), ((1, 1), 3)].as_slice(),
        [((1, 2), 4), ((1, 1), 1)].as_slice(),
        [((0, 0), 6)].as_slice(),
        [((0, 5), 1)].as_slice(),
        [((5, 4), 3)].as_slice(),
        [((5, 3), 5), ((5, 2), 0)].as_slice(),
    ];
    for (test, answer) in tests.into_iter().zip(answers.into_iter()) {
        let mp = MarkerPosition { coords: test };
        assert_eq!(*mp.entry_point_indices(), *answer)
    }
}

fn all_positions() -> Vec<MarkerPosition> {
    let mut out = Vec::new();
    for x in 0..19 {
        for y in 0..19 {
            if (x % 3 == 0) ^ (y % 3 == 0) {
                out.push(MarkerPosition::from_lattice_coordinates((x, y)));
            }
        }
    }
    out
}

#[test]
fn node_ids_are_distinct_and_below_168() {
    let positions = all_positions();
    assert_eq!(positions.len(), 168);
    let mut seen = vec![false; 168];
    for p in &positions {
        let id = p.node_id();
        assert!(id < 168);
        assert!(!seen[id]);
        seen[id] = true;
    }
    assert_eq!(MarkerPosition::from_lattice_coordinates((0, 1)).node_id(), 0);
    assert_eq!(MarkerPosition::from_lattice_coordinates((1, 0)).node_id(), 84);
    assert_eq!(MarkerPosition::from_lattice_coordinates((17, 18)).node_id(), 167);
}

#[test]
fn entry_points_round_trip() {
    for x in 0..6 {
        for y in 0..6 {
            for e in 0..8 {
                let p = MarkerPosition::from_entry_point_index((x, y), e);
                assert_eq!(p.entry_point_index_on((x, y)), Some(e));
                assert!(p.adjacent_tiles().contains(&(x, y)));
            }
        }
    }
    let inner = MarkerPosition::from_lattice_coordinates((3, 4));
    assert_eq!(inner.entry_point_index_on((2, 2)), None);
    assert_eq!(*inner.adjacent_tiles(), [(1, 1), (0, 1)]);
    let border = MarkerPosition::from_lattice_coordinates((0, 1));
    assert_eq!(border.entry_point_index_on((1, 0)), None);
    assert_eq!(*border.adjacent_tiles(), [(0, 0)]);
}

#[test]
fn entry_point_positions() {
    let expect = [(1, 3), (2, 3), (3, 2), (3, 1), (2, 0), (1, 0), (0, 1), (0, 2)];
    for e in 0..8 {
        assert_eq!(MarkerPosition::from_entry_point_index((0, 0), e).coords, expect[e]);
    }
    assert_eq!(MarkerPosition::from_entry_point_index((5, 5), 2).coords, (18, 17));
}

#[test]
fn border_indices_and_edges() {
    assert_eq!(MarkerPosition::from_index(0).coords, (1, 18));
    assert_eq!(MarkerPosition::from_index(11).coords, (17, 18));
    assert_eq!(MarkerPosition::from_index(12).coords, (18, 17));
    assert_eq!(MarkerPosition::from_index(24).coords, (17, 0));
    assert_eq!(MarkerPosition::from_index(28).coords, (11, 0));
    assert_eq!(MarkerPosition::from_index(36).coords, (0, 1));
    assert_eq!(MarkerPosition::from_index(47).coords, (0, 17));
    for i in 0..48 {
        assert!(MarkerPosition::from_index(i).is_edge());
    }
    assert!(!MarkerPosition::from_lattice_coordinates((3, 4)).is_edge());
    assert_eq!(MarkerPosition::default().coords, (usize::MAX, usize::MAX));
}
