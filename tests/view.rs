use py_tsuro::{Board, Tile, View};

fn view_with(hand: Vec<Tile>) -> View {
    let mut board = Board::new();
    assert!(board.place_marker(28));
    assert!(board.place_marker(0));
    View {
        board,
        hand,
        active_player: 0,
    }
}

#[test]
fn rotations_are_sorted_and_distinct() {
    let straight = Tile::new("12-34-56-78").unwrap();
    let view = view_with(vec![straight, straight]);
    let tiles = view.all_rotated_tiles();
    // "12-34-56-78" looks the same in every turning
    assert_eq!(tiles, vec![straight]);
    let bent = Tile::new("18-23-45-67").unwrap();
    assert_eq!(bent.rotated(1), bent);
    let view = view_with(vec![bent, straight]);
    assert_eq!(view.all_rotated_tiles(), vec![straight, bent]);

    let other = Tile::new("14-27-36-58").unwrap();
    let view = view_with(vec![other, straight]);
    let tiles = view.all_rotated_tiles();
    for w in tiles.windows(2) {
        assert!(w[0] < w[1]);
    }
    for r in 0..4 {
        assert!(tiles.contains(&other.rotated(r)));
        assert!(tiles.contains(&straight.rotated(r)));
    }
}

#[test]
fn afterstates_skip_suicides() {
    // "12-34-56-78" takes the token at (11, 0) straight back to the edge
    let to_edge = Tile::new("12-34-56-78").unwrap();
    let other = Tile::new("14-27-36-58").unwrap();
    let view = view_with(vec![to_edge, other]);
    assert!(view.board.move_is_suicide(to_edge, 0));
    let tiles = view.all_rotated_tiles();
    let after = view.afterstates();
    let safe: Vec<Tile> = tiles
        .iter()
        .copied()
        .filter(|t| !view.board.move_is_suicide(*t, 0))
        .collect();
    assert!(!safe.is_empty());
    assert_eq!(after.len(), safe.len());
    assert!(after.iter().all(|(t, _)| *t != to_edge));
    for (tile, board) in &after {
        assert!(safe.contains(tile));
        assert_eq!(board.tiles[3][0], Some(*tile));
        assert!(board.markers[0].is_some());
        assert!(board.markers[0].unwrap().has_moved);
    }
    assert!(view.board.tiles[3][0].is_none());
}

#[test]
fn afterstates_keep_all_moves_when_every_one_is_suicide() {
    let mut board = Board::new();
    assert!(board.place_marker(28));
    assert!(board.place_marker(29));
    // both tokens stand on tile (3, 0); "12-34-56-78" joins them in every turning
    let straight = Tile::new("12-34-56-78").unwrap();
    let view = View {
        board,
        hand: vec![straight],
        active_player: 0,
    };
    let tiles = view.all_rotated_tiles();
    for t in &tiles {
        assert!(view.board.move_is_suicide(*t, 0));
    }
    let after = view.afterstates();
    assert_eq!(after.len(), tiles.len());
}
