use py_tsuro::{find_tile_with_connection, Board, MarkerPosition, Tile};

fn tile_with(from: usize, to: usize) -> Tile {
    find_tile_with_connection(from, to).unwrap()
}

#[test]
fn test_path_end_of() {
    let mut board = Board::new();
    board.tiles[4][1] = Some(Tile {
        connections: [7, 69, 5, 69, 69, 2, 69, 0],
    });
    board.tiles[5][1] = Some(tile_with(7, 1));
    board.tiles[5][2] = Some(Tile {
        connections: [6, 4, 69, 69, 1, 69, 0, 69],
    });
    board.tiles[5][3] = Some(tile_with(4, 5));
    board.tiles[4][2] = Some(tile_with(3, 5));
    board.tiles[3][1] = Some(tile_with(2, 4));
    board.tiles[3][0] = Some(tile_with(1, 4));
    assert_eq!(
        board.find_path_endpoint((4, 0), 0),
        MarkerPosition::from_lattice_coordinates((11, 0))
    );
}

#[test]
fn test_move_markers() {
    let mut board = Board::new();
    board.place_marker(28);
    board.tiles[3][0] = Some(tile_with(4, 1));
    board.move_markers();
    assert_eq!(
        board.markers[0].unwrap().position,
        MarkerPosition::from_lattice_coordinates((11, 3))
    );
    board.tiles[3][1] = Some(tile_with(4, 2));
    board.move_markers();
    assert_eq!(
        board.markers[0].unwrap().position,
        MarkerPosition::from_lattice_coordinates((12, 5))
    );
    board.tiles[4][1] = Some(tile_with(7, 2));
    board.tiles[5][1] = Some(tile_with(7, 5));
    board.move_markers();
    assert_eq!(
        board.markers[0].unwrap().position,
        MarkerPosition::from_lattice_coordinates((16, 3))
    );
    board.tiles[5][0] = Some(tile_with(0, 6));
    board.tiles[4][0] = Some(tile_with(3, 4));
    assert!(board.move_markers() == vec![0]);
}

#[test]
fn path_through_one_tile_chases_the_connector() {
    let mut board = Board::new();
    let tile = Tile::new("14-27-36-58").unwrap();
    assert_eq!(tile.connections, [3, 6, 5, 0, 7, 2, 1, 4]);
    board.tiles[0][0] = Some(tile);
    let exit = tile.connections[0];
    assert_eq!(
        board.find_path_endpoint((0, 0), exit),
        MarkerPosition::from_lattice_coordinates((3, 1))
    );
    assert_eq!(
        board.find_path_endpoint((0, 0), 0),
        MarkerPosition::from_lattice_coordinates((1, 3))
    );
}

#[test]
fn token_on_border_before_empty_tile_stays() {
    let mut board = Board::new();
    assert!(board.place_marker(28));
    let before = board.markers[0].unwrap();
    assert_eq!(board.move_markers(), Vec::<usize>::new());
    let after = board.markers[0].unwrap();
    assert_eq!(after, before);
    assert!(!after.has_moved);
    assert_eq!(after.previous_tile, None);
    assert_eq!(after.position.coords, (11, 0));
}

#[test]
fn place_marker_refuses_a_taken_border_point() {
    let mut board = Board::new();
    assert!(board.place_marker(0));
    assert!(!board.place_marker(0));
    assert!(board.place_marker(47));
    assert_eq!(board.markers.len(), 2);
    assert_eq!(board.markers[0].unwrap().position.coords, (1, 18));
    assert_eq!(board.markers[1].unwrap().position.coords, (0, 17));
    assert_eq!(
        board.markers(),
        vec![
            Some(MarkerPosition::from_lattice_coordinates((1, 18))),
            Some(MarkerPosition::from_lattice_coordinates((0, 17)))
        ]
    );
}

#[test]
fn collisions_report_both_players_once() {
    let mut board = Board::new();
    assert!(board.place_marker(28));
    assert!(board.place_marker(29));
    assert!(board.place_marker(0));
    // entry points 4 and 5 of tile (3, 0) are joined
    let tile = Tile::new("12-34-56-78").unwrap();
    assert_eq!(board.find_collisions(tile, (3, 0)), vec![0, 1]);
    let other = Tile::new("14-27-36-58").unwrap();
    assert_eq!(board.find_collisions(other, (3, 0)), Vec::<usize>::new());
}

#[test]
fn suicide_to_the_edge_and_safe_move() {
    let mut board = Board::new();
    assert!(board.place_marker(28));
    assert!(board.place_marker(0));
    let to_edge = tile_with(4, 5);
    assert!(board.move_is_suicide(to_edge, 0));
    let inward = tile_with(4, 0);
    assert!(!board.move_is_suicide(inward, 0));
    assert!(board.markers[0].unwrap().position.coords == (11, 0));
    assert!(board.tiles[3][0].is_none());
}

#[test]
fn suicide_by_collision_with_a_neighbour() {
    let mut board = Board::new();
    assert!(board.place_marker(28));
    assert!(board.place_marker(29));
    // both tokens stand on tile (3, 0): joining them collides
    let tile = Tile::new("12-34-56-78").unwrap();
    assert!(board.move_is_suicide(tile, 0));
    assert!(board.move_is_suicide(tile, 1));
}

#[test]
fn suicide_through_a_loop_back_into_the_tile() {
    let mut board = Board::new();
    assert!(board.place_marker(28));
    // tile (3, 1) joins (11, 3) to (10, 3): entries 1 and 0 of slot (3, 0)
    board.tiles[3][1] = Some(tile_with(4, 5));
    // 4 -> 1, round through (3, 1), back in by 0 -> 5: the border (10, 0)
    let deadly = Tile::new("16-25-37-48").unwrap();
    assert!(board.move_is_suicide(deadly, 0));
    // 4 -> 1, round through (3, 1), back in by 0 -> 2: (12, 2), inside
    let safe = Tile::new("13-25-48-67").unwrap();
    assert!(!board.move_is_suicide(safe, 0));
    board.place_tile(safe, 0);
    assert_eq!(board.move_markers(), Vec::<usize>::new());
    assert_eq!(board.markers[0].unwrap().position.coords, (12, 2));
    assert_eq!(board.markers[0].unwrap().previous_tile, Some((3, 0)));
}

#[test]
fn two_players_only_the_one_reaching_the_edge_is_eliminated() {
    let mut board = Board::new();
    assert!(board.place_marker(28));
    assert!(board.place_marker(5));
    board.tiles[3][0] = Some(tile_with(4, 1));
    assert_eq!(board.move_markers(), Vec::<usize>::new());
    assert_eq!(board.markers[0].unwrap().position.coords, (11, 3));
    board.tiles[3][1] = Some(tile_with(4, 2));
    board.move_markers();
    assert_eq!(board.markers[0].unwrap().position.coords, (12, 5));
    board.tiles[4][1] = Some(tile_with(7, 2));
    board.tiles[5][1] = Some(tile_with(7, 5));
    board.move_markers();
    assert_eq!(board.markers[0].unwrap().position.coords, (16, 3));
    board.tiles[5][0] = Some(tile_with(0, 6));
    board.tiles[4][0] = Some(tile_with(3, 4));
    assert_eq!(board.move_markers(), vec![0]);
    assert_eq!(board.markers[1].unwrap().position.coords, (8, 18));
    assert!(!board.markers[1].unwrap().has_moved);
    board.eliminate_player(0);
    assert!(board.markers[0].is_none());
}

#[test]
fn place_tile_fills_the_next_slot_and_moves() {
    let mut board = Board::new();
    assert!(board.place_marker(28));
    assert_eq!(board.next_tile_of_player(0), (3, 0));
    let tile = tile_with(4, 1);
    board.place_tile(tile, 0);
    assert_eq!(board.tiles[3][0], Some(tile));
    assert_eq!(board.move_markers(), Vec::<usize>::new());
    let m = board.markers[0].unwrap();
    assert_eq!(m.position.coords, (11, 3));
    assert_eq!(m.previous_tile, Some((3, 0)));
    assert!(m.has_moved);
    assert_eq!(board.next_tile_of_player(0), (3, 1));
}
