use py_tsuro::{all_tiles, find_tile_with_connection, Tile};

#[test]
fn test_rotate_tile() {
    let tile = Tile {
        connections: [1, 0, 5, 7, 6, 2, 4, 3],
    };
    assert_eq!(tile.rotated(1).connections, [6, 5, 3, 2, 7, 1, 0, 4]);
    assert_eq!(tile.rotated(2).connections, [2, 6, 0, 7, 5, 4, 1, 3]);
    assert_eq!(tile.rotated(3).connections, [3, 5, 4, 0, 2, 1, 7, 6]);
    assert_eq!(tile.rotated(2), tile.rotated(6));
    assert_eq!(tile.rotated(1).rotated(1), tile.rotated(2));
    assert_eq!(tile, tile.rotated(0))
}

#[test]
fn rotations_compose_modulo_four() {
    for tile in all_tiles() {
        assert_eq!(tile.rotated(0), tile);
        assert_eq!(tile.rotated(4), tile);
        for a in 0..6 {
            for b in 0..6 {
                assert_eq!(tile.rotated(a).rotated(b), tile.rotated((a + b) % 4));
            }
        }
    }
}

#[test]
fn paths_cover_every_entry_point_once() {
    let tile = Tile::new("14-27-36-58").unwrap();
    assert_eq!(tile.paths(), [(0, 3), (1, 6), (2, 5), (4, 7)]);
    let tile = Tile {
        connections: [1, 0, 5, 7, 6, 2, 4, 3],
    };
    assert_eq!(tile.paths(), [(0, 1), (2, 5), (3, 7), (4, 6)]);
    for tile in all_tiles() {
        let mut seen = [0; 8];
        for (a, b) in tile.paths() {
            assert!(a < b);
            assert_eq!(tile.connections[a], b);
            seen[a] += 1;
            seen[b] += 1;
        }
        assert_eq!(seen, [1; 8]);
    }
}

#[test]
fn catalogue_has_thirty_five_tiles() {
    let tiles = all_tiles();
    assert_eq!(tiles.len(), 35);
    assert_eq!(tiles[0].connections, [1, 0, 3, 2, 5, 4, 7, 6]);
    assert_eq!(tiles[34].connections, [5, 7, 6, 4, 3, 0, 2, 1]);
}

#[test]
fn malformed_codes_are_refused() {
    assert!(Tile::new("12-34-56-77").is_none());
    assert!(Tile::new("12-34-56-79").is_none());
    assert!(Tile::new("12-34-56+78").is_none());
    assert!(Tile::new("12-34-56").is_none());
    assert!(Tile::new("02-34-56-78").is_none());
    assert_eq!(Tile::new("18-23-45-67").unwrap().connections, [7, 2, 1, 4, 3, 6, 5, 0]);
}

#[test]
fn tile_search_follows_catalogue_order() {
    let t = find_tile_with_connection(4, 1).unwrap();
    assert_eq!(t.connections[4], 1);
    assert_eq!(find_tile_with_connection(0, 0), None);
    assert_eq!(find_tile_with_connection(0, 1).unwrap(), all_tiles()[0]);
}

#[test]
fn every_pair_of_entry_points_has_a_tile() {
    for from in 0..8 {
        for to in 0..8 {
            if from != to {
                let t = find_tile_with_connection(from, to).unwrap();
                assert_eq!(t.connections[from], to);
                assert_eq!(t.connections[to], from);
            }
        }
    }
}

#[test]
fn catalogue_matches_its_codes() {
    let tiles = all_tiles();
    let codes = py_tsuro::tile::tile_codes();
    assert_eq!(codes.len(), 35);
    for (tile, code) in tiles.iter().zip(codes.iter()) {
        assert_eq!(Tile::new(code), Some(*tile));
    }
    assert_eq!(tiles[1].connections, [3, 6, 5, 0, 7, 2, 1, 4]);
    assert!(Tile::new("12-34-56-7\u{e9}").is_none());
}
