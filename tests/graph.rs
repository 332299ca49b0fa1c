use py_tsuro::{find_tile_with_connection, BoardGraph, MarkerPosition};

fn node(t: (usize, usize), e: usize) -> usize {
    MarkerPosition::from_entry_point_index(t, e).node_id()
}

#[test]
fn test_graph() {
    let mut graph = BoardGraph::new();

    graph.place_tile(find_tile_with_connection(0, 5).unwrap(), (0, 0));
    let start = MarkerPosition::from_entry_point_index((0, 0), 5).node_id();
    let end = MarkerPosition::from_entry_point_index((0, 0), 0).node_id();

    assert_eq!(graph.adjacency_list[start], vec![(end, true)]);

    assert!(graph.adjacency_list[end].contains(&(start, true)));
    for entry_idx in 0..8 {
        if entry_idx == 5 {
            continue;
        }
        let pos = MarkerPosition::from_entry_point_index((0, 1), entry_idx);
        let node_id = pos.node_id();
        assert!(graph.adjacency_list[end].contains(&(node_id, false)));
        assert!(graph.adjacency_list[node_id].contains(&(end, false)));
    }
    assert_eq!(graph.adjacency_list[end].len(), 8);

    graph.place_tile(find_tile_with_connection(0, 5).unwrap(), (0, 1));
    assert_eq!(graph.vertices[end], None);
    assert_eq!(graph.adjacency_list[end], vec![]);
    let end = MarkerPosition::from_entry_point_index((0, 1), 0).node_id();
    assert!(graph.adjacency_list[end].contains(&(start, true)));
}

#[test]
fn empty_board_graph() {
    let graph = BoardGraph::new();
    assert_eq!(graph.vertices.len(), 168);
    for id in 0..168 {
        let p = graph.vertices[id].unwrap();
        assert_eq!(p.node_id(), id);
        let expected = if p.is_edge() { 7 } else { 14 };
        assert_eq!(graph.adjacency_list[id].len(), expected);
        assert!(graph.adjacency_list[id].iter().all(|(_, built)| !built));
    }
}

#[test]
fn placing_keeps_untouched_nodes_and_swallows_chain_middles() {
    let mut graph = BoardGraph::new();
    let far = node((5, 5), 2);
    graph.place_tile(find_tile_with_connection(0, 5).unwrap(), (0, 0));
    assert!(graph.vertices[far].is_some());
    for e in 0..8 {
        assert!(graph.vertices[node((0, 0), e)].is_some());
    }
    let middle = node((0, 0), 0);
    let first_end = node((0, 0), 5);
    graph.place_tile(find_tile_with_connection(0, 5).unwrap(), (0, 1));
    assert_eq!(graph.vertices[middle], None);
    assert!(graph.vertices[first_end].is_some());
    assert!(graph.vertices[node((0, 1), 0)].is_some());
}

#[test]
fn adjacency_matrix_marks_built_and_unbuilt_edges() {
    let mut graph = BoardGraph::new();
    graph.place_tile(find_tile_with_connection(0, 5).unwrap(), (0, 0));
    let m = graph.adjacency_matrix();
    assert_eq!(m.len(), 168);
    let a = node((0, 0), 5);
    let b = node((0, 0), 0);
    assert_eq!(m[a][b], 1);
    assert_eq!(m[b][a], 1);
    assert_eq!(m[b][node((0, 1), 3)], -1);
    assert_eq!(m[a][node((0, 0), 1)], 0);
    assert_eq!(m[a][a], 0);
}

#[test]
fn bfs_on_empty_board_reaches_everything_at_shortest_distance() {
    let graph = BoardGraph::new();
    let start = node((0, 0), 5);
    let order = graph.bfs_from(start);
    assert_eq!(order[0], (0, start));
    assert_eq!(order.len(), 168);
    let mut seen = vec![false; 168];
    for (_, id) in &order {
        assert!(!seen[*id]);
        seen[*id] = true;
    }
    for w in order.windows(2) {
        assert!(w[0].0 <= w[1].0);
    }
    // the other entry points of tile (0, 0) are one step away
    for e in 0..8 {
        if e != 5 {
            let id = node((0, 0), e);
            assert!(order.contains(&(1, id)));
        }
    }
    // an entry point of tile (0, 1) shares no tile with the start
    let far = node((0, 1), 0);
    assert!(order.contains(&(2, far)));
}

#[test]
fn bfs_after_a_placement_goes_through_the_built_path() {
    let mut graph = BoardGraph::new();
    graph.place_tile(find_tile_with_connection(0, 5).unwrap(), (0, 0));
    let start = node((0, 0), 5);
    let order = graph.bfs_from(start);
    // the border point (1, 0) now only reaches the far end of its path,
    // and everything else through it
    assert_eq!(order[0], (0, start));
    assert_eq!(order[1], (1, node((0, 0), 0)));
    assert_eq!(order.len(), 168);
    assert!(order.contains(&(2, node((0, 1), 3))));
    assert!(!order.contains(&(1, node((0, 0), 1))));
}
