//! The board graph: one node per lattice point where a token may stand,
//! joined by built edges (paths of placed tiles) and unbuilt ones (entry
//! points of an empty tile slot that a tile could still join).
use vstd::prelude::*;

use crate::arrayvec_specs::{entries_get, entries_len, entry_items};
use crate::tile::{is_pairing, Tile};
use crate::geometry::{
    entries_of, entry_coords, lemma_entries_sound, lemma_entries_complete, lemma_node_coords,
    lemma_node_id, lemma_node_id_injective, node_coords, node_id_of, valid_lattice, valid_tile,
    Coord, MarkerPosition,
};

verus! {

/// Number of nodes: the lattice points that lie on a tile side but are not
/// tile corners.
pub const NUM_NODES: usize = 168;

/// `vertices[id]` is the point of node `id`, or `None` once a path runs
/// through it; `adjacency_list[id]` lists `(other id, built)`.
#[derive(Debug, Clone, PartialEq)]
pub struct BoardGraph {
    pub vertices: Vec<Option<MarkerPosition>>,
    pub adjacency_list: Vec<Vec<(usize, bool)>>,
}

/// The edges from entry point `own` of tile `t` to the seven other entry
/// points of that tile, unbuilt, in the order of the entry points.
pub open spec fn side_neighbours(t: Coord, own: usize) -> Seq<(usize, bool)> {
    Seq::new(
        7,
        |j: int|
            {
                let e: usize = if j < own { j as usize } else { (j + 1) as usize };
                (node_id_of(entry_coords(t, e)) as usize, false)
            },
    )
}

/// The adjacency list of point `c` on an empty board: the unbuilt edges
/// across each tile it lies on, in the order of `entries_of`.
pub open spec fn initial_adjacency(c: Coord) -> Seq<(usize, bool)> {
    let es = entries_of(c);
    if es.len() == 1 {
        side_neighbours(es[0].0, es[0].1)
    } else {
        side_neighbours(es[0].0, es[0].1) + side_neighbours(es[1].0, es[1].1)
    }
}


/// Adjacency lists of 168 nodes whose edges all lead to one of them.
pub open spec fn adj_ok(adj: Seq<Seq<(usize, bool)>>) -> bool {
    &&& adj.len() == NUM_NODES
    &&& forall|i: int, j: int| 0 <= i < NUM_NODES && 0 <= j < adj[i].len() ==> #[trigger] adj[i][j].0 < NUM_NODES
}

/// The position in `l` of the first edge to `to`.
pub open spec fn index_of(l: Seq<(usize, bool)>, to: usize) -> Option<int>
    decreases l.len(),
{
    if l.len() == 0 {
        None
    } else {
        match index_of(l.drop_last(), to) {
            Some(i) => Some(i),
            None => if l.last().0 == to {
                Some(l.len() - 1)
            } else {
                None
            },
        }
    }
}

/// `l` without its first edge to `to`, the last edge moved into its place.
pub open spec fn without(l: Seq<(usize, bool)>, to: usize) -> Seq<(usize, bool)> {
    match index_of(l, to) {
        Some(i) => l.update(i, l.last()).drop_last(),
        None => l,
    }
}

/// `adj` without the edge between `a` and `b`, each way.
pub open spec fn cut(adj: Seq<Seq<(usize, bool)>>, a: usize, b: usize) -> Seq<Seq<(usize, bool)>> {
    let adj1 = adj.update(a as int, without(adj[a as int], b));
    adj1.update(b as int, without(adj1[b as int], a))
}

/// The node of entry point `e` of tile `t`.
pub open spec fn node_of(t: Coord, e: usize) -> usize {
    node_id_of(entry_coords(t, e)) as usize
}

/// `adj` with the edges of tile `t` cut from entry point `a` to entry
/// points `a + 1 .. b`.
pub open spec fn clear_row(adj: Seq<Seq<(usize, bool)>>, t: Coord, a: int, b: int) -> Seq<Seq<(usize, bool)>>
    decreases b - a,
{
    if b <= a + 1 {
        adj
    } else {
        cut(clear_row(adj, t, a, b - 1), node_of(t, a as usize), node_of(t, (b - 1) as usize))
    }
}

/// `adj` with the edges of tile `t` between its entry points cut, for the
/// pairs whose lower entry point is below `a`.
pub open spec fn clear_rows(adj: Seq<Seq<(usize, bool)>>, t: Coord, a: int) -> Seq<Seq<(usize, bool)>>
    decreases a,
{
    if a <= 0 {
        adj
    } else {
        clear_row(clear_rows(adj, t, a - 1), t, a - 1, 8)
    }
}

/// Nodes and adjacency lists.
pub type GraphState = (Seq<Option<MarkerPosition>>, Seq<Seq<(usize, bool)>>);

/// The far end of the path that a new tile continues at its entry point
/// `e` of slot `t`: the node's single neighbour, which swallows the node,
/// if it has one; else the node itself.
pub open spec fn path_end(g: GraphState, t: Coord, e: usize) -> (GraphState, usize) {
    let id = node_of(t, e);
    let l = g.1[id as int];
    if l.len() == 1 {
        let end = l[0].0;
        ((g.0.update(id as int, None), cut(g.1, end, id)), end)
    } else {
        (g, id)
    }
}

/// The graph after joining the far ends of path `p` of a tile in slot `t`.
pub open spec fn join_path(g: GraphState, t: Coord, p: (usize, usize)) -> GraphState {
    let (g1, ea) = path_end(g, t, p.0);
    let (g2, eb) = path_end(g1, t, p.1);
    let adj3 = g2.1.update(ea as int, g2.1[ea as int].push((eb, true)));
    (g2.0, adj3.update(eb as int, adj3[eb as int].push((ea, true))))
}

/// The graph after joining the paths of a tile with connections `c` whose
/// lower entry point is below `n`, by increasing lower entry point.
pub open spec fn join_paths(g: GraphState, t: Coord, c: Seq<usize>, n: int) -> GraphState
    decreases n,
{
    if n <= 0 {
        g
    } else {
        let g1 = join_paths(g, t, c, n - 1);
        if n - 1 < c[n - 1] {
            join_path(g1, t, ((n - 1) as usize, c[n - 1]))
        } else {
            g1
        }
    }
}

/// The graph after placing `tile` in slot `t`: the unbuilt edges across
/// the slot are cut, then each path of the tile, in the order of
/// `Tile::paths`, is joined with built edges between its far ends.
pub open spec fn placed(g: GraphState, t: Coord, tile: Tile) -> GraphState {
    join_paths((g.0, clear_rows(g.1, t, 8)), t, tile.connections@, 8)
}

/// The first edge to `to` in a prefix of `l` that ends with one is the
/// first in `l`.
pub proof fn lemma_index_of_prefix(l: Seq<(usize, bool)>, to: usize, n: int)
    requires
        0 < n <= l.len(),
        index_of(l.take(n - 1), to) is None,
        l[n - 1].0 == to,
    ensures
        index_of(l, to) == Some(n - 1),
    decreases l.len() - n,
{
    assert(l.take(n).drop_last() =~= l.take(n - 1));
    if n < l.len() {
        assert(l.take(n + 1).drop_last() =~= l.take(n));
        lemma_index_of_prefix_grow(l, to, n, n - 1);
    } else {
        assert(l.take(n) =~= l);
    }
}

proof fn lemma_index_of_prefix_grow(l: Seq<(usize, bool)>, to: usize, n: int, i: int)
    requires
        0 < n <= l.len(),
        index_of(l.take(n), to) == Some(i),
    ensures
        index_of(l, to) == Some(i),
    decreases l.len() - n,
{
    if n < l.len() {
        assert(l.take(n + 1).drop_last() =~= l.take(n));
        lemma_index_of_prefix_grow(l, to, n + 1, i);
    } else {
        assert(l.take(n) =~= l);
    }
}

/// Joining paths changes the position only of nodes at the slot's own
/// entry points.
proof fn lemma_join_paths_vertices(g: GraphState, t: Coord, c: Seq<usize>, n: int, id: int)
    requires
        is_pairing(c),
        valid_tile(t),
        0 <= n <= 8,
        0 <= id < g.0.len(),
        g.0.len() == NUM_NODES,
        forall|e: usize| e < 8 ==> node_of(t, e) != id,
    ensures
        join_paths(g, t, c, n).0.len() == g.0.len(),
        join_paths(g, t, c, n).0[id] == g.0[id],
    decreases n,
{
    if n > 0 {
        lemma_join_paths_vertices(g, t, c, n - 1, id);
        assert(c[n - 1] < 8);
        let g1 = join_paths(g, t, c, n - 1);
        if n - 1 < c[n - 1] {
            let a = (n - 1) as usize;
            let b = c[n - 1];
            assert(node_of(t, a) != id);
            assert(node_of(t, b) != id);
            lemma_node_of_distinct(t, a, b);
            let (g2, ea) = path_end(g1, t, a);
            assert(g2.0.len() == g1.0.len() && g2.0[id] == g1.0[id]);
            let (g3, eb) = path_end(g2, t, b);
            assert(g3.0.len() == g1.0.len() && g3.0[id] == g1.0[id]);
            assert(join_path(g1, t, (a, b)).0 == g3.0);
        }
    }
}

/// Placing a tile leaves the position of every node that is not one of
/// the slot's eight entry points as it was.
pub proof fn lemma_placed_keeps_other_nodes(g: GraphState, t: Coord, tile: Tile, id: int)
    requires
        tile.wf(),
        valid_tile(t),
        g.0.len() == NUM_NODES,
        0 <= id < NUM_NODES,
        forall|e: usize| e < 8 ==> node_of(t, e) != id,
    ensures
        placed(g, t, tile).0.len() == g.0.len(),
        placed(g, t, tile).0[id] == g.0[id],
{
    lemma_join_paths_vertices((g.0, clear_rows(g.1, t, 8)), t, tile.connections@, 8, id);
}

/// Different entry points of a tile have different nodes.
pub proof fn lemma_node_of_distinct(t: Coord, a: usize, b: usize)
    requires
        valid_tile(t),
        a < 8,
        b < 8,
        a != b,
    ensures
        node_of(t, a) != node_of(t, b),
        node_of(t, a) < NUM_NODES,
        node_of(t, b) < NUM_NODES,
{
    lemma_entries_complete(t, a);
    lemma_entries_complete(t, b);
    lemma_node_id(entry_coords(t, a));
    lemma_node_id(entry_coords(t, b));
    assert(entry_coords(t, a) != entry_coords(t, b));
    if node_of(t, a) == node_of(t, b) {
        lemma_node_id_injective(entry_coords(t, a), entry_coords(t, b));
    }
}

/// A path of a new tile that runs through an entry point where a chain
/// already ends swallows that point's node, leaves the far end of the
/// chain in place, and joins that far end by a pair of built edges to the
/// far end on the path's other side.
pub proof fn lemma_join_swallows(g: GraphState, t: Coord, p: (usize, usize))
    requires
        valid_tile(t),
        p.0 < 8,
        p.1 < 8,
        p.0 != p.1,
        g.0.len() == NUM_NODES,
        adj_ok(g.1),
        g.1[node_of(t, p.0) as int].len() == 1,
        g.1[node_of(t, p.0) as int][0].0 != node_of(t, p.1),
        g.1[node_of(t, p.0) as int][0].0 != node_of(t, p.0),
    ensures
        join_path(g, t, p).0[node_of(t, p.0) as int] is None,
        join_path(g, t, p).0[g.1[node_of(t, p.0) as int][0].0 as int] == g.0[g.1[node_of(t, p.0) as int][0].0 as int],
        ({
            let end = g.1[node_of(t, p.0) as int][0].0;
            let eb = path_end(path_end(g, t, p.0).0, t, p.1).1;
            &&& join_path(g, t, p).1[end as int].contains((eb, true))
            &&& join_path(g, t, p).1[eb as int].contains((end, true))
        }),
{
    lemma_node_of_distinct(t, p.0, p.1);
    let id = node_of(t, p.0);
    let end = g.1[id as int][0].0;
    assert(end < NUM_NODES);
    lemma_cut_ok(g.1, end, id);
    let (g1, ea) = path_end(g, t, p.0);
    assert(ea == end);
    assert(adj_ok(g1.1));
    let idb = node_of(t, p.1);
    if g1.1[idb as int].len() == 1 {
        assert(g1.1[idb as int][0].0 < NUM_NODES);
    }
    let (g2, eb) = path_end(g1, t, p.1);
    assert(eb < NUM_NODES);
    if g1.1[idb as int].len() == 1 {
        lemma_cut_ok(g1.1, eb, idb);
    }
    assert(g2.1.len() == NUM_NODES);
    let adj3 = g2.1.update(ea as int, g2.1[ea as int].push((eb, true)));
    let adj4 = adj3.update(eb as int, adj3[eb as int].push((ea, true)));
    assert(adj3[ea as int].last() == (eb, true));
    assert(adj4[eb as int].last() == (ea, true));
    if ea == eb {
        assert(adj4[ea as int][adj3[ea as int].len() - 1] == (eb, true));
    } else {
        assert(adj4[ea as int] == adj3[ea as int]);
    }
    assert(adj4[ea as int].contains((eb, true)));
    assert(adj4[eb as int].contains((ea, true)));
}

/// Node `id` is listed in `out`.
pub open spec fn listed(out: Seq<(usize, usize)>, id: usize) -> bool {
    exists|k: int| 0 <= k < out.len() && (#[trigger] out[k]).1 == id
}

/// Breadth-first search visiting the neighbours `l[m..]` of a node at
/// distance `d`, in list order: each one not yet listed is appended.
pub open spec fn visit_neighbours(l: Seq<(usize, bool)>, m: int, d: usize, out: Seq<(usize, usize)>) -> Seq<(usize, usize)>
    decreases l.len() - m,
{
    if m >= l.len() || m < 0 {
        out
    } else {
        let to = l[m].0;
        let out1 = if listed(out, to) { out } else { out.push(((d + 1) as usize, to)) };
        visit_neighbours(l, m + 1, d, out1)
    }
}

/// Breadth-first search from the listing `out`, whose first `h` entries
/// have had their neighbours visited (at most `fuel` more entries).
pub open spec fn bfs_state(adj: Seq<Seq<(usize, bool)>>, out: Seq<(usize, usize)>, h: int, fuel: nat) -> Seq<(usize, usize)>
    decreases fuel,
{
    if fuel == 0 || h < 0 || h >= out.len() {
        out
    } else {
        bfs_state(adj, visit_neighbours(adj[out[h].1 as int], 0, out[h].0, out), h + 1, (fuel - 1) as nat)
    }
}

/// The `(distance, node)` listing of a breadth-first search from `start`
/// that visits neighbours in the order of the adjacency lists.
pub open spec fn bfs_order(adj: Seq<Seq<(usize, bool)>>, start: usize) -> Seq<(usize, usize)> {
    bfs_state(adj, seq![(0usize, start)], 0, NUM_NODES as nat)
}

/// `adj` lists an edge from `a` to `b`.
pub open spec fn has_edge(adj: Seq<Seq<(usize, bool)>>, a: usize, b: usize) -> bool {
    exists|j: int| 0 <= j < adj[a as int].len() && (#[trigger] adj[a as int][j]).0 == b
}

/// Node `id` is listed in `r`, at distance `d` or less.
pub open spec fn listed_within(r: Seq<(usize, usize)>, id: usize, d: int) -> bool {
    exists|k: int| 0 <= k < r.len() && (#[trigger] r[k]).1 == id && r[k].0 <= d
}

/// `r` is a breadth-first listing of `(distance, node)` from `start`: the
/// start first at distance 0; each node once, by nondecreasing distance;
/// each later node reached by an edge from an earlier one one step closer;
/// and every neighbour of a listed node listed at most one step further.
/// So `r` lists exactly the nodes reachable from `start`, each at its
/// shortest distance.
pub open spec fn is_bfs(adj: Seq<Seq<(usize, bool)>>, start: usize, r: Seq<(usize, usize)>) -> bool {
    &&& r.len() >= 1
    &&& r[0] == (0usize, start)
    &&& forall|k: int| 0 <= k < r.len() ==> (#[trigger] r[k]).1 < NUM_NODES
    &&& forall|i: int, j: int| 0 <= i < j < r.len() ==> (#[trigger] r[i]).1 != (#[trigger] r[j]).1 && r[i].0 <= r[j].0
    &&& forall|k: int|
        0 < k < r.len() ==> exists|j: int|
            0 <= j < k && (#[trigger] r[j]).0 + 1 == (#[trigger] r[k]).0 && has_edge(adj, r[j].1, r[k].1)
    &&& forall|k: int, e: int|
        0 <= k < r.len() && 0 <= e < adj[r[k].1 as int].len() ==> listed_within(
            r,
            (#[trigger] adj[(#[trigger] r[k]).1 as int][e]).0,
            r[k].0 + 1,
        )
}

/// The matrix entry for an edge to `j` in list `l`: that of the last such
/// edge, 1 if built and -1 if not; 0 where there is none.
pub open spec fn edge_value(l: Seq<(usize, bool)>, j: usize) -> i8
    decreases l.len(),
{
    if l.len() == 0 {
        0i8
    } else if l.last().0 == j {
        if l.last().1 {
            1i8
        } else {
            -1i8
        }
    } else {
        edge_value(l.drop_last(), j)
    }
}

/// Removing an edge keeps only edges that were there.
pub proof fn lemma_without(l: Seq<(usize, bool)>, to: usize)
    ensures
        forall|j: int| 0 <= j < without(l, to).len() ==> l.contains(#[trigger] without(l, to)[j]),
        index_of(l, to) matches Some(i) ==> 0 <= i < l.len() && l[i].0 == to,
        index_of(l, to) is None ==> forall|j: int| 0 <= j < l.len() ==> l[j].0 != to,
    decreases l.len(),
{
    if l.len() > 0 {
        lemma_without(l.drop_last(), to);
    }
    if let Some(i) = index_of(l, to) {
        let w = without(l, to);
        assert forall|j: int| 0 <= j < w.len() implies l.contains(#[trigger] w[j]) by {
            if j == i {
                assert(l[l.len() - 1] == w[j]);
            } else {
                assert(l[j] == w[j]);
            }
        }
    }
    if index_of(l, to) is None && l.len() > 0 {
        assert forall|j: int| 0 <= j < l.len() implies l[j].0 != to by {
            if j < l.len() - 1 {
                assert(l.drop_last()[j] == l[j]);
            }
        }
    }
}

/// Cutting an edge keeps the lists well formed.
pub proof fn lemma_cut_ok(adj: Seq<Seq<(usize, bool)>>, a: usize, b: usize)
    requires
        adj_ok(adj),
        a < NUM_NODES,
        b < NUM_NODES,
    ensures
        adj_ok(cut(adj, a, b)),
{
    lemma_without(adj[a as int], b);
    let adj1 = adj.update(a as int, without(adj[a as int], b));
    assert(adj_ok(adj1)) by {
        assert forall|i: int, j: int| 0 <= i < NUM_NODES && 0 <= j < adj1[i].len() implies #[trigger] adj1[i][j].0
            < NUM_NODES by {
            if i == a {
                assert(adj[a as int].contains(adj1[i][j]));
            }
        }
    }
    lemma_without(adj1[b as int], a);
    let adj2 = cut(adj, a, b);
    assert forall|i: int, j: int| 0 <= i < NUM_NODES && 0 <= j < adj2[i].len() implies #[trigger] adj2[i][j].0
        < NUM_NODES by {
        if i == b {
            assert(adj1[b as int].contains(adj2[i][j]));
        }
    }
}

impl BoardGraph {
    /// The adjacency lists as sequences.
    pub open spec fn adj(&self) -> Seq<Seq<(usize, bool)>> {
        Seq::new(self.adjacency_list@.len(), |i: int| self.adjacency_list@[i]@)
    }

    /// 168 nodes, each edge to a node among them.
    pub open spec fn wf(&self) -> bool {
        &&& self.vertices@.len() == NUM_NODES
        &&& self.adjacency_list@.len() == NUM_NODES
        &&& forall|i: int, j: int|
            0 <= i < NUM_NODES && 0 <= j < self.adjacency_list@[i]@.len() ==> #[trigger] self.adjacency_list@[i]@[j].0
                < NUM_NODES
    }

    /// The graph of an empty board: every node present, with unbuilt edges
    /// to the other entry points of each tile it lies on.
    pub open spec fn is_initial(&self) -> bool {
        &&& self.wf()
        &&& forall|id: int|
            0 <= id < NUM_NODES ==> #[trigger] self.vertices@[id] == Some(
                MarkerPosition { coords: node_coords(id) },
            )
        &&& forall|id: int| 0 <= id < NUM_NODES ==> #[trigger] self.adj()[id] == initial_adjacency(node_coords(id))
    }

    /// The graph of an empty board.
    pub fn new() -> (r: BoardGraph)
        ensures
            r.is_initial(),
    {
        let mut vertices: Vec<Option<MarkerPosition>> = Vec::new();
        let mut adjacency_list: Vec<Vec<(usize, bool)>> = Vec::new();
        let mut id: usize = 0;
        while id < NUM_NODES
            invariant
                id <= NUM_NODES,
                vertices@.len() == id,
                adjacency_list@.len() == id,
                forall|i: int| 0 <= i < id ==> #[trigger] vertices@[i] == Some(MarkerPosition { coords: node_coords(i) }),
                forall|i: int| 0 <= i < id ==> #[trigger] adjacency_list@[i]@ == initial_adjacency(node_coords(i)),
                forall|i: int, j: int|
                    0 <= i < id && 0 <= j < adjacency_list@[i]@.len() ==> #[trigger] adjacency_list@[i]@[j].0 < NUM_NODES,
            decreases NUM_NODES - id,
        {
            let position = node_position(id);
            proof {
                lemma_node_coords(id as int);
                lemma_entries_sound(position.coords);
            }
            let entries = position.entry_point_indices();
            let n = entries_len(&entries);
            let mut list: Vec<(usize, bool)> = Vec::new();
            let mut k: usize = 0;
            while k < n
                invariant
                    valid_lattice(position.coords),
                    entry_items(entries) == entries_of(position.coords),
                    n == entries_of(position.coords).len(),
                    n == 1 || n == 2,
                    k <= n,
                    list@ == if k == 0 {
                        Seq::empty()
                    } else if k == 1 {
                        side_neighbours(entries_of(position.coords)[0].0, entries_of(position.coords)[0].1)
                    } else {
                        initial_adjacency(position.coords)
                    },
                    forall|j: int| 0 <= j < list@.len() ==> #[trigger] list@[j].0 < NUM_NODES,
                    forall|i: int|
                        0 <= i < entries_of(position.coords).len() ==> {
                            let p = #[trigger] entries_of(position.coords)[i];
                            valid_tile(p.0) && p.1 < 8
                        },
                decreases n - k,
            {
                let (tile_coord, own) = entries_get(&entries, k);
                let ghost before = list@;
                let mut e: usize = 0;
                while e < 8
                    invariant
                        valid_tile(tile_coord),
                        own < 8,
                        e <= 8,
                        list@ == before + side_neighbours(tile_coord, own).take(
                            if e <= own { e as int } else { e - 1 },
                        ),
                        forall|j: int| 0 <= j < list@.len() ==> #[trigger] list@[j].0 < NUM_NODES,
                    decreases 8 - e,
                {
                    if e != own {
                        let neighbour = MarkerPosition::from_entry_point_index(tile_coord, e);
                        proof {
                            lemma_entries_complete(tile_coord, e);
                        }
                        let nid = neighbour.node_id();
                        list.push((nid, false));
                        proof {
                            let cnt: int = if e <= own { e as int } else { e - 1 };
                            assert(side_neighbours(tile_coord, own)[cnt] == (nid, false));
                            assert(list@ =~= before + side_neighbours(tile_coord, own).take(cnt + 1));
                        }
                    }
                    e += 1;
                }
                proof {
                    assert(side_neighbours(tile_coord, own).take(7) =~= side_neighbours(tile_coord, own));
                }
                k += 1;
                proof {
                    if k == 1 {
                        assert(list@ =~= side_neighbours(entries_of(position.coords)[0].0, entries_of(position.coords)[0].1));
                    } else {
                        assert(list@ =~= initial_adjacency(position.coords));
                    }
                }
            }
            proof {
                if n == 1 {
                    assert(list@ == initial_adjacency(position.coords));
                }
            }
            vertices.push(Some(position));
            adjacency_list.push(list);
            id += 1;
        }
        let r = BoardGraph { vertices, adjacency_list };
        proof {
            assert forall|i: int| 0 <= i < NUM_NODES implies #[trigger] r.adj()[i] == initial_adjacency(node_coords(i)) by {
                assert(r.adjacency_list@[i]@ == initial_adjacency(node_coords(i)));
            }
        }
        r
    }

    /// Removes the first edge from `from` to `to`, moving the last edge of
    /// the list into its place; nothing where there is none.
    fn remove_directed(&mut self, from: usize, to: usize)
        requires
            old(self).wf(),
            from < NUM_NODES,
        ensures
            final(self).wf(),
            final(self).vertices == old(self).vertices,
            final(self).adj() == old(self).adj().update(from as int, without(old(self).adj()[from as int], to)),
    {
        let ghost old_adj = self.adj();
        let mut row: Vec<(usize, bool)> = Vec::new();
        self.adjacency_list.set_and_swap(from, &mut row);
        let ghost l = row@;
        proof {
            lemma_without(l, to);
        }
        let found = find_edge(&row, to);
        if let Some(k) = found {
            row.swap_remove(k);
        }
        self.adjacency_list.set(from, row);
        proof {
            assert(row@ == without(l, to));
            assert(self.adj() =~= old_adj.update(from as int, without(old_adj[from as int], to)));
            assert forall|j: int| 0 <= j < row@.len() implies l.contains(#[trigger] row@[j]) by {}
            assert forall|a: int, j: int|
                0 <= a < NUM_NODES && 0 <= j < self.adjacency_list@[a]@.len() implies #[trigger] self.adjacency_list@[a]@[j].0
                < NUM_NODES by {
                if a == from {
                    assert(l.contains(self.adjacency_list@[a]@[j]));
                    let x = choose|x: int| 0 <= x < l.len() && l[x] == self.adjacency_list@[a]@[j];
                    assert(old_adj[a][x].0 < NUM_NODES);
                } else {
                    assert(old_adj[a] == self.adj()[a]);
                }
            }
        }
    }

    /// Removes the edge between `a` and `b`, each way.
    fn remove_edge(&mut self, a: usize, b: usize)
        requires
            old(self).wf(),
            a < NUM_NODES,
            b < NUM_NODES,
        ensures
            final(self).wf(),
            final(self).vertices == old(self).vertices,
            final(self).adj() == cut(old(self).adj(), a, b),
    {
        self.remove_directed(a, b);
        self.remove_directed(b, a);
    }

    /// Adds a built edge from `from` to `to`.
    fn push_built(&mut self, from: usize, to: usize)
        requires
            old(self).wf(),
            from < NUM_NODES,
            to < NUM_NODES,
        ensures
            final(self).wf(),
            final(self).vertices == old(self).vertices,
            final(self).adj() == old(self).adj().update(from as int, old(self).adj()[from as int].push((to, true))),
    {
        let ghost old_adj = self.adj();
        let mut row: Vec<(usize, bool)> = Vec::new();
        self.adjacency_list.set_and_swap(from, &mut row);
        row.push((to, true));
        self.adjacency_list.set(from, row);
        proof {
            assert(self.adj() =~= old_adj.update(from as int, old_adj[from as int].push((to, true))));
            assert forall|a: int, j: int|
                0 <= a < NUM_NODES && 0 <= j < self.adjacency_list@[a]@.len() implies #[trigger] self.adjacency_list@[a]@[j].0
                < NUM_NODES by {
                if a == from && j < old_adj[a].len() {
                    assert(self.adjacency_list@[a]@[j] == old_adj[a][j]);
                } else if a != from {
                    assert(old_adj[a] == self.adj()[a]);
                }
            }
        }
    }

    /// The far end of the path that a tile in slot `t` continues at its
    /// entry point `e`; swallows the node of `e` where a path already ends there.
    fn path_end(&mut self, t: Coord, e: usize) -> (r: usize)
        requires
            old(self).wf(),
            valid_tile(t),
            e < 8,
        ensures
            final(self).wf(),
            r < NUM_NODES,
            ((final(self).vertices@, final(self).adj()), r) == path_end(
                (old(self).vertices@, old(self).adj()),
                t,
                e,
            ),
    {
        let position = MarkerPosition::from_entry_point_index(t, e);
        proof {
            lemma_entries_complete(t, e);
        }
        let node_id = position.node_id();
        if self.adjacency_list[node_id].len() == 1 {
            let end = self.adjacency_list[node_id][0].0;
            self.vertices.set(node_id, None);
            self.remove_edge(end, node_id);
            end
        } else {
            node_id
        }
    }

    /// Updates the graph for `tile` placed in slot `tile_coords`: the
    /// unbuilt edges across the slot are removed, and each path of the tile
    /// joins, by built edges, the far ends of the paths it continues,
    /// swallowing the nodes it runs through.
    pub fn place_tile(&mut self, tile: Tile, tile_coords: Coord)
        requires
            old(self).wf(),
            tile.wf(),
            valid_tile(tile_coords),
        ensures
            final(self).wf(),
            (final(self).vertices@, final(self).adj()) == placed(
                (old(self).vertices@, old(self).adj()),
                tile_coords,
                tile,
            ),
    {
        let ghost g0 = (self.vertices@, self.adj());
        let mut a: usize = 0;
        while a < 8
            invariant
                self.wf(),
                valid_tile(tile_coords),
                a <= 8,
                self.vertices@ == g0.0,
                self.adj() == clear_rows(g0.1, tile_coords, a as int),
            decreases 8 - a,
        {
            let mut b: usize = a + 1;
            while b < 8
                invariant
                    self.wf(),
                    valid_tile(tile_coords),
                    a < 8,
                    a + 1 <= b <= 8,
                    self.vertices@ == g0.0,
                    self.adj() == clear_row(clear_rows(g0.1, tile_coords, a as int), tile_coords, a as int, b as int),
                decreases 8 - b,
            {
                let pos_a = MarkerPosition::from_entry_point_index(tile_coords, a);
                let pos_b = MarkerPosition::from_entry_point_index(tile_coords, b);
                proof {
                    lemma_entries_complete(tile_coords, a);
                    lemma_entries_complete(tile_coords, b);
                }
                let node_a = pos_a.node_id();
                let node_b = pos_b.node_id();
                self.remove_edge(node_a, node_b);
                b += 1;
            }
            a += 1;
        }
        let ghost g1 = (g0.0, clear_rows(g0.1, tile_coords, 8));
        let mut e: usize = 0;
        while e < 8
            invariant
                self.wf(),
                tile.wf(),
                valid_tile(tile_coords),
                e <= 8,
                (self.vertices@, self.adj()) == join_paths(g1, tile_coords, tile.connections@, e as int),
            decreases 8 - e,
        {
            let other = tile.connections[e];
            if e < other {
                let end_a = self.path_end(tile_coords, e);
                let end_b = self.path_end(tile_coords, other);
                self.push_built(end_a, end_b);
                self.push_built(end_b, end_a);
            }
            e += 1;
        }
    }


    /// The relation of the graph as a 168x168 matrix: 1 for a built edge,
    /// -1 for an unbuilt one, 0 for none (the last edge listed counts).
    pub fn adjacency_matrix(&self) -> (r: Vec<Vec<i8>>)
        requires
            self.wf(),
        ensures
            r@.len() == NUM_NODES,
            forall|i: int| 0 <= i < NUM_NODES ==> #[trigger] r@[i]@.len() == NUM_NODES,
            forall|i: int, j: int|
                0 <= i < NUM_NODES && 0 <= j < NUM_NODES ==> #[trigger] r@[i]@[j] == edge_value(self.adj()[i], j as usize),
    {
        let mut out: Vec<Vec<i8>> = Vec::new();
        let mut from_id: usize = 0;
        while from_id < NUM_NODES
            invariant
                self.wf(),
                from_id <= NUM_NODES,
                out@.len() == from_id,
                forall|i: int| 0 <= i < from_id ==> #[trigger] out@[i]@.len() == NUM_NODES,
                forall|i: int, j: int|
                    0 <= i < from_id && 0 <= j < NUM_NODES ==> #[trigger] out@[i]@[j] == edge_value(self.adj()[i], j as usize),
            decreases NUM_NODES - from_id,
        {
            let mut row: Vec<i8> = Vec::new();
            let mut j: usize = 0;
            while j < NUM_NODES
                invariant
                    j <= NUM_NODES,
                    row@.len() == j,
                    forall|x: int| 0 <= x < j ==> row@[x] == 0,
                decreases NUM_NODES - j,
            {
                row.push(0);
                j += 1;
            }
            let neighbours = &self.adjacency_list[from_id];
            let ghost l = self.adj()[from_id as int];
            let mut k: usize = 0;
            while k < neighbours.len()
                invariant
                    self.wf(),
                    from_id < NUM_NODES,
                    neighbours@ == l,
                    l == self.adj()[from_id as int],
                    k <= l.len(),
                    row@.len() == NUM_NODES,
                    forall|x: int| 0 <= x < NUM_NODES ==> #[trigger] row@[x] == edge_value(l.take(k as int), x as usize),
                decreases l.len() - k,
            {
                let (to_id, built) = neighbours[k];
                proof {
                    assert(self.adjacency_list@[from_id as int]@[k as int].0 < NUM_NODES);
                }
                row.set(to_id, if built { 1i8 } else { -1i8 });
                proof {
                    assert(l.take(k + 1).drop_last() =~= l.take(k as int));
                }
                k += 1;
            }
            proof {
                assert(l.take(l.len() as int) =~= l);
            }
            out.push(row);
            from_id += 1;
        }
        out
    }


    /// Breadth-first search from `node_id` over built and unbuilt edges:
    /// `(distance, node)` for each node reached, in the order visited.
    #[verifier::rlimit(80)]
    pub fn bfs_from(&self, node_id: usize) -> (r: Vec<(usize, usize)>)
        requires
            self.wf(),
            node_id < NUM_NODES,
        ensures
            r@ == bfs_order(self.adj(), node_id),
            is_bfs(self.adj(), node_id, r@),
    {
        let ghost adj = self.adj();
        let mut out: Vec<(usize, usize)> = Vec::new();
        let mut visited: Vec<bool> = Vec::new();
        let mut i: usize = 0;
        while i < NUM_NODES
            invariant
                i <= NUM_NODES,
                visited@.len() == i,
                forall|x: int| 0 <= x < i ==> !visited@[x],
            decreases NUM_NODES - i,
        {
            visited.push(false);
            i += 1;
        }
        visited.set(node_id, true);
        out.push((0, node_id));
        let ghost mut ids: Set<int> = set![node_id as int];
        proof {
            assert(out@ =~= seq![(0usize, node_id)]);
            assert(out@[0] == (0usize, node_id));
            assert forall|x: int| #[trigger] ids.contains(x) implies exists|k: int|
                0 <= k < out@.len() && (#[trigger] out@[k]).1 == x by {
                assert(out@[0].1 == x);
            }
        }
        let mut h: usize = 0;
        while h < out.len()
            invariant
                self.wf(),
                adj == self.adj(),
                node_id < NUM_NODES,
                1 <= out@.len(),
                out@[0] == (0usize, node_id),
                h <= out@.len(),
                h <= NUM_NODES,
                bfs_order(adj, node_id) == bfs_state(adj, out@, h as int, (NUM_NODES - h) as nat),
                visited@.len() == NUM_NODES,
                ids.finite(),
                ids.len() == out@.len(),
                forall|x: int| #[trigger] ids.contains(x) ==> 0 <= x < NUM_NODES,
                forall|x: int| 0 <= x < NUM_NODES ==> (#[trigger] visited@[x] <==> ids.contains(x)),
                forall|k: int| 0 <= k < out@.len() ==> ids.contains((#[trigger] out@[k]).1 as int),
                forall|x: int| #[trigger] ids.contains(x) ==> exists|k: int| 0 <= k < out@.len() && (#[trigger] out@[k]).1 == x,
                forall|k: int| 0 <= k < out@.len() ==> (#[trigger] out@[k]).1 < NUM_NODES && out@[k].0 <= k,
                forall|i: int, j: int|
                    0 <= i < j < out@.len() ==> (#[trigger] out@[i]).1 != (#[trigger] out@[j]).1 && out@[i].0 <= out@[j].0,
                h < out@.len() ==> forall|k: int| 0 <= k < out@.len() ==> (#[trigger] out@[k]).0 <= out@[h as int].0 + 1,
                forall|k: int|
                    0 < k < out@.len() ==> exists|j: int|
                        0 <= j < k && (#[trigger] out@[j]).0 + 1 == (#[trigger] out@[k]).0 && has_edge(adj, out@[j].1, out@[k].1),
                forall|k: int, e: int|
                    0 <= k < h && 0 <= e < adj[out@[k].1 as int].len() ==> listed_within(
                        out@,
                        (#[trigger] adj[(#[trigger] out@[k]).1 as int][e]).0,
                        out@[k].0 + 1,
                    ),
            decreases NUM_NODES - h,
        {
            proof {
                vstd::set_lib::lemma_int_range(0, NUM_NODES as int);
                assert(ids.subset_of(vstd::set_lib::set_int_range(0, NUM_NODES as int)));
                vstd::set_lib::lemma_len_subset(ids, vstd::set_lib::set_int_range(0, NUM_NODES as int));
            }
            let (current_dist, current_id) = out[h];
            let next_dist = current_dist + 1;
            let neighbours = &self.adjacency_list[current_id];
            let ghost l = adj[current_id as int];
            let ghost before = out@;
            let mut m: usize = 0;
            while m < neighbours.len()
                invariant
                    self.wf(),
                    adj == self.adj(),
                    neighbours@ == l,
                    l == adj[current_id as int],
                    current_id < NUM_NODES,
                    h < before.len(),
                    before[h as int] == (current_dist, current_id),
                    next_dist == current_dist + 1,
                    current_dist <= h,
                    m <= l.len(),
                    before.len() <= out@.len(),
                    visit_neighbours(l, 0, current_dist, before) == visit_neighbours(l, m as int, current_dist, out@),
                    forall|k: int| 0 <= k < before.len() ==> out@[k] == before[k],
                    forall|k: int| before.len() <= k < out@.len() ==> (#[trigger] out@[k]).0 == next_dist
                        && has_edge(adj, current_id, out@[k].1),
                    visited@.len() == NUM_NODES,
                    ids.finite(),
                    ids.len() == out@.len(),
                    forall|x: int| #[trigger] ids.contains(x) ==> 0 <= x < NUM_NODES,
                    forall|x: int| 0 <= x < NUM_NODES ==> (#[trigger] visited@[x] <==> ids.contains(x)),
                    forall|k: int| 0 <= k < out@.len() ==> ids.contains((#[trigger] out@[k]).1 as int),
                    forall|x: int| #[trigger] ids.contains(x) ==> exists|k: int| 0 <= k < out@.len() && (#[trigger] out@[k]).1 == x,
                    forall|k: int| 0 <= k < out@.len() ==> (#[trigger] out@[k]).1 < NUM_NODES && out@[k].0 <= k,
                    forall|i: int, j: int|
                        0 <= i < j < out@.len() ==> (#[trigger] out@[i]).1 != (#[trigger] out@[j]).1 && out@[i].0 <= out@[j].0,
                    forall|k: int| 0 <= k < before.len() ==> (#[trigger] before[k]).0 <= current_dist + 1,
                    forall|e: int| 0 <= e < m ==> listed_within(out@, (#[trigger] l[e]).0, next_dist as int),
                decreases l.len() - m,
            {
                let (to_id, _built) = neighbours[m];
                proof {
                    assert(self.adjacency_list@[current_id as int]@[m as int].0 < NUM_NODES);
                }
                let ghost prev = out@;
                proof {
                    if visited@[to_id as int] {
                        assert(ids.contains(to_id as int));
                        let k = choose|k: int| 0 <= k < out@.len() && (#[trigger] out@[k]).1 == to_id as int;
                        assert(listed(prev, to_id));
                    }
                    if listed(prev, to_id) {
                        let k = choose|k: int| 0 <= k < prev.len() && (#[trigger] prev[k]).1 == to_id;
                        assert(ids.contains(prev[k].1 as int));
                    }
                    assert(listed(prev, to_id) == visited@[to_id as int]);
                }
                if !visited[to_id] {
                    visited.set(to_id, true);
                    proof {
                        assert(!ids.contains(to_id as int));
                        ids = ids.insert(to_id as int);
                        assert(has_edge(adj, current_id, to_id)) by {
                            assert(adj[current_id as int][m as int].0 == to_id);
                        }
                    }
                    out.push((next_dist, to_id));
                    proof {
                        assert forall|x: int| #[trigger] ids.contains(x) implies exists|k: int|
                            0 <= k < out@.len() && (#[trigger] out@[k]).1 == x by {
                            if x == to_id {
                                assert(out@[prev.len() as int].1 == x);
                            } else {
                                let k = choose|k: int| 0 <= k < prev.len() && (#[trigger] prev[k]).1 == x;
                                assert(out@[k].1 == x);
                            }
                        }
                        assert forall|i: int, j: int|
                            0 <= i < j < out@.len() implies (#[trigger] out@[i]).1 != (#[trigger] out@[j]).1 && out@[i].0
                                <= out@[j].0 by {
                            if j == prev.len() {
                                assert(prev[i] == out@[i]);
                                assert(ids.contains(prev[i].1 as int));
                                if i >= before.len() {
                                    assert(out@[i].0 == next_dist);
                                } else {
                                    assert(before[i].0 <= current_dist + 1);
                                }
                            }
                        }
                        assert(listed_within(out@, to_id, next_dist as int)) by {
                            assert(out@[prev.len() as int] == (next_dist, to_id));
                        }
                        assert forall|e: int| 0 <= e < m implies listed_within(out@, (#[trigger] l[e]).0, next_dist as int) by {
                            assert(listed_within(prev, l[e].0, next_dist as int));
                            let k = choose|k: int| 0 <= k < prev.len() && (#[trigger] prev[k]).1 == l[e].0 && prev[k].0 <= next_dist;
                            assert(out@[k] == prev[k]);
                        }
                    }
                } else {
                    proof {
                        assert(ids.contains(to_id as int));
                        let k = choose|k: int| 0 <= k < out@.len() && (#[trigger] out@[k]).1 == to_id as int;
                        if k < before.len() {
                            assert(before[k].0 <= current_dist + 1);
                        }
                        assert(listed_within(out@, to_id, next_dist as int));
                    }
                }
                m += 1;
            }
            proof {
                assert(visit_neighbours(l, l.len() as int, current_dist, out@) == out@);
                assert(before.len() <= NUM_NODES);
                assert(bfs_state(adj, before, h as int, (NUM_NODES - h) as nat) == bfs_state(
                    adj,
                    out@,
                    h + 1,
                    (NUM_NODES - (h + 1)) as nat,
                ));
                assert(out@[h as int] == (current_dist, current_id));
                assert forall|k: int|
                    0 < k < out@.len() implies exists|j: int|
                        0 <= j < k && (#[trigger] out@[j]).0 + 1 == (#[trigger] out@[k]).0 && has_edge(adj, out@[j].1, out@[k].1) by {
                    if k >= before.len() {
                        assert(out@[h as int].0 + 1 == out@[k].0 && has_edge(adj, out@[h as int].1, out@[k].1));
                    } else {
                        let j = choose|j: int|
                            0 <= j < k && (#[trigger] before[j]).0 + 1 == (#[trigger] before[k]).0 && has_edge(adj, before[j].1, before[k].1);
                        assert(out@[j] == before[j]);
                    }
                }
                if h + 1 < out@.len() {
                    assert(out@[h as int].0 <= out@[h + 1].0);
                    assert forall|k: int| 0 <= k < out@.len() implies (#[trigger] out@[k]).0 <= out@[h + 1].0 + 1 by {
                        if k < before.len() {
                            assert(out@[k] == before[k]);
                        }
                    }
                }
                assert forall|k: int, e: int|
                    0 <= k < h + 1 && 0 <= e < adj[out@[k].1 as int].len() implies listed_within(
                        out@,
                        (#[trigger] adj[(#[trigger] out@[k]).1 as int][e]).0,
                        out@[k].0 + 1,
                    ) by {
                    if k == h {
                        assert(l[e] == adj[out@[k].1 as int][e]);
                    } else {
                        assert(out@[k] == before[k]);
                        assert(listed_within(before, adj[before[k].1 as int][e].0, before[k].0 + 1));
                        let x = adj[before[k].1 as int][e].0;
                        let j = choose|j: int| 0 <= j < before.len() && (#[trigger] before[j]).1 == x && before[j].0 <= before[k].0 + 1;
                        assert(out@[j] == before[j]);
                    }
                }
            }
            h += 1;
        }
        out
    }


    /// An independent copy of the graph.
    pub fn duplicate(&self) -> (r: BoardGraph)
        ensures
            r.vertices@ == self.vertices@,
            r.adj() == self.adj(),
            self.wf() ==> r.wf(),
    {
        let mut vertices: Vec<Option<MarkerPosition>> = Vec::new();
        let mut i: usize = 0;
        while i < self.vertices.len()
            invariant
                i <= self.vertices@.len(),
                vertices@ == self.vertices@.take(i as int),
            decreases self.vertices@.len() - i,
        {
            vertices.push(self.vertices[i]);
            i += 1;
            proof {
                assert(vertices@ =~= self.vertices@.take(i as int));
            }
        }
        let mut adjacency_list: Vec<Vec<(usize, bool)>> = Vec::new();
        let mut j: usize = 0;
        while j < self.adjacency_list.len()
            invariant
                j <= self.adjacency_list@.len(),
                adjacency_list@.len() == j,
                forall|k: int| 0 <= k < j ==> #[trigger] adjacency_list@[k]@ == self.adjacency_list@[k]@,
            decreases self.adjacency_list@.len() - j,
        {
            let row = &self.adjacency_list[j];
            let mut copy: Vec<(usize, bool)> = Vec::new();
            let mut k: usize = 0;
            while k < row.len()
                invariant
                    k <= row@.len(),
                    copy@ == row@.take(k as int),
                decreases row@.len() - k,
            {
                copy.push(row[k]);
                k += 1;
                proof {
                    assert(copy@ =~= row@.take(k as int));
                }
            }
            proof {
                assert(row@.take(row@.len() as int) =~= row@);
            }
            adjacency_list.push(copy);
            j += 1;
        }
        proof {
            assert(self.vertices@.take(self.vertices@.len() as int) =~= self.vertices@);
        }
        let r = BoardGraph { vertices, adjacency_list };
        proof {
            assert(r.adj() =~= self.adj());
            if self.wf() {
                assert forall|i: int, j: int|
                    0 <= i < NUM_NODES && 0 <= j < r.adjacency_list@[i]@.len() implies #[trigger] r.adjacency_list@[i]@[j].0
                        < NUM_NODES by {
                    assert(r.adjacency_list@[i]@ == self.adjacency_list@[i]@);
                }
            }
        }
        r
    }

}


impl Default for BoardGraph {
    /// A graph with 168 empty slots: no node and no edge.
    fn default() -> (r: BoardGraph)
        ensures
            r.wf(),
            forall|id: int| 0 <= id < NUM_NODES ==> #[trigger] r.vertices@[id] is None,
            forall|id: int| 0 <= id < NUM_NODES ==> #[trigger] r.adj()[id].len() == 0,
    {
        let mut vertices: Vec<Option<MarkerPosition>> = Vec::new();
        let mut adjacency_list: Vec<Vec<(usize, bool)>> = Vec::new();
        let mut i: usize = 0;
        while i < NUM_NODES
            invariant
                i <= NUM_NODES,
                vertices@.len() == i,
                adjacency_list@.len() == i,
                forall|id: int| 0 <= id < i ==> #[trigger] vertices@[id] is None,
                forall|id: int| 0 <= id < i ==> #[trigger] adjacency_list@[id]@.len() == 0,
            decreases NUM_NODES - i,
        {
            vertices.push(None);
            adjacency_list.push(Vec::new());
            i += 1;
        }
        BoardGraph { vertices, adjacency_list }
    }
}

/// The position of the first edge to `to` in `row`.
fn find_edge(row: &Vec<(usize, bool)>, to: usize) -> (r: Option<usize>)
    ensures
        r matches Some(k) ==> index_of(row@, to) == Some(k as int),
        r is None ==> index_of(row@, to) is None,
{
    let ghost l = row@;
    let mut i: usize = 0;
    while i < row.len()
        invariant
            row@ == l,
            i <= l.len(),
            index_of(l.take(i as int), to) is None,
        decreases l.len() - i,
    {
        if row[i].0 == to {
            proof {
                lemma_index_of_prefix(l, to, i as int + 1);
            }
            return Some(i);
        }
        proof {
            assert(l.take(i + 1).drop_last() =~= l.take(i as int));
        }
        i += 1;
    }
    proof {
        assert(l.take(l.len() as int) =~= l);
    }
    None
}

/// The point of node `id`.
pub fn node_position(id: usize) -> (r: MarkerPosition)
    requires
        id < NUM_NODES,
    ensures
        r.coords == node_coords(id as int),
{
    if id < 84 {
        let k = id % 12;
        MarkerPosition { coords: (3 * (id / 12), 3 * (k / 2) + k % 2 + 1) }
    } else {
        let k = (id - 84) % 12;
        MarkerPosition { coords: (3 * (k / 2) + k % 2 + 1, 3 * ((id - 84) / 12)) }
    }
}

} // verus!
