//! The board: the tile grid, the players' tokens, and the rules that move
//! tokens along the paths of placed tiles.
use vstd::prelude::*;

use crate::arrayvec_specs::{tiles_get, tiles_len};
use crate::geometry::{
    border_coords, entries_of, entry_coords, entry_on, lemma_border_coords,
    lemma_entries_complete, lemma_entries_sound, on_edge, same_coord,
    tiles_of, valid_lattice, valid_tile, Coord, MarkerPosition,
};
use crate::graph::{placed, BoardGraph};
use crate::tile::Tile;

verus! {

/// The 6x6 grid of tile slots, indexed `[x][y]`.
pub type Grid = [[Option<Tile>; 6]; 6];

/// Steps after which a path is no longer followed: a path that does not
/// close on itself crosses each of the four paths of the 36 tiles at most once.
pub const MAX_PATH_STEPS: usize = 144;

/// A player's token.
#[derive(Debug, Clone, Copy, PartialEq, Eq, Hash)]
pub struct Marker {
    pub position: MarkerPosition,
    /// The tile the token last left; `None` while it stands on its starting
    /// border point.
    pub previous_tile: Option<Coord>,
    pub has_moved: bool,
}

#[derive(Debug, Clone, PartialEq)]
pub struct Board {
    /// One slot per player; `None` once the player is eliminated.
    pub markers: Vec<Option<Marker>>,
    pub tiles: Grid,
    pub graph: BoardGraph,
}

/// The tile in slot `t`.
pub open spec fn tile_at(g: Grid, t: Coord) -> Option<Tile> {
    g[t.0 as int][t.1 as int]
}

/// Every placed tile is a proper tile.
pub open spec fn grid_wf(g: Grid) -> bool {
    forall|t: Coord| valid_tile(t) && #[trigger] tile_at(g, t) is Some ==> tile_at(g, t)->0.wf()
}

/// The tile that a path standing at `pos`, having come out of `last`,
/// enters next; `last` itself where `pos` lies on no other tile.
pub open spec fn next_step_tile(pos: Coord, last: Coord) -> Coord {
    let ts = tiles_of(pos);
    if ts.len() == 2 && last == ts[0] {
        ts[1]
    } else {
        ts[0]
    }
}

/// Where the path at `pos`, having come out of tile `last`, ends: at the
/// board's edge or next to an empty slot, or after `fuel` more tiles.
pub open spec fn follow(g: Grid, pos: Coord, last: Coord, fuel: nat) -> Coord
    decreases fuel,
{
    let next = next_step_tile(pos, last);
    if fuel == 0 || next == last {
        pos
    } else {
        match tile_at(g, next) {
            None => pos,
            Some(t) => follow(
                g,
                entry_coords(next, t.connections[entry_on(pos, next).unwrap() as int]),
                next,
                (fuel - 1) as nat,
            ),
        }
    }
}

/// A token as play leaves it: on a valid point; on the border while it has
/// not moved; otherwise inside the board, next to the placed tile it left.
pub open spec fn marker_wf(g: Grid, m: Marker) -> bool {
    &&& valid_lattice(m.position.coords)
    &&& match m.previous_tile {
        None => on_edge(m.position.coords),
        Some(p) => {
            &&& valid_tile(p)
            &&& tile_at(g, p) is Some
            &&& !on_edge(m.position.coords)
            &&& tiles_of(m.position.coords).contains(p)
        },
    }
}

/// The slot the token `m` enters next.
pub open spec fn next_tile_of(m: Marker) -> Coord {
    let ts = tiles_of(m.position.coords);
    match m.previous_tile {
        Some(p) => if ts[0] == p {
            ts[1]
        } else {
            ts[0]
        },
        None => ts[0],
    }
}

/// Where the path that token `m` stands on ends.
pub open spec fn player_end(g: Grid, m: Marker) -> Coord {
    let pos = m.position.coords;
    match m.previous_tile {
        None => {
            let t = tiles_of(pos)[0];
            match tile_at(g, t) {
                None => pos,
                Some(tile) => follow(
                    g,
                    entry_coords(t, tile.connections[entry_on(pos, t).unwrap() as int]),
                    t,
                    MAX_PATH_STEPS as nat,
                ),
            }
        },
        Some(p) => follow(g, pos, p, MAX_PATH_STEPS as nat),
    }
}

/// Of the two tiles at `c`, the placed one (the first where both are).
pub open spec fn placed_side(g: Grid, c: Coord) -> Coord {
    let ts = tiles_of(c);
    if tile_at(g, ts[0]) is None {
        ts[1]
    } else {
        ts[0]
    }
}

/// Whether moving token `m` takes it off the board.
pub open spec fn falls_off(g: Grid, m: Marker) -> bool {
    let end = player_end(g, m);
    end != m.position.coords && on_edge(end)
}

/// Whether player `p` has a token, which moving takes off the board.
pub open spec fn leaves_board(ms: Seq<Option<Marker>>, g: Grid, p: int) -> bool {
    0 <= p < ms.len() && ms[p] is Some && falls_off(g, ms[p]->0)
}

/// Token `m` after moving along its path: unchanged where the path ends
/// where it stands or at the edge; else at the end, having left the placed
/// tile there.
pub open spec fn moved(g: Grid, m: Marker) -> Marker {
    let end = player_end(g, m);
    if end == m.position.coords || on_edge(end) {
        m
    } else {
        Marker {
            position: MarkerPosition { coords: end },
            previous_tile: Some(placed_side(g, end)),
            has_moved: true,
        }
    }
}

/// The least player whose token stands at `c`, among the first `n` slots.
pub open spec fn first_at(ms: Seq<Option<Marker>>, c: Coord, n: int) -> Option<int>
    decreases n,
{
    if n <= 0 {
        None
    } else {
        match first_at(ms, c, n - 1) {
            Some(p) => Some(p),
            None => if ms[n - 1] matches Some(m) && m.position.coords == c {
                Some(n - 1)
            } else {
                None
            },
        }
    }
}

/// Once found among the first `i` slots, the least player at `c` stays
/// the same among more.
pub proof fn lemma_first_at_stays(ms: Seq<Option<Marker>>, c: Coord, i: int, n: int)
    requires
        0 < i <= n,
        first_at(ms, c, i - 1) is None,
        ms[i - 1] matches Some(m) && m.position.coords == c,
    ensures
        first_at(ms, c, n) == Some(i - 1),
    decreases n - i,
{
    if n > i {
        lemma_first_at_stays(ms, c, i, n - 1);
    }
}

/// The least player at `c` among `n` slots is one of them, with a token there.
pub proof fn lemma_first_at_bound(ms: Seq<Option<Marker>>, c: Coord, n: int)
    ensures
        first_at(ms, c, n) matches Some(q) ==> 0 <= q < n && ms[q] is Some && ms[q]->0.position.coords == c,
    decreases n,
{
    if n > 0 {
        lemma_first_at_bound(ms, c, n - 1);
    }
}

/// Path `pk` of a tile has a token at both ends, `q` being the least
/// player at one of them; `at[e]` is the least player at entry point `e`.
pub open spec fn path_hits(at: Seq<Option<usize>>, pk: (usize, usize), q: int) -> bool {
    &&& at[pk.0 as int] is Some
    &&& at[pk.1 as int] is Some
    &&& (at[pk.0 as int]->0 as int == q || at[pk.1 as int]->0 as int == q)
}

/// Whether player `p` collides when `tile` is placed in slot `t`: a token
/// stands at each end of one of its paths, and one of them is `p`'s (the
/// least player standing there).
pub open spec fn collides(ms: Seq<Option<Marker>>, tile: Tile, t: Coord, p: int) -> bool {
    exists|e: int|
        0 <= e < 8 && #[trigger] first_at(ms, entry_coords(t, e as usize), ms.len() as int) == Some(p)
            && first_at(ms, entry_coords(t, tile.connections[e]), ms.len() as int) is Some
}


/// Crossings of the tile being placed that a suicide check follows: a path
/// that does not close on itself uses each of the tile's four paths once.
pub const MAX_CROSSINGS: usize = 4;

/// Whether a path that ends at `c` goes on through `slot`, the slot being
/// filled: `c` is an entry point of `slot` and each tile there is placed or
/// is `slot`.
pub open spec fn passes_back(g: Grid, slot: Coord, c: Coord) -> bool {
    let ts = tiles_of(c);
    &&& entry_on(c, slot) is Some
    &&& ts.len() == 2
    &&& (tile_at(g, ts[0]) is Some || ts[0] == slot)
    &&& (tile_at(g, ts[1]) is Some || ts[1] == slot)
}

/// Where a token at `pos` ends up crossing `tile` placed in `slot`, then
/// the placed tiles beyond, as often as the path comes back to `slot`
/// (at most `fuel` crossings).
pub open spec fn cross(g: Grid, tile: Tile, slot: Coord, pos: Coord, fuel: nat) -> Coord
    decreases fuel,
{
    let e = entry_on(pos, slot).unwrap();
    let end = follow(g, entry_coords(slot, tile.connections[e as int]), slot, MAX_PATH_STEPS as nat);
    if fuel <= 1 || !passes_back(g, slot, end) {
        end
    } else {
        cross(g, tile, slot, end, (fuel - 1) as nat)
    }
}

/// Whether placing `tile` in front of player `p`'s token `m` eliminates
/// `p`: its path ends at the edge, or `p` collides.
pub open spec fn is_suicide(g: Grid, ms: Seq<Option<Marker>>, tile: Tile, p: int) -> bool {
    let m = ms[p]->0;
    let slot = next_tile_of(m);
    on_edge(cross(g, tile, slot, m.position.coords, MAX_CROSSINGS as nat)) || collides(ms, tile, slot, p)
}

/// A point lies on each tile of `tiles_of` by an entry point.
pub proof fn lemma_entry_on_some(c: Coord, t: Coord)
    requires
        valid_lattice(c),
        tiles_of(c).contains(t),
    ensures
        entry_on(c, t) matches Some(e) && e < 8 && entry_coords(t, e) == c,
{
    lemma_entries_sound(c);
    let es = entries_of(c);
    assert(tiles_of(c)[0] == es[0].0);
    if es.len() == 2 {
        assert(tiles_of(c)[1] == es[1].0);
    }
}

/// An entry point's lattice point lies on the entry point's tile.
pub proof fn lemma_tiles_of_contains(t: Coord, e: usize)
    requires
        valid_tile(t),
        e < 8,
    ensures
        valid_lattice(entry_coords(t, e)),
        tiles_of(entry_coords(t, e)).contains(t),
{
    lemma_entries_complete(t, e);
    let es = entries_of(entry_coords(t, e));
    let i = choose|i: int| 0 <= i < es.len() && es[i] == (t, e);
    assert(tiles_of(entry_coords(t, e))[i] == t);
}


/// Where a path ends that comes out of a placed tile: a valid point, and,
/// unless on the border, one with a placed tile on one side.
pub proof fn lemma_follow_end(g: Grid, pos: Coord, last: Coord, fuel: nat)
    requires
        grid_wf(g),
        valid_lattice(pos),
        valid_tile(last),
        tiles_of(pos).contains(last),
        tile_at(g, last) is Some,
    ensures
        valid_lattice(follow(g, pos, last, fuel)),
        !on_edge(follow(g, pos, last, fuel)) ==> {
            let r = follow(g, pos, last, fuel);
            &&& tiles_of(r).len() == 2
            &&& valid_tile(placed_side(g, r))
            &&& tile_at(g, placed_side(g, r)) is Some
            &&& tiles_of(r).contains(placed_side(g, r))
        },
    decreases fuel,
{
    lemma_entries_sound(pos);
    let ts = tiles_of(pos);
    let es = entries_of(pos);
    assert(ts[0] == es[0].0);
    if ts.len() == 2 {
        assert(ts[1] == es[1].0);
    }
    let next = next_step_tile(pos, last);
    if fuel == 0 || next == last || tile_at(g, next) is None {
        if !on_edge(pos) {
            assert(ts.contains(placed_side(g, pos)));
        }
    } else {
        let t = tile_at(g, next)->0;
        let e = entry_on(pos, next).unwrap();
        assert(e < 8);
        assert(t.wf());
        let x = t.connections[e as int];
        lemma_tiles_of_contains(next, x);
        lemma_follow_end(g, entry_coords(next, x), next, (fuel - 1) as nat);
    }
}

/// Where a well-placed token's path ends: a valid point, and, unless on the
/// border, one with a placed tile on one side.
pub proof fn lemma_player_end(g: Grid, m: Marker)
    requires
        grid_wf(g),
        marker_wf(g, m),
    ensures
        valid_lattice(player_end(g, m)),
        !on_edge(player_end(g, m)) ==> marker_wf(g, moved(g, m)),
{
    let pos = m.position.coords;
    lemma_entries_sound(pos);
    match m.previous_tile {
        None => {
            let t = tiles_of(pos)[0];
            assert(t == entries_of(pos)[0].0);
            if let Some(tile) = tile_at(g, t) {
                let e = entry_on(pos, t).unwrap();
                assert(tile.wf());
                let x = tile.connections[e as int];
                lemma_tiles_of_contains(t, x);
                lemma_follow_end(g, entry_coords(t, x), t, MAX_PATH_STEPS as nat);
            }
        },
        Some(p) => {
            lemma_follow_end(g, pos, p, MAX_PATH_STEPS as nat);
        },
    }
}

/// A token still on its starting border point, in front of an empty slot,
/// does not move and is not eliminated by moving.
pub proof fn lemma_waiting_token_stays(g: Grid, m: Marker)
    requires
        marker_wf(g, m),
        m.previous_tile is None,
        tile_at(g, next_tile_of(m)) is None,
    ensures
        moved(g, m) == m,
        !falls_off(g, m),
{
}

/// Where the least players at the two ends of a path of a new tile are
/// `p` and `q`, both collide.
pub proof fn lemma_collision_pair(ms: Seq<Option<Marker>>, tile: Tile, t: Coord, e: int, p: int, q: int)
    requires
        tile.wf(),
        0 <= e < 8,
        first_at(ms, entry_coords(t, e as usize), ms.len() as int) == Some(p),
        first_at(ms, entry_coords(t, tile.connections[e]), ms.len() as int) == Some(q),
    ensures
        collides(ms, tile, t, p),
        collides(ms, tile, t, q),
{
    let f = tile.connections[e] as int;
    assert(tile.connections@[e] < 8);
    assert(tile.connections[f] == e);
    assert(first_at(ms, entry_coords(t, f as usize), ms.len() as int) == Some(q));
}

/// Player `r` has a token standing at `c`.
pub open spec fn token_at(ms: Seq<Option<Marker>>, r: int, c: Coord) -> bool {
    0 <= r < ms.len() && ms[r] is Some && ms[r]->0.position.coords == c
}

/// No two tokens stand at the same point.
pub open spec fn tokens_apart(ms: Seq<Option<Marker>>) -> bool {
    forall|p: int, q: int|
        #![trigger ms[p], ms[q]]
        0 <= p < ms.len() && 0 <= q < ms.len() && p != q && ms[p] is Some && ms[q] is Some
            ==> ms[p]->0.position.coords != ms[q]->0.position.coords
}

/// Where tokens stand apart, the least player at a point is the one there.
pub proof fn lemma_first_at_only(ms: Seq<Option<Marker>>, c: Coord, n: int, p: int)
    requires
        tokens_apart(ms),
        0 <= p < n <= ms.len(),
        token_at(ms, p, c),
    ensures
        first_at(ms, c, n) == Some(p),
    decreases n,
{
    if p < n - 1 {
        lemma_first_at_only(ms, c, n - 1, p);
    } else {
        lemma_first_at_bound(ms, c, n - 1);
        if let Some(q) = first_at(ms, c, n - 1) {
            assert(ms[q] is Some && ms[p] is Some);
            assert(ms[q]->0.position.coords != ms[p]->0.position.coords);
        }
    }
}

/// With tokens standing apart, a player collides when `tile` is placed in
/// slot `t` exactly when its token stands at one end of a path of the tile
/// and another player's token at the other end.
pub proof fn lemma_collisions_of_tokens_apart(ms: Seq<Option<Marker>>, tile: Tile, t: Coord, q: int)
    requires
        tokens_apart(ms),
        tile.wf(),
        valid_tile(t),
        0 <= q < ms.len(),
    ensures
        collides(ms, tile, t, q) <==> exists|e: int, r: int|
            0 <= e < 8 && r != q && #[trigger] token_at(ms, q, entry_coords(t, e as usize)) && #[trigger] token_at(
                ms,
                r,
                entry_coords(t, tile.connections[e]),
            ),
{
    let n = ms.len() as int;
    if collides(ms, tile, t, q) {
        let e = choose|e: int|
            0 <= e < 8 && #[trigger] first_at(ms, entry_coords(t, e as usize), n) == Some(q)
                && first_at(ms, entry_coords(t, tile.connections[e]), n) is Some;
        let f = tile.connections[e];
        assert(tile.connections@[e] < 8 && tile.connections@[e] != e);
        lemma_first_at_bound(ms, entry_coords(t, e as usize), n);
        lemma_first_at_bound(ms, entry_coords(t, f), n);
        let r = first_at(ms, entry_coords(t, f), n)->0;
        assert(entry_coords(t, e as usize) != entry_coords(t, f));
        assert(token_at(ms, q, entry_coords(t, e as usize)) && token_at(ms, r, entry_coords(t, f)) && r != q);
    }
    if exists|e: int, r: int|
        0 <= e < 8 && r != q && #[trigger] token_at(ms, q, entry_coords(t, e as usize)) && #[trigger] token_at(
            ms,
            r,
            entry_coords(t, tile.connections[e]),
        ) {
        let (e, r) = choose|e: int, r: int|
            0 <= e < 8 && r != q && #[trigger] token_at(ms, q, entry_coords(t, e as usize)) && #[trigger] token_at(
                ms,
                r,
                entry_coords(t, tile.connections[e]),
            );
        lemma_first_at_only(ms, entry_coords(t, e as usize), n, q);
        lemma_first_at_only(ms, entry_coords(t, tile.connections[e]), n, r);
    }
}

impl Board {
    /// Tiles are proper, tokens as play leaves them, the graph well formed.
    pub open spec fn wf(&self) -> bool {
        &&& grid_wf(self.tiles)
        &&& self.graph.wf()
        &&& forall|p: int|
            0 <= p < self.markers@.len() && #[trigger] self.markers@[p] is Some ==> marker_wf(
                self.tiles,
                self.markers@[p]->0,
            )
    }

    /// An empty board with no tokens.
    pub fn new() -> (r: Board)
        ensures
            r.wf(),
            r.markers@.len() == 0,
            forall|t: Coord| valid_tile(t) ==> #[trigger] tile_at(r.tiles, t) is None,
            r.graph.is_initial(),
    {
        Board { markers: Vec::new(), tiles: [[None; 6]; 6], graph: BoardGraph::new() }
    }

    /// The tile in slot `t`.
    pub fn tile_at(&self, t: Coord) -> (r: Option<Tile>)
        requires
            valid_tile(t),
        ensures
            r == tile_at(self.tiles, t),
    {
        self.tiles[t.0][t.1]
    }

    /// Puts a new token on border point `position_index`, unless a token
    /// that has never moved already stands there.
    pub fn place_marker(&mut self, position_index: usize) -> (r: bool)
        requires
            position_index < 48,
            old(self).wf(),
        ensures
            final(self).wf(),
            final(self).tiles == old(self).tiles,
            final(self).graph == old(self).graph,
            ({
                let m = Marker {
                    position: MarkerPosition { coords: border_coords(position_index as int) },
                    previous_tile: None,
                    has_moved: false,
                };
                &&& r == !old(self).markers@.contains(Some(m))
                &&& final(self).markers@ == if r {
                    old(self).markers@.push(Some(m))
                } else {
                    old(self).markers@
                }
            }),
    {
        let position = MarkerPosition::from_index(position_index);
        proof {
            lemma_border_coords(position_index as int);
        }
        let marker = Marker { position, previous_tile: None, has_moved: false };
        let mut i: usize = 0;
        while i < self.markers.len()
            invariant
                *self == *old(self),
                self.wf(),
                marker.position.coords == border_coords(position_index as int),
                marker.previous_tile is None,
                !marker.has_moved,
                i <= self.markers@.len(),
                forall|j: int| 0 <= j < i ==> self.markers@[j] != Some(marker),
            decreases self.markers@.len() - i,
        {
            if let Some(other) = self.markers[i] {
                if same_coord(other.position.coords, marker.position.coords)
                    && other.previous_tile.is_none() && !other.has_moved {
                    proof {
                        assert(self.markers@[i as int] == Some(marker));
                    }
                    return false;
                }
            }
            i += 1;
        }
        self.markers.push(Some(marker));
        proof {
            let ms = self.markers@;
            assert forall|p: int| 0 <= p < ms.len() && #[trigger] ms[p] is Some implies marker_wf(
                self.tiles,
                ms[p]->0,
            ) by {
                if p < ms.len() - 1 {
                    assert(old(self).markers@[p] == ms[p]);
                }
            }
        }
        true
    }

    /// The slot that `player`'s token enters next: its border tile while it
    /// has not moved, else the tile on the far side from the one it left.
    pub fn next_tile_of_player(&self, player: usize) -> (r: Coord)
        requires
            self.wf(),
            player < self.markers@.len(),
            self.markers@[player as int] is Some,
        ensures
            r == next_tile_of(self.markers@[player as int]->0),
            valid_tile(r),
            tiles_of(self.markers@[player as int]->0.position.coords).contains(r),
    {
        let marker = self.markers[player].unwrap();
        proof {
            assert(marker_wf(self.tiles, marker));
            lemma_entries_sound(marker.position.coords);
        }
        let adjacents = marker.position.adjacent_tiles();
        let first = tiles_get(&adjacents, 0);
        proof {
            assert(tiles_of(marker.position.coords)[0] == entries_of(marker.position.coords)[0].0);
        }
        match marker.previous_tile {
            Some(previous) => {
                let second = tiles_get(&adjacents, 1);
                proof {
                    assert(tiles_of(marker.position.coords)[1] == entries_of(marker.position.coords)[1].0);
                }
                if same_coord(first, previous) {
                    second
                } else {
                    first
                }
            },
            None => first,
        }
    }

    /// Where the path ends that leaves tile `location` by entry point `exit`.
    pub fn find_path_endpoint(&self, location: Coord, exit: usize) -> (r: MarkerPosition)
        requires
            grid_wf(self.tiles),
            valid_tile(location),
            exit < 8,
        ensures
            r.coords == follow(self.tiles, entry_coords(location, exit), location, MAX_PATH_STEPS as nat),
            valid_lattice(r.coords),
    {
        let mut current_position = MarkerPosition::from_entry_point_index(location, exit);
        let mut last_tile_coord = location;
        let mut fuel: usize = MAX_PATH_STEPS;
        proof {
            lemma_tiles_of_contains(location, exit);
        }
        loop
            invariant
                grid_wf(self.tiles),
                valid_lattice(current_position.coords),
                valid_tile(last_tile_coord),
                tiles_of(current_position.coords).contains(last_tile_coord),
                follow(self.tiles, entry_coords(location, exit), location, MAX_PATH_STEPS as nat)
                    == follow(self.tiles, current_position.coords, last_tile_coord, fuel as nat),
            ensures
                follow(self.tiles, entry_coords(location, exit), location, MAX_PATH_STEPS as nat)
                    == current_position.coords,
                valid_lattice(current_position.coords),
            decreases fuel,
        {
            proof {
                lemma_entries_sound(current_position.coords);
                reveal_with_fuel(follow, 1);
            }
            let adjacents = current_position.adjacent_tiles();
            let n = tiles_len(&adjacents);
            let a0 = tiles_get(&adjacents, 0);
            let next_tile_coord = if n == 2 && same_coord(last_tile_coord, a0) {
                tiles_get(&adjacents, 1)
            } else {
                a0
            };
            proof {
                assert(next_tile_coord == next_step_tile(current_position.coords, last_tile_coord));
                let ts = tiles_of(current_position.coords);
                assert(ts[0] == entries_of(current_position.coords)[0].0);
                if n == 2 {
                    assert(ts[1] == entries_of(current_position.coords)[1].0);
                }
            }
            if fuel == 0 || same_coord(next_tile_coord, last_tile_coord) {
                proof {
                    assert(follow(self.tiles, current_position.coords, last_tile_coord, fuel as nat)
                        == current_position.coords);
                }
                break;
            }
            let next_tile = self.tile_at(next_tile_coord);
            match next_tile {
                None => {
                    proof {
                        assert(follow(self.tiles, current_position.coords, last_tile_coord, fuel as nat)
                            == current_position.coords);
                    }
                    break;
                },
                Some(t) => {
                    let entry_index = current_position.entry_point_index_on(next_tile_coord).unwrap();
                    proof {
                        assert(t.wf());
                        assert(t.connections@[entry_index as int] < 8);
                    }
                    let exit_index = t.connections[entry_index];
                    last_tile_coord = next_tile_coord;
                    current_position = MarkerPosition::from_entry_point_index(next_tile_coord, exit_index);
                    fuel -= 1;
                    proof {
                        lemma_tiles_of_contains(next_tile_coord, exit_index);
                    }
                },
            }
        }
        current_position
    }

    /// Where the path that `player`'s token stands on ends, and whether that
    /// differs from where it stands.
    fn find_player_path_end(&self, player: usize) -> (r: (MarkerPosition, bool))
        requires
            self.wf(),
            player < self.markers@.len(),
            self.markers@[player as int] is Some,
        ensures
            r.0.coords == player_end(self.tiles, self.markers@[player as int]->0),
            r.1 == (r.0.coords != self.markers@[player as int]->0.position.coords),
    {
        let marker = self.markers[player].unwrap();
        proof {
            assert(marker_wf(self.tiles, marker));
            lemma_entries_sound(marker.position.coords);
        }
        let end = match marker.previous_tile {
            None => {
                let adjacents = marker.position.adjacent_tiles();
                let next = tiles_get(&adjacents, 0);
                proof {
                    assert(next == entries_of(marker.position.coords)[0].0);
                }
                match self.tile_at(next) {
                    None => {
                        return (marker.position, false);
                    },
                    Some(tile) => {
                        let from_idx = marker.position.entry_point_index_on(next).unwrap();
                        proof {
                            assert(tile.wf());
                            assert(tile.connections@[from_idx as int] < 8);
                        }
                        let to_idx = tile.connections[from_idx];
                        self.find_path_endpoint(next, to_idx)
                    },
                }
            },
            Some(previous) => {
                let exit_idx = marker.position.entry_point_index_on(previous).unwrap();
                proof {
                    let es = entries_of(marker.position.coords);
                    assert(entry_coords(previous, exit_idx) == marker.position.coords);
                }
                self.find_path_endpoint(previous, exit_idx)
            },
        };
        let moved = !same_coord(end.coords, marker.position.coords);
        (end, moved)
    }

    /// Moves every token along its path. Returns, in increasing order, the
    /// players whose path takes them to the edge of the board; their tokens
    /// are left where they were.
    pub fn move_markers(&mut self) -> (r: Vec<usize>)
        requires
            old(self).wf(),
        ensures
            final(self).wf(),
            final(self).tiles == old(self).tiles,
            final(self).graph == old(self).graph,
            final(self).markers@.len() == old(self).markers@.len(),
            forall|p: int|
                0 <= p < old(self).markers@.len() ==> #[trigger] final(self).markers@[p] == match old(
                    self,
                ).markers@[p] {
                    None => None,
                    Some(m) => Some(moved(old(self).tiles, m)),
                },
            forall|i: int, j: int| 0 <= i < j < r@.len() ==> r@[i] < r@[j],
            forall|p: usize|
                r@.contains(p) <==> leaves_board(old(self).markers@, old(self).tiles, p as int),
    {
        let mut eliminated: Vec<usize> = Vec::new();
        let n = self.markers.len();
        let mut player: usize = 0;
        while player < n
            invariant
                self.wf(),
                n == old(self).markers@.len(),
                self.tiles == old(self).tiles,
                self.graph == old(self).graph,
                self.markers@.len() == n,
                player <= n,
                forall|p: int|
                    0 <= p < player ==> #[trigger] self.markers@[p] == match old(self).markers@[p] {
                        None => None,
                        Some(m) => Some(moved(old(self).tiles, m)),
                    },
                forall|p: int| player <= p < n ==> #[trigger] self.markers@[p] == old(self).markers@[p],
                forall|i: int, j: int| 0 <= i < j < eliminated@.len() ==> eliminated@[i] < eliminated@[j],
                forall|i: int| 0 <= i < eliminated@.len() ==> eliminated@[i] < player,
                forall|p: usize|
                    eliminated@.contains(p) <==> (p < player && leaves_board(old(self).markers@, old(self).tiles, p as int)),
            decreases n - player,
        {
            let ghost before = eliminated@;
            match self.markers[player] {
                None => {},
                Some(marker) => {
                    proof {
                        assert(marker_wf(self.tiles, marker));
                        lemma_player_end(self.tiles, marker);
                    }
                    let (new_pos, is_different) = self.find_player_path_end(player);
                    if is_different {
                        if new_pos.is_edge() {
                            eliminated.push(player);
                        } else {
                            proof {
                                lemma_entries_sound(new_pos.coords);
                            }
                            let adjacents = new_pos.adjacent_tiles();
                            let a = tiles_get(&adjacents, 0);
                            let b = tiles_get(&adjacents, 1);
                            proof {
                                assert(a == entries_of(new_pos.coords)[0].0);
                                assert(b == entries_of(new_pos.coords)[1].0);
                            }
                            let prev_tile_pos = if self.tile_at(a).is_none() {
                                b
                            } else {
                                a
                            };
                            let new_marker = Marker {
                                previous_tile: Some(prev_tile_pos),
                                position: new_pos,
                                has_moved: true,
                            };
                            proof {
                                assert(new_marker == moved(self.tiles, marker));
                            }
                            self.markers.set(player, Some(new_marker));
                        }
                    }
                },
            }
            proof {
                assert forall|p: usize|
                    eliminated@.contains(p) <==> (p < player + 1 && leaves_board(old(self).markers@, old(self).tiles, p as int)) by {
                    if p == player {
                        if eliminated@.len() > before.len() {
                            assert(eliminated@[before.len() as int] == p);
                        } else {
                            assert(!before.contains(p));
                        }
                    } else if eliminated@.contains(p) && eliminated@.len() > before.len() {
                        let i = choose|i: int| 0 <= i < eliminated@.len() && eliminated@[i] == p;
                        if i < before.len() {
                            assert(before.contains(p));
                        }
                    } else if before.contains(p) {
                        let i = choose|i: int| 0 <= i < before.len() && before[i] == p;
                        assert(eliminated@[i] == p);
                    }
                }
            }
            player += 1;
        }
        eliminated
    }

    /// Removes `player`'s token for good.
    pub fn eliminate_player(&mut self, player: usize)
        requires
            old(self).wf(),
            player < old(self).markers@.len(),
        ensures
            final(self).wf(),
            final(self).tiles == old(self).tiles,
            final(self).graph == old(self).graph,
            final(self).markers@ == old(self).markers@.update(player as int, None),
    {
        self.markers.set(player, None);
        proof {
            let ms = self.markers@;
            assert forall|p: int| 0 <= p < ms.len() && #[trigger] ms[p] is Some implies marker_wf(
                self.tiles,
                ms[p]->0,
            ) by {
                assert(old(self).markers@[p] == ms[p]);
            }
        }
    }


    /// The least player whose token stands at `pos`.
    fn first_marker_at(&self, pos: MarkerPosition) -> (r: Option<usize>)
        ensures
            r matches Some(q) ==> first_at(self.markers@, pos.coords, self.markers@.len() as int) == Some(q as int),
            r is None ==> first_at(self.markers@, pos.coords, self.markers@.len() as int) is None,
    {
        let mut i: usize = 0;
        while i < self.markers.len()
            invariant
                i <= self.markers@.len(),
                first_at(self.markers@, pos.coords, i as int) is None,
            decreases self.markers@.len() - i,
        {
            if let Some(m) = self.markers[i] {
                if same_coord(m.position.coords, pos.coords) {
                    proof {
                        lemma_first_at_stays(self.markers@, pos.coords, i + 1, self.markers@.len() as int);
                    }
                    return Some(i);
                }
            }
            i += 1;
        }
        None
    }

    /// The players who collide when `tile` is placed in slot `position`
    /// (tokens not yet moved), in increasing order: for each path of the
    /// tile with a token at both ends, the least player at each end.
    pub fn find_collisions(&self, tile: Tile, position: Coord) -> (r: Vec<usize>)
        requires
            tile.wf(),
            valid_tile(position),
        ensures
            forall|i: int, j: int| 0 <= i < j < r@.len() ==> r@[i] < r@[j],
            forall|p: usize|
                r@.contains(p) <==> (p < self.markers@.len() && collides(self.markers@, tile, position, p as int)),
    {
        let ghost ms = self.markers@;
        let ghost n = ms.len() as int;
        let ghost c = tile.connections@;
        let mut at: Vec<Option<usize>> = Vec::new();
        let mut e: usize = 0;
        while e < 8
            invariant
                e <= 8,
                at@.len() == e,
                valid_tile(position),
                ms == self.markers@,
                n == ms.len(),
                forall|k: int| 0 <= k < e ==> {
                    &&& (#[trigger] at@[k] matches Some(q) ==> first_at(ms, entry_coords(position, k as usize), n) == Some(q as int) && q < n)
                    &&& (at@[k] is None ==> first_at(ms, entry_coords(position, k as usize), n) is None)
                },
            decreases 8 - e,
        {
            let pos = MarkerPosition::from_entry_point_index(position, e);
            let found = self.first_marker_at(pos);
            proof {
                if let Some(q) = found {
                    lemma_first_at_bound(ms, pos.coords, n);
                }
            }
            at.push(found);
            e += 1;
        }
        let paths = tile.paths();
        let mut hit: Vec<bool> = Vec::new();
        let mut p: usize = 0;
        while p < self.markers.len()
            invariant
                p <= self.markers@.len(),
                hit@.len() == p,
                forall|q: int| 0 <= q < p ==> !#[trigger] hit@[q],
            decreases self.markers@.len() - p,
        {
            hit.push(false);
            p += 1;
        }
        let mut k: usize = 0;
        while k < 4
            invariant
                k <= 4,
                hit@.len() == n,
                n == self.markers@.len(),
                at@.len() == 8,
                crate::tile::are_paths_of(paths@, c),
                forall|x: int| 0 <= x < 8 ==> (#[trigger] at@[x] matches Some(q) ==> q < n),
                forall|q: int|
                    0 <= q < n ==> (#[trigger] hit@[q] <==> exists|j: int|
                        0 <= j < k && #[trigger] path_hits(at@, paths@[j], q)),
            decreases 4 - k,
        {
            let (a, b) = paths[k];
            proof {
                assert(paths@[k as int] == (a, b));
            }
            let ghost old_hit = hit@;
            if let Some(pa) = at[a] {
                if let Some(pb) = at[b] {
                    hit.set(pa, true);
                    hit.set(pb, true);
                }
            }
            proof {
                assert forall|q: int|
                    0 <= q < n implies (#[trigger] hit@[q] <==> exists|j: int|
                        0 <= j < k + 1 && #[trigger] path_hits(at@, paths@[j], q)) by {
                    if path_hits(at@, paths@[k as int], q) {
                        let pa = at@[a as int]->0;
                        let pb = at@[b as int]->0;
                        assert(hit@ == old_hit.update(pa as int, true).update(pb as int, true));
                        assert(q == pa || q == pb);
                        assert(hit@[q]);
                    }
                    if exists|j: int| 0 <= j < k && #[trigger] path_hits(at@, paths@[j], q) {
                        let j = choose|j: int| 0 <= j < k && #[trigger] path_hits(at@, paths@[j], q);
                        assert(0 <= j < k + 1 && path_hits(at@, paths@[j], q));
                    }
                }
            }
            k += 1;
        }
        let mut out: Vec<usize> = Vec::new();
        let mut q: usize = 0;
        while q < self.markers.len()
            invariant
                q <= n,
                n == self.markers@.len(),
                hit@.len() == n,
                forall|i: int, j: int| 0 <= i < j < out@.len() ==> out@[i] < out@[j],
                forall|i: int| 0 <= i < out@.len() ==> out@[i] < q,
                forall|x: usize| out@.contains(x) <==> (x < q && hit@[x as int]),
            decreases n - q,
        {
            let ghost before = out@;
            if hit[q] {
                out.push(q);
            }
            proof {
                assert forall|x: usize| out@.contains(x) <==> (x < q + 1 && hit@[x as int]) by {
                    if x == q && hit@[x as int] {
                        assert(out@[before.len() as int] == x);
                    }
                    if out@.contains(x) && x != q {
                        let i = choose|i: int| 0 <= i < out@.len() && out@[i] == x;
                        assert(before[i] == x);
                    }
                    if before.contains(x) {
                        let i = choose|i: int| 0 <= i < before.len() && before[i] == x;
                        assert(out@[i] == x);
                    }
                }
            }
            q += 1;
        }
        proof {
            crate::tile::lemma_paths_cover(paths@, c);
            assert forall|x: usize|
                out@.contains(x) <==> (x < n && collides(ms, tile, position, x as int)) by {
                if x < n {
                    if hit@[x as int] {
                        let j = choose|j: int| 0 <= j < 4 && #[trigger] path_hits(at@, paths@[j], x as int);
                        let (a, b) = paths@[j];
                        assert(c[a as int] == b);
                        assert(c[b as int] == a);
                        if at@[a as int]->0 == x {
                            assert(first_at(ms, entry_coords(position, a), n) == Some(x as int));
                        } else {
                            assert(first_at(ms, entry_coords(position, b), n) == Some(x as int));
                        }
                    }
                    if collides(ms, tile, position, x as int) {
                        let e = choose|e: int|
                            0 <= e < 8 && #[trigger] first_at(ms, entry_coords(position, e as usize), n) == Some(x as int)
                                && first_at(ms, entry_coords(position, tile.connections[e]), n) is Some;
                        assert(crate::tile::covered(paths@, e));
                        let j = choose|j: int| 0 <= j < 4 && (#[trigger] paths@[j].0 == e || paths@[j].1 == e);
                        assert(c[paths@[j].0 as int] == paths@[j].1);
                        assert(c[paths@[j].1 as int] == paths@[j].0);
                        assert(at@[e] == Some(x));
                        assert(path_hits(at@, paths@[j], x as int));
                    }
                }
            }
        }
        out
    }

    /// Whether the path at `pos` goes on through `slot`, the slot being filled.
    fn passes_back(&self, slot: Coord, pos: MarkerPosition) -> (r: bool)
        requires
            valid_lattice(pos.coords),
            valid_tile(slot),
        ensures
            r == passes_back(self.tiles, slot, pos.coords),
    {
        proof {
            lemma_entries_sound(pos.coords);
        }
        if pos.entry_point_index_on(slot).is_none() {
            return false;
        }
        let adjacents = pos.adjacent_tiles();
        if tiles_len(&adjacents) != 2 {
            return false;
        }
        let a = tiles_get(&adjacents, 0);
        let b = tiles_get(&adjacents, 1);
        proof {
            assert(a == entries_of(pos.coords)[0].0);
            assert(b == entries_of(pos.coords)[1].0);
        }
        (self.tile_at(a).is_some() || same_coord(a, slot)) && (self.tile_at(b).is_some() || same_coord(b, slot))
    }

    /// Whether placing `tile` in front of `active_player`'s token eliminates
    /// that player: the token, crossing the tile and the placed tiles beyond,
    /// ends at the edge of the board, or the player collides. The board is
    /// not changed.
    pub fn move_is_suicide(&self, tile: Tile, active_player: usize) -> (r: bool)
        requires
            self.wf(),
            tile.wf(),
            active_player < self.markers@.len(),
            self.markers@[active_player as int] is Some,
        ensures
            r == is_suicide(self.tiles, self.markers@, tile, active_player as int),
    {
        let marker = self.markers[active_player].unwrap();
        let tile_pos = self.next_tile_of_player(active_player);
        let ghost start = marker.position.coords;
        proof {
            assert(marker_wf(self.tiles, marker));
            lemma_entry_on_some(start, tile_pos);
        }
        let mut current_position = marker.position;
        let mut crossings: usize = 0;
        loop
            invariant_except_break
                crossings < MAX_CROSSINGS,
                valid_lattice(current_position.coords),
                entry_on(current_position.coords, tile_pos) is Some,
                cross(self.tiles, tile, tile_pos, start, MAX_CROSSINGS as nat) == cross(
                    self.tiles,
                    tile,
                    tile_pos,
                    current_position.coords,
                    (MAX_CROSSINGS - crossings) as nat,
                ),
            invariant
                grid_wf(self.tiles),
                tile.wf(),
                valid_tile(tile_pos),
            ensures
                cross(self.tiles, tile, tile_pos, start, MAX_CROSSINGS as nat) == current_position.coords,
            decreases MAX_CROSSINGS - crossings,
        {
            let entry_point = current_position.entry_point_index_on(tile_pos).unwrap();
            proof {
                lemma_entries_sound(current_position.coords);
                assert(entry_point < 8);
                assert(tile.connections@[entry_point as int] < 8);
            }
            let exit_point = tile.connections[entry_point];
            let ghost fuel = (MAX_CROSSINGS - crossings) as nat;
            current_position = self.find_path_endpoint(tile_pos, exit_point);
            crossings += 1;
            if crossings >= MAX_CROSSINGS || !self.passes_back(tile_pos, current_position) {
                break;
            }
        }
        let end = current_position;
        let colliders = self.find_collisions(tile, tile_pos);
        let mut collides_self = false;
        let mut i: usize = 0;
        while i < colliders.len()
            invariant
                i <= colliders@.len(),
                collides_self == exists|j: int| 0 <= j < i && colliders@[j] == active_player,
            decreases colliders@.len() - i,
        {
            if colliders[i] == active_player {
                collides_self = true;
            }
            i += 1;
        }
        proof {
            assert(collides_self == colliders@.contains(active_player));
            assert(collides_self == collides(self.markers@, tile, tile_pos, active_player as int));
            assert(end.coords == cross(self.tiles, tile, tile_pos, start, MAX_CROSSINGS as nat));
        }
        end.is_edge() || collides_self
    }


    /// Places `tile` in the slot that `player`'s token enters next, which
    /// must be empty, and updates the graph.
    pub fn place_tile(&mut self, tile: Tile, player: usize)
        requires
            old(self).wf(),
            tile.wf(),
            player < old(self).markers@.len(),
            old(self).markers@[player as int] is Some,
            tile_at(old(self).tiles, next_tile_of(old(self).markers@[player as int]->0)) is None,
        ensures
            final(self).wf(),
            final(self).markers == old(self).markers,
            ({
                let slot = next_tile_of(old(self).markers@[player as int]->0);
                &&& forall|t: Coord|
                    valid_tile(t) ==> #[trigger] tile_at(final(self).tiles, t) == if t == slot {
                        Some(tile)
                    } else {
                        tile_at(old(self).tiles, t)
                    }
                &&& (final(self).graph.vertices@, final(self).graph.adj()) == placed(
                    (old(self).graph.vertices@, old(self).graph.adj()),
                    slot,
                    tile,
                )
            }),
    {
        let (x, y) = self.next_tile_of_player(player);
        self.graph.place_tile(tile, (x, y));
        let mut row = self.tiles[x];
        row[y] = Some(tile);
        self.tiles[x] = row;
        proof {
            assert forall|t: Coord| valid_tile(t) implies #[trigger] tile_at(self.tiles, t) == if t == (x, y) {
                Some(tile)
            } else {
                tile_at(old(self).tiles, t)
            } by {}
            assert forall|t: Coord| valid_tile(t) && #[trigger] tile_at(self.tiles, t) is Some implies tile_at(
                self.tiles,
                t,
            )->0.wf() by {
                if t != (x, y) {
                    assert(tile_at(old(self).tiles, t) is Some);
                }
            }
            let ms = self.markers@;
            assert forall|p: int| 0 <= p < ms.len() && #[trigger] ms[p] is Some implies marker_wf(
                self.tiles,
                ms[p]->0,
            ) by {
                assert(marker_wf(old(self).tiles, ms[p]->0));
                if let Some(q) = ms[p]->0.previous_tile {
                    assert(tile_at(old(self).tiles, q) is Some);
                    assert(tile_at(self.tiles, q) is Some);
                }
            }
        }
    }


    /// Where each player's token stands; `None` for eliminated players.
    pub fn markers(&self) -> (r: Vec<Option<MarkerPosition>>)
        ensures
            r@.len() == self.markers@.len(),
            forall|p: int|
                0 <= p < r@.len() ==> #[trigger] r@[p] == match self.markers@[p] {
                    Some(m) => Some(m.position),
                    None => None,
                },
    {
        let mut out: Vec<Option<MarkerPosition>> = Vec::new();
        let mut p: usize = 0;
        while p < self.markers.len()
            invariant
                p <= self.markers@.len(),
                out@.len() == p,
                forall|q: int|
                    0 <= q < p ==> #[trigger] out@[q] == match self.markers@[q] {
                        Some(m) => Some(m.position),
                        None => None,
                    },
            decreases self.markers@.len() - p,
        {
            out.push(
                match self.markers[p] {
                    Some(m) => Some(m.position),
                    None => None,
                },
            );
            p += 1;
        }
        out
    }


    /// An independent copy of the board.
    pub fn duplicate(&self) -> (r: Board)
        ensures
            r.markers@ == self.markers@,
            r.tiles == self.tiles,
            r.graph.vertices@ == self.graph.vertices@,
            r.graph.adj() == self.graph.adj(),
            self.wf() ==> r.wf(),
    {
        let mut markers: Vec<Option<Marker>> = Vec::new();
        let mut p: usize = 0;
        while p < self.markers.len()
            invariant
                p <= self.markers@.len(),
                markers@ == self.markers@.take(p as int),
            decreases self.markers@.len() - p,
        {
            markers.push(self.markers[p]);
            p += 1;
            proof {
                assert(markers@ =~= self.markers@.take(p as int));
            }
        }
        proof {
            assert(self.markers@.take(self.markers@.len() as int) =~= self.markers@);
        }
        Board { markers, tiles: self.tiles, graph: self.graph.duplicate() }
    }

}

} // verus!
