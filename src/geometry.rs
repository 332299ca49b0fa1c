//! Positions on the board: a point of the 19x19 lattice that subdivides each
//! of the 6x6 tiles into 3x3 cells, or equivalently a tile and one of its
//! eight entry points.
use vstd::prelude::*;

use arrayvec::ArrayVec;

use crate::arrayvec_specs::{
    entries_get, entries_len, entries_new, entries_push, entry_items, tile_items, tiles_new,
    tiles_push,
};

verus! {

/// A pair of coordinates: a tile of the 6x6 grid, or a point of the lattice.
pub type Coord = (usize, usize);

/// A point of the 19x19 lattice where a token may stand.
#[derive(Debug, Clone, Copy, Eq, Hash)]
pub struct MarkerPosition {
    pub coords: Coord,
}

impl PartialEq for MarkerPosition {
    fn eq(&self, other: &MarkerPosition) -> (r: bool) {
        self.coords.0 == other.coords.0 && self.coords.1 == other.coords.1
    }
}

impl vstd::std_specs::cmp::PartialEqSpecImpl for MarkerPosition {
    open spec fn obeys_eq_spec() -> bool {
        true
    }

    open spec fn eq_spec(&self, other: &MarkerPosition) -> bool {
        self.coords == other.coords
    }
}

/// Whether two coordinate pairs are equal.
pub fn same_coord(a: Coord, b: Coord) -> (r: bool)
    ensures
        r == (a == b),
{
    a.0 == b.0 && a.1 == b.1
}

/// A tile of the 6x6 grid.
pub open spec fn valid_tile(t: Coord) -> bool {
    t.0 < 6 && t.1 < 6
}

/// A lattice point that lies on a tile side but is not a tile corner.
pub open spec fn valid_lattice(c: Coord) -> bool {
    c.0 <= 18 && c.1 <= 18 && ((c.0 % 3 == 0) != (c.1 % 3 == 0))
}

/// A lattice point on the outer border of the board.
pub open spec fn on_edge(c: Coord) -> bool {
    c.0 == 0 || c.0 == 18 || c.1 == 0 || c.1 == 18
}

/// Offset along x of an entry point from its tile's lower corner.
pub open spec fn entry_dx(e: usize) -> usize {
    if e == 6 || e == 7 {
        0
    } else if e == 0 || e == 5 {
        1
    } else if e == 1 || e == 4 {
        2
    } else {
        3
    }
}

/// Offset along y of an entry point from its tile's lower corner.
pub open spec fn entry_dy(e: usize) -> usize {
    if e == 4 || e == 5 {
        0
    } else if e == 3 || e == 6 {
        1
    } else if e == 2 || e == 7 {
        2
    } else {
        3
    }
}

/// The lattice point of entry point `e` of tile `t`.
pub open spec fn entry_coords(t: Coord, e: usize) -> Coord {
    ((3 * t.0 + entry_dx(e)) as usize, (3 * t.1 + entry_dy(e)) as usize)
}

/// The entry point that faces `e` across the side that `e` lies on, for the
/// entry points on the lower sides (4, 5, 6, 7).
pub open spec fn opposite_entry(e: usize) -> usize {
    if e == 5 {
        0
    } else if e == 4 {
        1
    } else if e == 7 {
        2
    } else {
        3
    }
}

/// The tile/entry pairs that name lattice point `c`: one on the border, two
/// inside the board, the tile with the larger coordinate first.
pub open spec fn entries_of(c: Coord) -> Seq<(Coord, usize)> {
    let x = c.0;
    let y = c.1;
    if x == 18 {
        seq![((5usize, (y / 3) as usize), if y % 3 == 1 { 3usize } else { 2usize })]
    } else if y == 18 {
        seq![(((x / 3) as usize, 5usize), if x % 3 == 1 { 0usize } else { 1usize })]
    } else if x % 3 == 0 {
        let e: usize = if y % 3 == 1 { 6 } else { 7 };
        if x == 0 {
            seq![(((x / 3) as usize, (y / 3) as usize), e)]
        } else {
            seq![
                (((x / 3) as usize, (y / 3) as usize), e),
                (((x / 3 - 1) as usize, (y / 3) as usize), opposite_entry(e)),
            ]
        }
    } else {
        let e: usize = if x % 3 == 1 { 5 } else { 4 };
        if y == 0 {
            seq![(((x / 3) as usize, (y / 3) as usize), e)]
        } else {
            seq![
                (((x / 3) as usize, (y / 3) as usize), e),
                (((x / 3) as usize, (y / 3 - 1) as usize), opposite_entry(e)),
            ]
        }
    }
}

/// The tiles that lattice point `c` lies on, in the order of `entries_of`.
pub open spec fn tiles_of(c: Coord) -> Seq<Coord> {
    entries_of(c).map_values(|p: (Coord, usize)| p.0)
}

/// The entry point by which lattice point `c` lies on tile `t`, if it does.
pub open spec fn entry_on(c: Coord, t: Coord) -> Option<usize> {
    let es = entries_of(c);
    if es[0].0 == t {
        Some(es[0].1)
    } else if es.len() == 2 && es[1].0 == t {
        Some(es[1].1)
    } else {
        None
    }
}

/// The `k`-th lattice coordinate in 0..18 that is not a multiple of 3.
pub open spec fn side_offset(k: int) -> int {
    3 * (k / 2) + k % 2 + 1
}

/// Node id of a lattice point: points on vertical tile sides come first,
/// by column then row; points on horizontal sides follow, by row then column.
pub open spec fn node_id_of(c: Coord) -> int {
    if c.0 % 3 == 0 {
        (c.0 / 3) * 12 + (c.1 - 1 - c.1 / 3)
    } else {
        84 + (c.1 / 3) * 12 + (c.0 - 1 - c.0 / 3)
    }
}

/// The lattice point whose node id is `id`.
pub open spec fn node_coords(id: int) -> Coord {
    if id < 84 {
        ((3 * (id / 12)) as usize, side_offset(id % 12) as usize)
    } else {
        (side_offset((id - 84) % 12) as usize, (3 * ((id - 84) / 12)) as usize)
    }
}

/// The lattice point of border index `i`, counted anticlockwise from the
/// bottom left corner: bottom side, right side, top side, left side.
pub open spec fn border_coords(i: int) -> Coord {
    if i < 12 {
        (side_offset(i) as usize, 18usize)
    } else if i < 24 {
        (18usize, (18 - side_offset(i - 12)) as usize)
    } else if i < 36 {
        ((18 - side_offset(i - 24)) as usize, 0usize)
    } else {
        (0usize, side_offset(i - 36) as usize)
    }
}

pub proof fn lemma_side_offset(k: int)
    requires
        0 <= k < 12,
    ensures
        1 <= side_offset(k) <= 17,
        side_offset(k) % 3 != 0,
        side_offset(k) / 3 == k / 2,
        side_offset(k) - 1 - side_offset(k) / 3 == k,
{
}

/// Every lattice coordinate that is not a multiple of 3 is a side offset.
pub proof fn lemma_side_offset_onto(v: int)
    requires
        0 <= v <= 18,
        v % 3 != 0,
    ensures
        0 <= v - 1 - v / 3 < 12,
        side_offset(v - 1 - v / 3) == v,
{
}

/// Each pair that names a lattice point lies on a tile of the board, is an
/// entry point of it, and is placed back on that very point; a border point
/// has one pair, an inner one two, on different tiles.
pub proof fn lemma_entries_sound(c: Coord)
    requires
        valid_lattice(c),
    ensures
        entries_of(c).len() == if on_edge(c) { 1int } else { 2int },
        forall|i: int|
            0 <= i < entries_of(c).len() ==> {
                let p = #[trigger] entries_of(c)[i];
                valid_tile(p.0) && p.1 < 8 && entry_coords(p.0, p.1) == c
            },
        entries_of(c).len() == 2 ==> entries_of(c)[0].0 != entries_of(c)[1].0,
{
}

/// Every entry point of every tile is among the pairs of its lattice point,
/// which is a valid one.
pub proof fn lemma_entries_complete(t: Coord, e: usize)
    requires
        valid_tile(t),
        e < 8,
    ensures
        valid_lattice(entry_coords(t, e)),
        entries_of(entry_coords(t, e)).contains((t, e)),
{
    let c = entry_coords(t, e);
    let es = entries_of(c);
    if es[0] == (t, e) {
        assert(es[0] == (t, e));
    } else {
        assert(es[1] == (t, e));
    }
}

/// Going from a tile and entry point to its lattice point and back by
/// `entry_on` gives the entry point again.
pub proof fn lemma_entry_on_round_trip(t: Coord, e: usize)
    requires
        valid_tile(t),
        e < 8,
    ensures
        entry_on(entry_coords(t, e), t) == Some(e),
{
    lemma_entries_complete(t, e);
    lemma_entries_sound(entry_coords(t, e));
}

/// The node id is a bijection between the valid lattice points and 0..168.
pub proof fn lemma_node_id(c: Coord)
    requires
        valid_lattice(c),
    ensures
        0 <= node_id_of(c) < 168,
        node_coords(node_id_of(c)) == c,
{
    if c.0 % 3 == 0 {
        lemma_side_offset_onto(c.1 as int);
    } else {
        lemma_side_offset_onto(c.0 as int);
    }
}

/// Every id in 0..168 is the node id of a valid lattice point.
pub proof fn lemma_node_coords(id: int)
    requires
        0 <= id < 168,
    ensures
        valid_lattice(node_coords(id)),
        node_id_of(node_coords(id)) == id,
{
    if id < 84 {
        lemma_side_offset(id % 12);
    } else {
        lemma_side_offset((id - 84) % 12);
    }
}

/// Two valid lattice points with the same node id are the same point.
pub proof fn lemma_node_id_injective(a: Coord, b: Coord)
    requires
        valid_lattice(a),
        valid_lattice(b),
        node_id_of(a) == node_id_of(b),
    ensures
        a == b,
{
    lemma_node_id(a);
    lemma_node_id(b);
}

/// Border indices name the 48 border points of the lattice.
pub proof fn lemma_border_coords(i: int)
    requires
        0 <= i < 48,
    ensures
        valid_lattice(border_coords(i)),
        on_edge(border_coords(i)),
{
    if i < 12 {
        lemma_side_offset(i);
    } else if i < 24 {
        lemma_side_offset(i - 12);
    } else if i < 36 {
        lemma_side_offset(i - 24);
    } else {
        lemma_side_offset(i - 36);
    }
}

fn side_offset_exec(k: usize) -> (r: usize)
    requires
        k < 12,
    ensures
        r == side_offset(k as int),
        1 <= r <= 17,
{
    3 * (k / 2) + k % 2 + 1
}

impl MarkerPosition {
    /// The border point with index `idx`, counted anticlockwise from the
    /// bottom left corner.
    pub fn from_index(idx: usize) -> (r: MarkerPosition)
        requires
            idx < 48,
        ensures
            r.coords == border_coords(idx as int),
    {
        let coords = if idx < 12 {
            (side_offset_exec(idx), 18)
        } else if idx < 24 {
            (18, 18 - side_offset_exec(idx - 12))
        } else if idx < 36 {
            (18 - side_offset_exec(idx - 24), 0)
        } else {
            (0, side_offset_exec(idx - 36))
        };
        MarkerPosition { coords }
    }

    /// The lattice point of entry point `entry_point` of tile `position`.
    pub fn from_entry_point_index(position: Coord, entry_point: usize) -> (r: MarkerPosition)
        requires
            valid_tile(position),
            entry_point < 8,
        ensures
            r.coords == entry_coords(position, entry_point),
    {
        let (x, y) = position;
        let dx: usize = if entry_point == 6 || entry_point == 7 {
            0
        } else if entry_point == 0 || entry_point == 5 {
            1
        } else if entry_point == 1 || entry_point == 4 {
            2
        } else {
            3
        };
        let dy: usize = if entry_point == 4 || entry_point == 5 {
            0
        } else if entry_point == 3 || entry_point == 6 {
            1
        } else if entry_point == 2 || entry_point == 7 {
            2
        } else {
            3
        };
        MarkerPosition { coords: (x * 3 + dx, y * 3 + dy) }
    }

    pub fn from_lattice_coordinates(position: Coord) -> (r: MarkerPosition)
        ensures
            r.coords == position,
    {
        MarkerPosition { coords: position }
    }

    /// The tiles this point lies on, each with the entry point by which it
    /// does: one pair on the border, two inside the board.
    pub fn entry_point_indices(&self) -> (r: ArrayVec<(Coord, usize), 2>)
        requires
            valid_lattice(self.coords),
        ensures
            entry_items(r) == entries_of(self.coords),
    {
        let (x, y) = self.coords;
        let mut out = entries_new();
        if x == 18 {
            let e: usize = if y % 3 == 1 { 3 } else { 2 };
            entries_push(&mut out, ((5, y / 3), e));
        } else if y == 18 {
            let e: usize = if x % 3 == 1 { 0 } else { 1 };
            entries_push(&mut out, ((x / 3, 5), e));
        } else if x % 3 == 0 {
            let e: usize = if y % 3 == 1 { 6 } else { 7 };
            entries_push(&mut out, ((x / 3, y / 3), e));
            if x != 0 {
                let o: usize = if e == 6 { 3 } else { 2 };
                entries_push(&mut out, ((x / 3 - 1, y / 3), o));
            }
        } else {
            let e: usize = if x % 3 == 1 { 5 } else { 4 };
            entries_push(&mut out, ((x / 3, y / 3), e));
            if y != 0 {
                let o: usize = if e == 5 { 0 } else { 1 };
                entries_push(&mut out, ((x / 3, y / 3 - 1), o));
            }
        }
        proof {
            assert(entry_items(out) =~= entries_of(self.coords));
        }
        out
    }

    /// The entry point by which this point lies on tile `pos`, or `None`
    /// where it does not lie on that tile.
    pub fn entry_point_index_on(&self, pos: Coord) -> (r: Option<usize>)
        requires
            valid_lattice(self.coords),
        ensures
            r == entry_on(self.coords, pos),
            r matches Some(e) ==> entries_of(self.coords).contains((pos, e)),
            r is None ==> forall|e: usize| !entries_of(self.coords).contains((pos, e)),
    {
        proof {
            lemma_entries_sound(self.coords);
        }
        let entries = self.entry_point_indices();
        let n = entries_len(&entries);
        let first = entries_get(&entries, 0);
        if same_coord(first.0, pos) {
            proof {
                assert(entries_of(self.coords)[0] == (pos, first.1));
            }
            return Some(first.1);
        }
        if n == 2 {
            let second = entries_get(&entries, 1);
            if same_coord(second.0, pos) {
                proof {
                    assert(entries_of(self.coords)[1] == (pos, second.1));
                }
                return Some(second.1);
            }
        }
        None
    }

    /// The tiles this point lies on: one on the border, two inside.
    pub fn adjacent_tiles(&self) -> (r: ArrayVec<Coord, 2>)
        requires
            valid_lattice(self.coords),
        ensures
            tile_items(r) == tiles_of(self.coords),
    {
        proof {
            lemma_entries_sound(self.coords);
        }
        let entries = self.entry_point_indices();
        let n = entries_len(&entries);
        let mut out = tiles_new();
        let mut i: usize = 0;
        while i < n
            invariant
                n == entries_of(self.coords).len(),
                entry_items(entries) == entries_of(self.coords),
                n <= 2,
                i <= n,
                tile_items(out) == tiles_of(self.coords).take(i as int),
            decreases n - i,
        {
            let p = entries_get(&entries, i);
            tiles_push(&mut out, p.0);
            i += 1;
            proof {
                assert(tile_items(out) =~= tiles_of(self.coords).take(i as int));
            }
        }
        proof {
            assert(tiles_of(self.coords).take(n as int) =~= tiles_of(self.coords));
        }
        out
    }

    /// Whether this point lies on the outer border of the board.
    pub fn is_edge(&self) -> (r: bool)
        ensures
            r == on_edge(self.coords),
    {
        self.coords.0 == 0 || self.coords.0 == 18 || self.coords.1 == 0 || self.coords.1 == 18
    }

    /// The id of this point's node in the board graph.
    pub fn node_id(&self) -> (r: usize)
        requires
            valid_lattice(self.coords),
        ensures
            r == node_id_of(self.coords),
            r < 168,
    {
        proof {
            lemma_node_id(self.coords);
        }
        let (x, y) = self.coords;
        if x % 3 == 0 {
            (x / 3) * 12 + (y - 1 - y / 3)
        } else {
            84 + (y / 3) * 12 + (x - 1 - x / 3)
        }
    }
}

impl Default for MarkerPosition {
    /// A point off the board, for slots not yet filled.
    fn default() -> (r: MarkerPosition)
        ensures
            r.coords == (usize::MAX, usize::MAX),
    {
        MarkerPosition { coords: (usize::MAX, usize::MAX) }
    }
}

} // verus!
