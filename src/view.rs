//! What a player sees before placing a tile, and the boards that each of
//! the player's possible placements would lead to.
use vstd::prelude::*;
use vstd::view::View as _;

use crate::board::{
    is_suicide, leaves_board, moved, next_tile_of, tile_at, Board,
};
use crate::geometry::{valid_tile, Coord};
use crate::graph::placed;
use crate::tile::{lemma_rotation_pairing, lemma_tile_ext, lex_less, rotation_of, Tile};

use itertools::Itertools;

verus! {

/// The board, the tiles in the active player's hand, and who is to play.
#[derive(Debug, Clone, PartialEq)]
pub struct View {
    pub board: Board,
    pub hand: Vec<Tile>,
    pub active_player: usize,
}

/// `t` is one of the tiles of `hand` turned by 0 to 3 quarter turns.
pub open spec fn is_hand_rotation(hand: Seq<Tile>, t: Tile) -> bool {
    exists|h: int, n: int| 0 <= h < hand.len() && 0 <= n < 4 && t.connections@ == rotation_of(hand[h].connections@, n)
}

/// `r` holds `t` turned by `n` quarter turns.
pub open spec fn has_rotation(r: Seq<Tile>, t: Tile, n: int) -> bool {
    exists|k: int| 0 <= k < r.len() && (#[trigger] r[k]).connections@ == rotation_of(t.connections@, n)
}

/// `q` is among the first `n` items of `s`.
pub open spec fn among(s: Seq<usize>, n: int, q: int) -> bool {
    exists|k: int| 0 <= k < n && s[k] == q
}

/// `r` holds the connections of `t` turned by `n` quarter turns.
pub open spec fn has_rotation_conn(r: Seq<[usize; 8]>, t: Tile, n: int) -> bool {
    exists|k: int| 0 <= k < r.len() && (#[trigger] r[k])@ == rotation_of(t.connections@, n)
}

/// `after` is `before` once `tile` is placed in front of player `p`'s token,
/// the tokens have moved, and the players whose token left the board are
/// eliminated.
pub open spec fn is_afterstate(before: Board, tile: Tile, p: int, after: Board) -> bool {
    let slot = next_tile_of(before.markers@[p]->0);
    let ms = before.markers@;
    &&& forall|t: Coord| valid_tile(t) ==> #[trigger] tile_at(after.tiles, t) == if t == slot {
        Some(tile)
    } else {
        tile_at(before.tiles, t)
    }
    &&& (after.graph.vertices@, after.graph.adj()) == placed(
        (before.graph.vertices@, before.graph.adj()),
        slot,
        tile,
    )
    &&& after.markers@.len() == ms.len()
    &&& forall|q: int|
        0 <= q < ms.len() ==> #[trigger] after.markers@[q] == if leaves_board(ms, after.tiles, q) {
            None
        } else {
            match ms[q] {
                None => None,
                Some(m) => Some(moved(after.tiles, m)),
            }
        }
}

/// Every turning of every tile of the hand would eliminate player `p`.
pub open spec fn every_move_is_suicide(b: Board, hand: Seq<Tile>, p: int) -> bool {
    forall|t: Tile| #[trigger] is_hand_rotation(hand, t) ==> is_suicide(b.tiles, b.markers@, t, p)
}

/// A placement the active player may make: a turning of a tile of the
/// hand that does not eliminate the player, or any where every one would.
pub open spec fn is_allowed(b: Board, hand: Seq<Tile>, p: int, t: Tile) -> bool {
    is_hand_rotation(hand, t) && (!is_suicide(b.tiles, b.markers@, t, p) || every_move_is_suicide(b, hand, p))
}

impl View {
    /// A view as play leaves it: a proper board and hand, and the active
    /// player's token in front of an empty slot.
    pub open spec fn wf(&self) -> bool {
        &&& self.board.wf()
        &&& self.active_player < self.board.markers@.len()
        &&& self.board.markers@[self.active_player as int] is Some
        &&& tile_at(self.board.tiles, next_tile_of(self.board.markers@[self.active_player as int]->0)) is None
        &&& forall|h: int| 0 <= h < self.hand@.len() ==> #[trigger] self.hand@[h].wf()
    }

    /// Every tile of the hand in each of its four turnings, each once, in
    /// increasing order.
    pub fn all_rotated_tiles(&self) -> (r: Vec<Tile>)
        requires
            forall|h: int| 0 <= h < self.hand@.len() ==> #[trigger] self.hand@[h].wf(),
        ensures
            forall|i: int, j: int| 0 <= i < j < r@.len() ==> lex_less(#[trigger] r@[i].connections@, #[trigger] r@[j].connections@),
            forall|k: int| 0 <= k < r@.len() ==> #[trigger] is_hand_rotation(self.hand@, r@[k]),
            forall|k: int| 0 <= k < r@.len() ==> #[trigger] r@[k].wf(),
            forall|h: int, n: int|
                0 <= h < self.hand@.len() && 0 <= n < 4 ==> #[trigger] has_rotation(r@, self.hand@[h], n),
    {
        let mut conns: Vec<[usize; 8]> = Vec::new();
        let mut h: usize = 0;
        while h < self.hand.len()
            invariant
                h <= self.hand@.len(),
                forall|x: int| 0 <= x < self.hand@.len() ==> #[trigger] self.hand@[x].wf(),
                forall|k: int| 0 <= k < conns@.len() ==> #[trigger] is_hand_rotation(self.hand@, Tile { connections: conns@[k] }),
                forall|x: int, n: int|
                    0 <= x < h && 0 <= n < 4 ==> #[trigger] has_rotation_conn(conns@, self.hand@[x], n),
            decreases self.hand@.len() - h,
        {
            let mut rot: usize = 0;
            while rot < 4
                invariant
                    h < self.hand@.len(),
                    rot <= 4,
                    forall|x: int| 0 <= x < self.hand@.len() ==> #[trigger] self.hand@[x].wf(),
                    forall|k: int| 0 <= k < conns@.len() ==> #[trigger] is_hand_rotation(self.hand@, Tile { connections: conns@[k] }),
                    forall|x: int, n: int|
                        0 <= x < h && 0 <= n < 4 ==> #[trigger] has_rotation_conn(conns@, self.hand@[x], n),
                    forall|n: int| 0 <= n < rot ==> #[trigger] has_rotation_conn(conns@, self.hand@[h as int], n),
                decreases 4 - rot,
            {
                let tile = self.hand[h].rotated(rot);
                let ghost before = conns@;
                conns.push(tile.connections);
                proof {
                    assert(conns@[before.len() as int] == tile.connections);
                    assert(is_hand_rotation(self.hand@, Tile { connections: tile.connections }));
                    assert forall|k: int| 0 <= k < conns@.len() implies #[trigger] is_hand_rotation(
                        self.hand@,
                        Tile { connections: conns@[k] },
                    ) by {
                        if k < before.len() {
                            assert(conns@[k] == before[k]);
                        }
                    }
                    assert forall|x: int, n: int|
                        0 <= x < h && 0 <= n < 4 implies #[trigger] has_rotation_conn(conns@, self.hand@[x], n) by {
                        assert(has_rotation_conn(before, self.hand@[x], n));
                        let k = choose|k: int|
                            0 <= k < before.len() && (#[trigger] before[k])@ == rotation_of(self.hand@[x].connections@, n);
                        assert(conns@[k] == before[k]);
                    }
                    assert forall|n: int| 0 <= n < rot + 1 implies #[trigger] has_rotation_conn(conns@, self.hand@[h as int], n) by {
                        if n == rot {
                            assert(conns@[before.len() as int]@ == rotation_of(self.hand@[h as int].connections@, n));
                        } else {
                            assert(has_rotation_conn(before, self.hand@[h as int], n));
                            let k = choose|k: int|
                                0 <= k < before.len() && (#[trigger] before[k])@ == rotation_of(
                                    self.hand@[h as int].connections@,
                                    n,
                                );
                            assert(conns@[k] == before[k]);
                        }
                    }
                }
                rot += 1;
            }
            h += 1;
        }
        let sorted = sorted_distinct(conns);
        let ghost all = conns@;
        let mut out: Vec<Tile> = Vec::new();
        let mut k: usize = 0;
        while k < sorted.len()
            invariant
                k <= sorted@.len(),
                out@.len() == k,
                forall|i: int| 0 <= i < k ==> (#[trigger] out@[i]).connections == sorted@[i],
            decreases sorted@.len() - k,
        {
            out.push(Tile { connections: sorted[k] });
            k += 1;
        }
        proof {
            assert forall|i: int, j: int| 0 <= i < j < out@.len() implies lex_less(
                #[trigger] out@[i].connections@,
                #[trigger] out@[j].connections@,
            ) by {
                assert(lex_less(sorted@[i]@, sorted@[j]@));
            }
            assert forall|i: int| 0 <= i < out@.len() implies #[trigger] is_hand_rotation(self.hand@, out@[i]) && out@[i].wf() by {
                assert(sorted@.contains(sorted@[i]));
                let x = choose|x: int| 0 <= x < all.len() && all[x] == sorted@[i];
                assert(is_hand_rotation(self.hand@, Tile { connections: all[x] }));
                let (h, n) = choose|h: int, n: int|
                    0 <= h < self.hand@.len() && 0 <= n < 4 && out@[i].connections@ == rotation_of(
                        self.hand@[h].connections@,
                        n,
                    );
                assert(self.hand@[h].wf());
                lemma_rotation_pairing(self.hand@[h].connections@, n);
            }
            assert forall|i: int| 0 <= i < out@.len() implies #[trigger] out@[i].wf() by {
                assert(is_hand_rotation(self.hand@, out@[i]) && out@[i].wf());
            }
            assert forall|h: int, n: int|
                0 <= h < self.hand@.len() && 0 <= n < 4 implies #[trigger] has_rotation(out@, self.hand@[h], n) by {
                assert(has_rotation_conn(all, self.hand@[h], n));
                let x = choose|x: int| 0 <= x < all.len() && (#[trigger] all[x])@ == rotation_of(self.hand@[h].connections@, n);
                assert(all.contains(all[x]));
                assert(sorted@.contains(all[x]));
                let i = choose|i: int| 0 <= i < sorted@.len() && sorted@[i] == all[x];
                assert(out@[i].connections@ == rotation_of(self.hand@[h].connections@, n));
            }
        }
        out
    }

    /// For each placement the active player may make, the tile and the
    /// board it leads to.
    #[verifier::rlimit(100)]
    pub fn afterstates(&self) -> (r: Vec<(Tile, Board)>)
        requires
            self.wf(),
        ensures
            forall|k: int|
                0 <= k < r@.len() ==> #[trigger] is_allowed(self.board, self.hand@, self.active_player as int, r@[k].0)
                    && is_afterstate(self.board, r@[k].0, self.active_player as int, r@[k].1),
            forall|t: Tile|
                #[trigger] is_allowed(self.board, self.hand@, self.active_player as int, t) ==> exists|k: int|
                    0 <= k < r@.len() && (#[trigger] r@[k]).0 == t,
            forall|i: int, j: int|
                0 <= i < j < r@.len() ==> lex_less((#[trigger] r@[i]).0.connections@, (#[trigger] r@[j]).0.connections@),
    {
        let p = self.active_player;
        let ghost b0 = self.board;
        let ghost hand = self.hand@;
        let tiles = self.all_rotated_tiles();
        let mut flags: Vec<bool> = Vec::new();
        let mut all_suicide = true;
        let mut i: usize = 0;
        while i < tiles.len()
            invariant
                self.wf(),
                b0 == self.board,
                p == self.active_player,
                i <= tiles@.len(),
                flags@.len() == i,
                forall|k: int| 0 <= k < tiles@.len() ==> #[trigger] tiles@[k].wf(),
                forall|k: int| 0 <= k < i ==> #[trigger] flags@[k] == is_suicide(b0.tiles, b0.markers@, tiles@[k], p as int),
                all_suicide == forall|k: int| 0 <= k < i ==> #[trigger] flags@[k],
            decreases tiles@.len() - i,
        {
            let s = self.board.move_is_suicide(tiles[i], p);
            let ghost old_flags = flags@;
            let ghost old_all = all_suicide;
            flags.push(s);
            if !s {
                all_suicide = false;
            }
            proof {
                assert(flags@[i as int] == s);
                assert(forall|k: int| 0 <= k < i ==> flags@[k] == old_flags[k]);
                if !s {
                    assert(!flags@[i as int]);
                } else if old_all {
                    assert forall|k: int| 0 <= k < i + 1 implies #[trigger] flags@[k] by {
                        if k < i {
                            assert(old_flags[k]);
                        }
                    }
                } else {
                    let k = choose|k: int| 0 <= k < i && !#[trigger] old_flags[k];
                    assert(!flags@[k]);
                }
            }
            i += 1;
        }
        proof {
            assert forall|t: Tile| #[trigger] is_hand_rotation(hand, t) implies exists|k: int|
                0 <= k < tiles@.len() && tiles@[k] == t by {
                let (h, n) = choose|h: int, n: int|
                    0 <= h < hand.len() && 0 <= n < 4 && t.connections@ == rotation_of(hand[h].connections@, n);
                assert(has_rotation(tiles@, hand[h], n));
                let k = choose|k: int|
                    0 <= k < tiles@.len() && (#[trigger] tiles@[k]).connections@ == rotation_of(hand[h].connections@, n);
                lemma_tile_ext(tiles@[k], t);
            }
            if all_suicide {
                assert forall|t: Tile| #[trigger] is_hand_rotation(hand, t) implies is_suicide(
                    b0.tiles,
                    b0.markers@,
                    t,
                    p as int,
                ) by {
                    let k = choose|k: int| 0 <= k < tiles@.len() && tiles@[k] == t;
                    assert(flags@[k]);
                }
            } else {
                let k = choose|k: int| 0 <= k < tiles@.len() && !#[trigger] flags@[k];
                assert(is_hand_rotation(hand, tiles@[k]));
            }
            assert(all_suicide == every_move_is_suicide(b0, hand, p as int));
        }
        let mut out: Vec<(Tile, Board)> = Vec::new();
        let mut j: usize = 0;
        while j < tiles.len()
            invariant
                self.wf(),
                b0 == self.board,
                hand == self.hand@,
                p == self.active_player,
                j <= tiles@.len(),
                flags@.len() == tiles@.len(),
                forall|k: int| 0 <= k < tiles@.len() ==> #[trigger] tiles@[k].wf(),
                forall|k: int| 0 <= k < tiles@.len() ==> #[trigger] is_hand_rotation(hand, tiles@[k]),
                forall|k: int| 0 <= k < tiles@.len() ==> #[trigger] flags@[k] == is_suicide(b0.tiles, b0.markers@, tiles@[k], p as int),
                all_suicide == every_move_is_suicide(b0, hand, p as int),
                forall|k: int|
                    0 <= k < out@.len() ==> #[trigger] is_allowed(b0, hand, p as int, out@[k].0)
                        && is_afterstate(b0, out@[k].0, p as int, out@[k].1),
                forall|k: int|
                    0 <= k < j && #[trigger] is_allowed(b0, hand, p as int, tiles@[k]) ==> exists|x: int|
                        0 <= x < out@.len() && out@[x].0 == tiles@[k],
                forall|x: int, y: int|
                    0 <= x < y < tiles@.len() ==> lex_less(#[trigger] tiles@[x].connections@, #[trigger] tiles@[y].connections@),
                forall|x: int| 0 <= x < out@.len() ==> exists|m: int| 0 <= m < j && (#[trigger] out@[x]).0 == tiles@[m],
                forall|x: int, y: int|
                    0 <= x < y < out@.len() ==> lex_less((#[trigger] out@[x]).0.connections@, (#[trigger] out@[y]).0.connections@),
            decreases tiles@.len() - j,
        {
            let tile = tiles[j];
            let ghost before = out@;
            if !flags[j] || all_suicide {
                let board = self.after_placing(tile);
                out.push((tile, board));
                proof {
                    assert(out@[before.len() as int].0 == tiles@[j as int]);
                    assert forall|k: int|
                        0 <= k < j + 1 && #[trigger] is_allowed(b0, hand, p as int, tiles@[k]) implies exists|x: int|
                            0 <= x < out@.len() && out@[x].0 == tiles@[k] by {
                        if k < j {
                            let x = choose|x: int| 0 <= x < before.len() && before[x].0 == tiles@[k];
                            assert(out@[x] == before[x]);
                        } else {
                            assert(out@[before.len() as int].0 == tiles@[k]);
                        }
                    }
                    assert forall|x: int| 0 <= x < out@.len() implies exists|m: int|
                        0 <= m < j + 1 && (#[trigger] out@[x]).0 == tiles@[m] by {
                        if x < before.len() {
                            assert(out@[x] == before[x]);
                            let m = choose|m: int| 0 <= m < j && before[x].0 == tiles@[m];
                        } else {
                            assert(out@[x].0 == tiles@[j as int]);
                        }
                    }
                    assert forall|x: int, y: int|
                        0 <= x < y < out@.len() implies lex_less((#[trigger] out@[x]).0.connections@, (#[trigger] out@[y]).0.connections@) by {
                        if y < before.len() {
                            assert(out@[x] == before[x] && out@[y] == before[y]);
                        } else {
                            assert(out@[x] == before[x]);
                            let m = choose|m: int| 0 <= m < j && before[x].0 == tiles@[m];
                            assert(lex_less(tiles@[m].connections@, tiles@[j as int].connections@));
                        }
                    }
                }
            }
            j += 1;
        }
        proof {
            assert forall|t: Tile|
                #[trigger] is_allowed(b0, hand, p as int, t) implies exists|k: int| 0 <= k < out@.len() && (#[trigger] out@[k]).0 == t by {
                let (h, n) = choose|h: int, n: int|
                    0 <= h < hand.len() && 0 <= n < 4 && t.connections@ == rotation_of(hand[h].connections@, n);
                assert(has_rotation(tiles@, hand[h], n));
                let k = choose|k: int|
                    0 <= k < tiles@.len() && (#[trigger] tiles@[k]).connections@ == rotation_of(hand[h].connections@, n);
                lemma_tile_ext(tiles@[k], t);
                assert(is_allowed(b0, hand, p as int, tiles@[k]));
                let x = choose|x: int| 0 <= x < out@.len() && out@[x].0 == tiles@[k];
                assert(out@[x].0 == t);
            }
        }
        out
    }

    /// The board after `tile` is placed in front of the active player's
    /// token, the tokens move, and those that leave the board are eliminated.
    pub fn after_placing(&self, tile: Tile) -> (r: Board)
        requires
            self.wf(),
            tile.wf(),
        ensures
            is_afterstate(self.board, tile, self.active_player as int, r),
            r.wf(),
    {
        let ghost b0 = self.board;
        let mut board = self.board.duplicate();
        board.place_tile(tile, self.active_player);
        let ghost placed_board = board;
        let eliminated = board.move_markers();
        proof {
            assert forall|k: int| 0 <= k < eliminated@.len() implies #[trigger] eliminated@[k] < board.markers@.len() by {
                assert(eliminated@.contains(eliminated@[k]));
            }
        }
        let mut i: usize = 0;
        while i < eliminated.len()
            invariant
                board.wf(),
                board.tiles == placed_board.tiles,
                board.graph == placed_board.graph,
                board.markers@.len() == placed_board.markers@.len(),
                placed_board.markers@ == b0.markers@,
                i <= eliminated@.len(),
                forall|k: int| 0 <= k < eliminated@.len() ==> #[trigger] eliminated@[k] < board.markers@.len(),
                forall|q: int|
                    0 <= q < board.markers@.len() ==> #[trigger] board.markers@[q] == if among(eliminated@, i as int, q) {
                        None
                    } else {
                        match b0.markers@[q] {
                            None => None,
                            Some(m) => Some(moved(placed_board.tiles, m)),
                        }
                    },
            decreases eliminated@.len() - i,
        {
            let player = eliminated[i];
            board.eliminate_player(player);
            proof {
                assert forall|q: int|
                    0 <= q < board.markers@.len() implies #[trigger] among(eliminated@, i + 1, q) == (
                    among(eliminated@, i as int, q) || q == player) by {
                    if q == player {
                        assert(eliminated@[i as int] == q);
                    }
                }
            }
            i += 1;
        }
        let n_markers = board.markers.len();
        proof {
            assert forall|q: int| 0 <= q < board.markers@.len() implies #[trigger] among(eliminated@, eliminated@.len() as int, q)
                == leaves_board(b0.markers@, placed_board.tiles, q) by {
                if leaves_board(b0.markers@, placed_board.tiles, q) {
                    assert(q < n_markers);
                    let qu = q as usize;
                    assert(qu as int == q);
                    assert(eliminated@.contains(qu));
                    let k = choose|k: int| 0 <= k < eliminated@.len() && eliminated@[k] == qu;
                    assert(eliminated@[k] == q);
                }
                if among(eliminated@, eliminated@.len() as int, q) {
                    let k = choose|k: int| 0 <= k < eliminated@.len() && eliminated@[k] == q;
                    assert(eliminated@.contains(eliminated@[k]));
                }
            }
        }
        board
    }

}

/// Relies on itertools' `sorted_unstable` (ascending by `Ord`, which std
/// defines on arrays as lexicographic order) followed by `dedup` (drops
/// consecutive repeats, so a sorted input comes out without repeats): the
/// result is strictly increasing and holds the values of `v`.
#[verifier::external_body]
fn sorted_distinct(v: Vec<[usize; 8]>) -> (r: Vec<[usize; 8]>)
    ensures
        forall|i: int, j: int| 0 <= i < j < r@.len() ==> lex_less((#[trigger] r@[i])@, (#[trigger] r@[j])@),
        forall|x: [usize; 8]| #[trigger] r@.contains(x) <==> v@.contains(x),
{
    v.into_iter().sorted_unstable().dedup().collect()
}

} // verus!
