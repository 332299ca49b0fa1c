//! Tiles: eight entry points around the sides, joined in four pairs.
use vstd::prelude::*;
use vstd::arithmetic::div_mod::{lemma_add_mod_noop, lemma_small_mod};
use vstd::set_lib::{lemma_int_range, lemma_len_subset, set_int_range};
use vstd::string::StringSliceAdditionalSpecFns;
use vstd::utf8::is_ascii_chars;

verus! {

/// A tile: `connections[i]` is the entry point joined to entry point `i`.
/// Entry points are numbered anticlockwise, two per side, starting at the
/// left point of the south side, so a quarter turn maps `i` to `i + 2`.
#[derive(Debug, Clone, Copy, PartialEq, Eq, PartialOrd, Ord, Hash)]
pub struct Tile {
    pub connections: [usize; 8],
}

/// Eight entry points joined in four pairs: a fixed-point-free involution.
pub open spec fn is_pairing(c: Seq<usize>) -> bool {
    &&& c.len() == 8
    &&& forall|i: int| 0 <= i < 8 ==> #[trigger] c[i] < 8
    &&& forall|i: int| 0 <= i < 8 ==> #[trigger] c[i] != i
    &&& forall|i: int| 0 <= i < 8 ==> c[c[i] as int] == i
}

/// The connections after `n` quarter turns: what entry point `i - 2n` was
/// joined to, moved on by `2n`.
pub open spec fn rotation_of(c: Seq<usize>, n: int) -> Seq<usize> {
    let s = 2 * (n % 4);
    Seq::new(8, |i: int| add_mod8(c[sub_mod8(i, s)] as int, s) as usize)
}

/// `v + s` around the eight entry points, for `v` and `s` in 0..8.
pub open spec fn add_mod8(v: int, s: int) -> int {
    if v + s < 8 {
        v + s
    } else {
        v + s - 8
    }
}

/// `i - s` around the eight entry points, for `i` and `s` in 0..8.
pub open spec fn sub_mod8(i: int, s: int) -> int {
    if i >= s {
        i - s
    } else {
        i + 8 - s
    }
}

/// The four paths of a tile, as `paths` lists them: each pair with its lower
/// entry point first, the pairs by that lower entry point.
pub open spec fn are_paths_of(r: Seq<(usize, usize)>, c: Seq<usize>) -> bool {
    &&& r.len() == 4
    &&& forall|k: int| 0 <= k < 4 ==> #[trigger] r[k].0 < r[k].1 && r[k].1 < 8 && c[r[k].0 as int] == r[k].1
    &&& forall|k: int, j: int| 0 <= k < j < 4 ==> #[trigger] r[k].0 < #[trigger] r[j].0
    &&& forall|i: int| 0 <= i < 8 && i < c[i] ==> exists|k: int| 0 <= k < 4 && #[trigger] r[k].0 == i
}

/// The four paths of a tile with connections `c`: the one sequence that
/// `are_paths_of` describes.
pub open spec fn paths_of(c: Seq<usize>) -> Seq<(usize, usize)> {
    choose|r: Seq<(usize, usize)>| are_paths_of(r, c)
}

/// Entry point `i` is an end of one of the paths `r`.
pub open spec fn covered(r: Seq<(usize, usize)>, i: int) -> bool {
    exists|k: int| 0 <= k < 4 && (#[trigger] r[k].0 == i || r[k].1 == i)
}

/// Every entry point lies on one of the paths, and on only one: the eight
/// ends of the four paths are the eight entry points.
pub open spec fn covers_each_once(r: Seq<(usize, usize)>) -> bool {
    &&& forall|i: int| 0 <= i < 8 ==> #[trigger] covered(r, i)
    &&& forall|k: int, j: int|
        0 <= k < 4 && 0 <= j < 4 && k != j ==> {
            &&& #[trigger] r[k].0 != #[trigger] r[j].0
            &&& r[k].0 != r[j].1
            &&& r[k].1 != r[j].1
        }
}


/// The entry point (0-based) written at place `k` of a tile code such as
/// `"12-34-56-78"`: pairs of 1-based digits separated by dashes.
pub open spec fn code_digit(b: Seq<u8>, k: int) -> int {
    b[3 * (k / 2) + k % 2] - 49
}

/// The place in a code of the other digit of the pair at place `k`.
pub open spec fn mate(k: int) -> int {
    if k % 2 == 0 {
        k + 1
    } else {
        k - 1
    }
}

/// A tile code: four dash-separated pairs of digits 1 to 8, each digit
/// written once.
pub open spec fn valid_code(b: Seq<u8>) -> bool {
    &&& b.len() == 11
    &&& b[2] == 45 && b[5] == 45 && b[8] == 45
    &&& forall|k: int| 0 <= k < 8 ==> 0 <= #[trigger] code_digit(b, k) < 8
    &&& forall|k: int, j: int| 0 <= k < j < 8 ==> #[trigger] code_digit(b, k) != #[trigger] code_digit(b, j)
}

impl Tile {
    pub open spec fn wf(&self) -> bool {
        is_pairing(self.connections@)
    }

    /// The tile of a code such as `"14-27-36-58"`, in which each pair of
    /// 1-based digits names two joined entry points; `None` where the text
    /// is not such a code.
    #[verifier::rlimit(40)]
    pub fn new(code: &str) -> (r: Option<Tile>)
        ensures
            r is Some <==> is_catalog_code(code@),
            r matches Some(t) ==> t.wf() && tile_of_code(t, code@),
    {
        if !code.is_ascii() {
            return None;
        }
        let b = code.as_bytes();
        let ghost bs = code.spec_bytes();
        proof {
            broadcast use vstd::string::is_ascii_spec_bytes;
            assert(bs =~= code_bytes(code@));
        }
        if b.len() != 11 || b[2] != 45u8 || b[5] != 45u8 || b[8] != 45u8 {
            return None;
        }
        let mut seen: [bool; 8] = [false; 8];
        let mut digits: [usize; 8] = [0; 8];
        let mut k: usize = 0;
        while k < 8
            invariant
                b@ == bs,
                bs == code_bytes(code@),
                is_ascii_chars(code@),
                bs.len() == 11,
                k <= 8,
                forall|j: int| 0 <= j < k ==> 0 <= #[trigger] code_digit(bs, j) < 8 && digits@[j] == code_digit(bs, j),
                forall|j: int, i: int| 0 <= j < i < k ==> #[trigger] code_digit(bs, j) != #[trigger] code_digit(bs, i),
                forall|d: int| 0 <= d < 8 ==> (#[trigger] seen@[d] <==> exists|j: int| 0 <= j < k && code_digit(bs, j) == d),
            decreases 8 - k,
        {
            let ch = b[3 * (k / 2) + k % 2];
            proof {
                assert(bs[3 * (k / 2) + k % 2] == ch);
                assert(code_digit(bs, k as int) == ch - 49);
            }
            if ch < 49u8 || ch > 56u8 {
                proof {
                    assert(!(0 <= code_digit(bs, k as int) < 8));
                    assert(!valid_code(bs));
                }
                return None;
            }
            let d = (ch - 49u8) as usize;
            if seen[d] {
                proof {
                    let j = choose|j: int| 0 <= j < k && code_digit(bs, j) == d;
                    assert(code_digit(bs, j) == code_digit(bs, k as int));
                    assert(!valid_code(bs));
                }
                return None;
            }
            seen[d] = true;
            digits[k] = d;
            k += 1;
        }
        let mut connections: [usize; 8] = [0; 8];
        let mut j: usize = 0;
        while j < 4
            invariant
                j <= 4,
                forall|i: int| 0 <= i < 8 ==> 0 <= #[trigger] code_digit(bs, i) < 8 && digits@[i] == code_digit(bs, i),
                forall|i: int, l: int| 0 <= i < l < 8 ==> #[trigger] code_digit(bs, i) != #[trigger] code_digit(bs, l),
                forall|i: int| 0 <= i < 2 * j ==> connections@[#[trigger] code_digit(bs, i)] == code_digit(bs, mate(i)),
            decreases 4 - j,
        {
            proof {
                assert(0 <= code_digit(bs, 2 * j as int) < 8);
                assert(0 <= code_digit(bs, 2 * j + 1) < 8);
            }
            let a = digits[2 * j];
            let c = digits[2 * j + 1];
            let ghost old_conn = connections@;
            connections[a] = c;
            connections[c] = a;
            proof {
                let a0 = code_digit(bs, 2 * j as int);
                let c0 = code_digit(bs, 2 * j + 1);
                assert(mate(2 * j as int) == 2 * j + 1);
                assert(mate(2 * j + 1) == 2 * j);
                assert forall|i: int| 0 <= i < 2 * j + 2 implies connections@[#[trigger] code_digit(bs, i)] == code_digit(bs, mate(i)) by {
                    if i < 2 * j {
                        assert(code_digit(bs, i) != a0);
                        assert(code_digit(bs, i) != c0);
                        assert(connections@[code_digit(bs, i)] == old_conn[code_digit(bs, i)]);
                    }
                }
            }
            j += 1;
        }
        let t = Tile { connections };
        proof {
            lemma_code_pairing(bs, t.connections@);
        }
        Some(t)
    }

    /// The tile turned by `num` quarter turns.
    pub fn rotated(&self, num: usize) -> (r: Tile)
        requires
            self.wf(),
        ensures
            r.connections@ == rotation_of(self.connections@, num as int),
            r.wf(),
    {
        let num = num % 4;
        let mut new_conn: [usize; 8] = [0; 8];
        let mut i: usize = 0;
        while i < 8
            invariant
                self.wf(),
                num < 4,
                i <= 8,
                new_conn@.len() == 8,
                forall|j: int| 0 <= j < i ==> new_conn@[j] == rotation_of(self.connections@, num as int)[j],
            decreases 8 - i,
        {
            let idx = if i < num * 2 {
                8 + i - num * 2
            } else {
                i - num * 2
            };
            let v = self.connections[idx] + num * 2;
            new_conn[i] = if v < 8 {
                v
            } else {
                v - 8
            };
            i += 1;
        }
        let r = Tile { connections: new_conn };
        proof {
            assert(r.connections@ =~= rotation_of(self.connections@, num as int));
            lemma_rotation_pairing(self.connections@, num as int);
        }
        r
    }

    /// The four paths of the tile, each pair with its lower entry point
    /// first, in the order of those lower entry points.
    pub fn paths(&self) -> (r: [(usize, usize); 4])
        requires
            self.wf(),
        ensures
            are_paths_of(r@, self.connections@),
            covers_each_once(r@),
            r@ == paths_of(self.connections@),
    {
        let c = self.connections;
        let mut used: [bool; 8] = [false; 8];
        let mut out: [(usize, usize); 4] = [(0, 0); 4];
        let mut out_idx: usize = 0;
        let ghost mut seen: Set<int> = Set::empty();
        let mut a: usize = 0;
        while a < 8
            invariant
                is_pairing(c@),
                a <= 8,
                used@.len() == 8,
                out@.len() == 4,
                out_idx <= 4,
                seen.finite(),
                seen.len() == 2 * out_idx,
                forall|i: int| 0 <= i < 8 ==> (used@[i] <==> seen.contains(i)),
                forall|i: int| seen.contains(i) ==> 0 <= i < 8,
                forall|i: int| 0 <= i < 8 ==> (used@[i] <==> (i < a || c@[i] < a)),
                forall|k: int| 0 <= k < out_idx ==> #[trigger] out@[k].0 < out@[k].1 && out@[k].1 < 8
                    && c@[out@[k].0 as int] == out@[k].1 && out@[k].0 < a,
                forall|k: int, j: int| 0 <= k < j < out_idx ==> #[trigger] out@[k].0 < #[trigger] out@[j].0,
                forall|i: int| 0 <= i < a && i < c@[i] ==> exists|k: int| 0 <= k < out_idx && #[trigger] out@[k].0 == i,
            decreases 8 - a,
        {
            let b = c[a];
            if !used[a] && !used[b] {
            proof {
                assert(!seen.contains(a as int) && !seen.contains(b as int));
                let rest = set_int_range(0, 8).remove(a as int).remove(b as int);
                lemma_int_range(0, 8);
                assert(seen.subset_of(rest));
                lemma_len_subset(seen, rest);
            }
            let ghost old_out = out@;
            used[a] = true;
            used[b] = true;
            out[out_idx] = (a, b);
            proof {
                seen = seen.insert(a as int).insert(b as int);
                assert(forall|k: int| 0 <= k < out_idx ==> out@[k].0 < a);
            }
            out_idx += 1;
            proof {
                assert forall|i: int| 0 <= i <= a && i < c@[i] implies exists|k: int|
                    0 <= k < out_idx && #[trigger] out@[k].0 == i by {
                    if i == a {
                        assert(out@[out_idx - 1].0 == i);
                    } else {
                        let k = choose|k: int| 0 <= k < out_idx - 1 && #[trigger] old_out[k].0 == i;
                        assert(out@[k].0 == i);
                    }
                }
            }
            }
            a += 1;
        }
        proof {
            lemma_int_range(0, 8);
            assert(seen =~= set_int_range(0, 8));
            assert forall|i: int| 0 <= i < 8 && i < c@[i] implies exists|k: int|
                0 <= k < 4 && #[trigger] out@[k].0 == i by {}
            lemma_paths_cover(out@, c@);
            assert(are_paths_of(out@, c@));
            assert(exists|r: Seq<(usize, usize)>| are_paths_of(r, c@));
            lemma_paths_unique(out@, paths_of(c@), c@);
        }
        out
    }
}

/// Turning a tile keeps its entry points paired.
pub proof fn lemma_rotation_pairing(c: Seq<usize>, n: int)
    requires
        is_pairing(c),
    ensures
        is_pairing(rotation_of(c, n)),
{
    let r = rotation_of(c, n);
    let s = 2 * (n % 4);
    assert forall|i: int| 0 <= i < 8 implies r[r[i] as int] == i by {
        let j = sub_mod8(i, s);
        assert(c[c[j] as int] == j);
    }
}

/// Turning by `a` and then by `b` quarter turns is turning by `a + b`;
/// turning by none leaves the tile as it was.
pub proof fn lemma_rotation_compose(c: Seq<usize>, a: nat, b: nat)
    requires
        is_pairing(c),
    ensures
        rotation_of(rotation_of(c, a as int), b as int) == rotation_of(c, (a + b) as int % 4),
        rotation_of(c, 0) == c,
{
    let r1 = rotation_of(c, a as int);
    let r2 = rotation_of(r1, b as int);
    let r3 = rotation_of(c, (a + b) as int % 4);
    lemma_add_mod_noop(a as int, b as int, 4);
    lemma_small_mod(((a + b) as int % 4) as nat, 4);
    let sa = 2 * (a as int % 4);
    let sb = 2 * (b as int % 4);
    assert(2 * ((a + b) as int % 4 % 4) == if sa + sb < 8 { sa + sb } else { sa + sb - 8 });
    assert forall|i: int| 0 <= i < 8 implies r2[i] == r3[i] by {
        let j = sub_mod8(i, sb);
        let k = sub_mod8(j, sa);
        assert(c[k] < 8);
    }
    assert(r2 =~= r3);
    assert(rotation_of(c, 0) =~= c);
}

/// Connections that join the digits of each pair of a valid code pair
/// all eight entry points.
pub proof fn lemma_code_pairing(bs: Seq<u8>, c: Seq<usize>)
    requires
        c.len() == 8,
        forall|i: int| 0 <= i < 8 ==> 0 <= #[trigger] code_digit(bs, i) < 8,
        forall|i: int, l: int| 0 <= i < l < 8 ==> #[trigger] code_digit(bs, i) != #[trigger] code_digit(bs, l),
        forall|i: int| 0 <= i < 8 ==> c[#[trigger] code_digit(bs, i)] == code_digit(bs, mate(i)),
    ensures
        is_pairing(c),
{
    // eight different digits below 8 name every entry point
    let ds = digit_set(bs, 8);
    lemma_int_range(0, 8);
    lemma_digits_len(bs, 8);
    assert(ds.subset_of(set_int_range(0, 8)));
    vstd::set_lib::lemma_subset_equality(ds, set_int_range(0, 8));
    assert forall|i: int| 0 <= i < 8 implies #[trigger] c[i] < 8 && c[i] != i && c[c[i] as int] == i by {
        assert(ds.contains(i));
        let k = choose|k: int| 0 <= k < 8 && #[trigger] code_digit(bs, k) == i;
        assert(c[code_digit(bs, k)] == code_digit(bs, mate(k)));
        assert(c[code_digit(bs, mate(k))] == code_digit(bs, mate(mate(k))));
    }
}

/// The digits at the first `n` places of a code.
pub open spec fn digit_set(b: Seq<u8>, n: int) -> Set<int>
    decreases n,
{
    if n <= 0 {
        Set::empty()
    } else {
        digit_set(b, n - 1).insert(code_digit(b, n - 1))
    }
}

/// `n` different digits make a set of `n`.
pub proof fn lemma_digits_len(b: Seq<u8>, n: int)
    requires
        0 <= n <= 8,
        forall|k: int, j: int| 0 <= k < j < 8 ==> #[trigger] code_digit(b, k) != #[trigger] code_digit(b, j),
    ensures
        digit_set(b, n).finite(),
        digit_set(b, n).len() == n,
        forall|d: int| #[trigger] digit_set(b, n).contains(d) <==> exists|i: int| 0 <= i < n && #[trigger] code_digit(b, i) == d,
    decreases n,
{
    if n > 0 {
        lemma_digits_len(b, n - 1);
        assert(!digit_set(b, n - 1).contains(code_digit(b, n - 1))) by {
            if digit_set(b, n - 1).contains(code_digit(b, n - 1)) {
                let i = choose|i: int| 0 <= i < n - 1 && #[trigger] code_digit(b, i) == code_digit(b, n - 1);
                assert(code_digit(b, i) != code_digit(b, n - 1));
            }
        }
    }
}

/// `are_paths_of` describes one sequence only.
pub proof fn lemma_paths_unique(r: Seq<(usize, usize)>, s: Seq<(usize, usize)>, c: Seq<usize>)
    requires
        is_pairing(c),
        are_paths_of(r, c),
        are_paths_of(s, c),
    ensures
        r == s,
{
    lemma_paths_firsts_equal(r, s, c, 4);
    assert forall|k: int| 0 <= k < 4 implies r[k] == s[k] by {
        assert(c[r[k].0 as int] == r[k].1);
        assert(c[s[k].0 as int] == s[k].1);
    }
    assert(r =~= s);
}

proof fn lemma_paths_firsts_equal(r: Seq<(usize, usize)>, s: Seq<(usize, usize)>, c: Seq<usize>, n: int)
    requires
        is_pairing(c),
        are_paths_of(r, c),
        are_paths_of(s, c),
        0 <= n <= 4,
    ensures
        forall|k: int| 0 <= k < n ==> r[k].0 == s[k].0,
    decreases n,
{
    if n > 0 {
        lemma_paths_firsts_equal(r, s, c, n - 1);
        let k = n - 1;
        let x = r[k].0 as int;
        let y = s[k].0 as int;
        assert(x < c[x]);
        assert(y < c[y]);
        if x < y {
            let j = choose|j: int| 0 <= j < 4 && #[trigger] s[j].0 == x;
            if j >= k {
                if j > k {
                    assert(s[k].0 < s[j].0);
                }
            } else {
                assert(r[j].0 == s[j].0);
                assert(r[j].0 < r[k].0);
            }
        } else if y < x {
            let j = choose|j: int| 0 <= j < 4 && #[trigger] r[j].0 == y;
            if j >= k {
                if j > k {
                    assert(r[k].0 < r[j].0);
                }
            } else {
                assert(r[j].0 == s[j].0);
                assert(s[j].0 < s[k].0);
            }
        }
    }
}

/// The paths that `paths` lists cover each entry point exactly once.
pub proof fn lemma_paths_cover(r: Seq<(usize, usize)>, c: Seq<usize>)
    requires
        is_pairing(c),
        are_paths_of(r, c),
    ensures
        covers_each_once(r),
{
    assert forall|i: int| 0 <= i < 8 implies #[trigger] covered(r, i) by {
        if i < c[i] {
            let k = choose|k: int| 0 <= k < 4 && #[trigger] r[k].0 == i;
            assert(r[k].0 == i);
        } else {
            let m = c[i] as int;
            assert(c[m] == i);
            let k = choose|k: int| 0 <= k < 4 && #[trigger] r[k].0 == m;
            assert(r[k].1 == i);
        }
    }
    assert forall|k: int, j: int|
        0 <= k < 4 && 0 <= j < 4 && k != j implies {
            &&& #[trigger] r[k].0 != #[trigger] r[j].0
            &&& r[k].0 != r[j].1
            &&& r[k].1 != r[j].1
        } by {
        if k < j {
            assert(r[k].0 < r[j].0);
        } else {
            assert(r[j].0 < r[k].0);
        }
        assert(c[r[k].0 as int] == r[k].1);
        assert(c[r[j].0 as int] == r[j].1);
        assert(c[r[k].1 as int] == r[k].0);
        assert(c[r[j].1 as int] == r[j].0);
    }
}

/// The bytes of an ASCII text.
pub open spec fn code_bytes(c: Seq<char>) -> Seq<u8> {
    Seq::new(c.len(), |i: int| c[i] as u8)
}

/// An ASCII text that is a tile code.
pub open spec fn is_catalog_code(c: Seq<char>) -> bool {
    is_ascii_chars(c) && valid_code(code_bytes(c))
}

/// Tile `t` joins the entry points as code `c` pairs them.
pub open spec fn tile_of_code(t: Tile, c: Seq<char>) -> bool {
    forall|k: int|
        0 <= k < 8 ==> t.connections@[#[trigger] code_digit(code_bytes(c), k)] == code_digit(code_bytes(c), mate(k))
}

/// The code of tile `i` of the game's 35 tiles, one per class of tiles
/// equal under turning.
pub open spec fn catalog_code(i: int) -> Seq<char> {
    if i == 0 {
        "12-34-56-78"@
    } else if i == 1 {
        "14-27-36-58"@
    } else if i == 2 {
        "15-26-37-48"@
    } else if i == 3 {
        "16-25-38-47"@
    } else if i == 4 {
        "18-23-45-67"@
    } else if i == 5 {
        "12-37-48-56"@
    } else if i == 6 {
        "12-38-47-56"@
    } else if i == 7 {
        "16-25-37-48"@
    } else if i == 8 {
        "17-24-35-68"@
    } else if i == 9 {
        "15-27-36-48"@
    } else if i == 10 {
        "17-28-35-46"@
    } else if i == 11 {
        "18-26-37-45"@
    } else if i == 12 {
        "18-27-36-45"@
    } else if i == 13 {
        "13-26-48-57"@
    } else if i == 14 {
        "15-28-37-46"@
    } else if i == 15 {
        "12-35-47-68"@
    } else if i == 16 {
        "12-36-47-58"@
    } else if i == 17 {
        "12-38-45-67"@
    } else if i == 18 {
        "12-38-46-57"@
    } else if i == 19 {
        "17-24-36-58"@
    } else if i == 20 {
        "18-23-46-57"@
    } else if i == 21 {
        "12-34-57-68"@
    } else if i == 22 {
        "12-34-58-67"@
    } else if i == 23 {
        "16-23-47-58"@
    } else if i == 24 {
        "16-28-35-47"@
    } else if i == 25 {
        "17-23-46-58"@
    } else if i == 26 {
        "17-28-36-45"@
    } else if i == 27 {
        "12-36-48-57"@
    } else if i == 28 {
        "12-37-46-58"@
    } else if i == 29 {
        "12-37-45-68"@
    } else if i == 30 {
        "12-35-48-67"@
    } else if i == 31 {
        "13-26-47-58"@
    } else if i == 32 {
        "15-28-36-47"@
    } else if i == 33 {
        "13-25-48-67"@
    } else {
        "16-28-37-45"@
    }
}

/// Each of the 35 codes of the game is a tile code.
pub proof fn lemma_catalog_codes()
    ensures
        forall|i: int| 0 <= i < 35 ==> #[trigger] is_catalog_code(catalog_code(i)),
{
    reveal_strlit("12-34-56-78");
    reveal_strlit("14-27-36-58");
    reveal_strlit("15-26-37-48");
    reveal_strlit("16-25-38-47");
    reveal_strlit("18-23-45-67");
    reveal_strlit("12-37-48-56");
    reveal_strlit("12-38-47-56");
    reveal_strlit("16-25-37-48");
    reveal_strlit("17-24-35-68");
    reveal_strlit("15-27-36-48");
    reveal_strlit("17-28-35-46");
    reveal_strlit("18-26-37-45");
    reveal_strlit("18-27-36-45");
    reveal_strlit("13-26-48-57");
    reveal_strlit("15-28-37-46");
    reveal_strlit("12-35-47-68");
    reveal_strlit("12-36-47-58");
    reveal_strlit("12-38-45-67");
    reveal_strlit("12-38-46-57");
    reveal_strlit("17-24-36-58");
    reveal_strlit("18-23-46-57");
    reveal_strlit("12-34-57-68");
    reveal_strlit("12-34-58-67");
    reveal_strlit("16-23-47-58");
    reveal_strlit("16-28-35-47");
    reveal_strlit("17-23-46-58");
    reveal_strlit("17-28-36-45");
    reveal_strlit("12-36-48-57");
    reveal_strlit("12-37-46-58");
    reveal_strlit("12-37-45-68");
    reveal_strlit("12-35-48-67");
    reveal_strlit("13-26-47-58");
    reveal_strlit("15-28-36-47");
    reveal_strlit("13-25-48-67");
    reveal_strlit("16-28-37-45");
    assert(is_catalog_code(catalog_code(0)));
    assert(is_catalog_code(catalog_code(1)));
    assert(is_catalog_code(catalog_code(2)));
    assert(is_catalog_code(catalog_code(3)));
    assert(is_catalog_code(catalog_code(4)));
    assert(is_catalog_code(catalog_code(5)));
    assert(is_catalog_code(catalog_code(6)));
    assert(is_catalog_code(catalog_code(7)));
    assert(is_catalog_code(catalog_code(8)));
    assert(is_catalog_code(catalog_code(9)));
    assert(is_catalog_code(catalog_code(10)));
    assert(is_catalog_code(catalog_code(11)));
    assert(is_catalog_code(catalog_code(12)));
    assert(is_catalog_code(catalog_code(13)));
    assert(is_catalog_code(catalog_code(14)));
    assert(is_catalog_code(catalog_code(15)));
    assert(is_catalog_code(catalog_code(16)));
    assert(is_catalog_code(catalog_code(17)));
    assert(is_catalog_code(catalog_code(18)));
    assert(is_catalog_code(catalog_code(19)));
    assert(is_catalog_code(catalog_code(20)));
    assert(is_catalog_code(catalog_code(21)));
    assert(is_catalog_code(catalog_code(22)));
    assert(is_catalog_code(catalog_code(23)));
    assert(is_catalog_code(catalog_code(24)));
    assert(is_catalog_code(catalog_code(25)));
    assert(is_catalog_code(catalog_code(26)));
    assert(is_catalog_code(catalog_code(27)));
    assert(is_catalog_code(catalog_code(28)));
    assert(is_catalog_code(catalog_code(29)));
    assert(is_catalog_code(catalog_code(30)));
    assert(is_catalog_code(catalog_code(31)));
    assert(is_catalog_code(catalog_code(32)));
    assert(is_catalog_code(catalog_code(33)));
    assert(is_catalog_code(catalog_code(34)));
    assert forall|i: int| 0 <= i < 35 implies #[trigger] is_catalog_code(catalog_code(i)) by {
        assert(is_catalog_code(catalog_code(i)));
    }
}

/// The 35 tiles of the game, one per class of tiles equal under turning,
/// as codes.
pub fn tile_codes() -> (r: [&'static str; 35])
    ensures
        forall|i: int| 0 <= i < 35 ==> (#[trigger] r@[i])@ == catalog_code(i),
{
    let r = [
        "12-34-56-78",
        "14-27-36-58",
        "15-26-37-48",
        "16-25-38-47",
        "18-23-45-67",
        "12-37-48-56",
        "12-38-47-56",
        "16-25-37-48",
        "17-24-35-68",
        "15-27-36-48",
        "17-28-35-46",
        "18-26-37-45",
        "18-27-36-45",
        "13-26-48-57",
        "15-28-37-46",
        "12-35-47-68",
        "12-36-47-58",
        "12-38-45-67",
        "12-38-46-57",
        "17-24-36-58",
        "18-23-46-57",
        "12-34-57-68",
        "12-34-58-67",
        "16-23-47-58",
        "16-28-35-47",
        "17-23-46-58",
        "17-28-36-45",
        "12-36-48-57",
        "12-37-46-58",
        "12-37-45-68",
        "12-35-48-67",
        "13-26-47-58",
        "15-28-36-47",
        "13-25-48-67",
        "16-28-37-45",
    ];
    proof {
        assert forall|i: int| 0 <= i < 35 implies (#[trigger] r@[i])@ == catalog_code(i) by {
            if i == 0 {
                assert(r@[i] == "12-34-56-78");
            } else if i == 1 {
                assert(r@[i] == "14-27-36-58");
            } else if i == 2 {
                assert(r@[i] == "15-26-37-48");
            } else if i == 3 {
                assert(r@[i] == "16-25-38-47");
            } else if i == 4 {
                assert(r@[i] == "18-23-45-67");
            } else if i == 5 {
                assert(r@[i] == "12-37-48-56");
            } else if i == 6 {
                assert(r@[i] == "12-38-47-56");
            } else if i == 7 {
                assert(r@[i] == "16-25-37-48");
            } else if i == 8 {
                assert(r@[i] == "17-24-35-68");
            } else if i == 9 {
                assert(r@[i] == "15-27-36-48");
            } else if i == 10 {
                assert(r@[i] == "17-28-35-46");
            } else if i == 11 {
                assert(r@[i] == "18-26-37-45");
            } else if i == 12 {
                assert(r@[i] == "18-27-36-45");
            } else if i == 13 {
                assert(r@[i] == "13-26-48-57");
            } else if i == 14 {
                assert(r@[i] == "15-28-37-46");
            } else if i == 15 {
                assert(r@[i] == "12-35-47-68");
            } else if i == 16 {
                assert(r@[i] == "12-36-47-58");
            } else if i == 17 {
                assert(r@[i] == "12-38-45-67");
            } else if i == 18 {
                assert(r@[i] == "12-38-46-57");
            } else if i == 19 {
                assert(r@[i] == "17-24-36-58");
            } else if i == 20 {
                assert(r@[i] == "18-23-46-57");
            } else if i == 21 {
                assert(r@[i] == "12-34-57-68");
            } else if i == 22 {
                assert(r@[i] == "12-34-58-67");
            } else if i == 23 {
                assert(r@[i] == "16-23-47-58");
            } else if i == 24 {
                assert(r@[i] == "16-28-35-47");
            } else if i == 25 {
                assert(r@[i] == "17-23-46-58");
            } else if i == 26 {
                assert(r@[i] == "17-28-36-45");
            } else if i == 27 {
                assert(r@[i] == "12-36-48-57");
            } else if i == 28 {
                assert(r@[i] == "12-37-46-58");
            } else if i == 29 {
                assert(r@[i] == "12-37-45-68");
            } else if i == 30 {
                assert(r@[i] == "12-35-48-67");
            } else if i == 31 {
                assert(r@[i] == "13-26-47-58");
            } else if i == 32 {
                assert(r@[i] == "15-28-36-47");
            } else if i == 33 {
                assert(r@[i] == "13-25-48-67");
            } else if i == 34 {
                assert(r@[i] == "16-28-37-45");
            }
        }
    }
    r
}

/// The 35 tiles of the game, in the order of `catalog_code`, each parsed
/// from its code.
pub fn all_tiles() -> (r: Vec<Tile>)
    ensures
        r@.len() == 35,
        forall|i: int| 0 <= i < 35 ==> (#[trigger] r@[i]).wf() && tile_of_code(r@[i], catalog_code(i)),
{
    let codes = tile_codes();
    proof {
        lemma_catalog_codes();
    }
    let mut out: Vec<Tile> = Vec::new();
    let mut i: usize = 0;
    while i < 35
        invariant
            i <= 35,
            out@.len() == i,
            forall|j: int| 0 <= j < 35 ==> (#[trigger] codes@[j])@ == catalog_code(j),
            forall|j: int| 0 <= j < 35 ==> #[trigger] is_catalog_code(catalog_code(j)),
            forall|j: int| 0 <= j < i ==> (#[trigger] out@[j]).wf() && tile_of_code(out@[j], catalog_code(j)),
        decreases 35 - i,
    {
        let code = codes[i];
        proof {
            assert(is_catalog_code(catalog_code(i as int)));
        }
        match Tile::new(code) {
            Some(t) => {
                out.push(t);
                proof {
                    assert forall|j: int| 0 <= j < i + 1 implies (#[trigger] out@[j]).wf() && tile_of_code(out@[j], catalog_code(j)) by {
                        if j == i {
                            assert(out@[j] == t);
                        }
                    }
                }
            },
            None => {
                proof {
                    assert(false);
                }
            },
        }
        i += 1;
    }
    out
}

/// Code `i` of the game pairs entry point `a`, at place `k`, with `b`.
pub open spec fn joins_at(i: int, k: int, a: int, b: int) -> bool {
    &&& 0 <= i < 35
    &&& 0 <= k < 8
    &&& code_digit(code_bytes(catalog_code(i)), k) == a
    &&& code_digit(code_bytes(catalog_code(i)), mate(k)) == b
}

/// Every two different entry points are joined by some tile of the game.
pub proof fn lemma_catalog_joins(a: int, b: int)
    requires
        0 <= a < 8,
        0 <= b < 8,
        a != b,
    ensures
        exists|i: int, k: int| #[trigger] joins_at(i, k, a, b),
{
    reveal_strlit("12-34-56-78");
    reveal_strlit("14-27-36-58");
    reveal_strlit("15-26-37-48");
    reveal_strlit("16-25-38-47");
    reveal_strlit("18-23-45-67");
    reveal_strlit("17-24-35-68");
    reveal_strlit("17-28-35-46");
    reveal_strlit("13-26-48-57");
    if a == 0 && b == 1 {
        assert(joins_at(0, 0, a, b));
    } else if a == 0 && b == 2 {
        assert(joins_at(13, 0, a, b));
    } else if a == 0 && b == 3 {
        assert(joins_at(1, 0, a, b));
    } else if a == 0 && b == 4 {
        assert(joins_at(2, 0, a, b));
    } else if a == 0 && b == 5 {
        assert(joins_at(3, 0, a, b));
    } else if a == 0 && b == 6 {
        assert(joins_at(8, 0, a, b));
    } else if a == 0 && b == 7 {
        assert(joins_at(4, 0, a, b));
    } else if a == 1 && b == 0 {
        assert(joins_at(0, 1, a, b));
    } else if a == 1 && b == 2 {
        assert(joins_at(4, 2, a, b));
    } else if a == 1 && b == 3 {
        assert(joins_at(8, 2, a, b));
    } else if a == 1 && b == 4 {
        assert(joins_at(3, 2, a, b));
    } else if a == 1 && b == 5 {
        assert(joins_at(2, 2, a, b));
    } else if a == 1 && b == 6 {
        assert(joins_at(1, 2, a, b));
    } else if a == 1 && b == 7 {
        assert(joins_at(10, 2, a, b));
    } else if a == 2 && b == 0 {
        assert(joins_at(13, 1, a, b));
    } else if a == 2 && b == 1 {
        assert(joins_at(4, 3, a, b));
    } else if a == 2 && b == 3 {
        assert(joins_at(0, 2, a, b));
    } else if a == 2 && b == 4 {
        assert(joins_at(8, 4, a, b));
    } else if a == 2 && b == 5 {
        assert(joins_at(1, 4, a, b));
    } else if a == 2 && b == 6 {
        assert(joins_at(2, 4, a, b));
    } else if a == 2 && b == 7 {
        assert(joins_at(3, 4, a, b));
    } else if a == 3 && b == 0 {
        assert(joins_at(1, 1, a, b));
    } else if a == 3 && b == 1 {
        assert(joins_at(8, 3, a, b));
    } else if a == 3 && b == 2 {
        assert(joins_at(0, 3, a, b));
    } else if a == 3 && b == 4 {
        assert(joins_at(4, 4, a, b));
    } else if a == 3 && b == 5 {
        assert(joins_at(10, 6, a, b));
    } else if a == 3 && b == 6 {
        assert(joins_at(3, 6, a, b));
    } else if a == 3 && b == 7 {
        assert(joins_at(2, 6, a, b));
    } else if a == 4 && b == 0 {
        assert(joins_at(2, 1, a, b));
    } else if a == 4 && b == 1 {
        assert(joins_at(3, 3, a, b));
    } else if a == 4 && b == 2 {
        assert(joins_at(8, 5, a, b));
    } else if a == 4 && b == 3 {
        assert(joins_at(4, 5, a, b));
    } else if a == 4 && b == 5 {
        assert(joins_at(0, 4, a, b));
    } else if a == 4 && b == 6 {
        assert(joins_at(13, 6, a, b));
    } else if a == 4 && b == 7 {
        assert(joins_at(1, 6, a, b));
    } else if a == 5 && b == 0 {
        assert(joins_at(3, 1, a, b));
    } else if a == 5 && b == 1 {
        assert(joins_at(2, 3, a, b));
    } else if a == 5 && b == 2 {
        assert(joins_at(1, 5, a, b));
    } else if a == 5 && b == 3 {
        assert(joins_at(10, 7, a, b));
    } else if a == 5 && b == 4 {
        assert(joins_at(0, 5, a, b));
    } else if a == 5 && b == 6 {
        assert(joins_at(4, 6, a, b));
    } else if a == 5 && b == 7 {
        assert(joins_at(8, 6, a, b));
    } else if a == 6 && b == 0 {
        assert(joins_at(8, 1, a, b));
    } else if a == 6 && b == 1 {
        assert(joins_at(1, 3, a, b));
    } else if a == 6 && b == 2 {
        assert(joins_at(2, 5, a, b));
    } else if a == 6 && b == 3 {
        assert(joins_at(3, 7, a, b));
    } else if a == 6 && b == 4 {
        assert(joins_at(13, 7, a, b));
    } else if a == 6 && b == 5 {
        assert(joins_at(4, 7, a, b));
    } else if a == 6 && b == 7 {
        assert(joins_at(0, 6, a, b));
    } else if a == 7 && b == 0 {
        assert(joins_at(4, 1, a, b));
    } else if a == 7 && b == 1 {
        assert(joins_at(10, 3, a, b));
    } else if a == 7 && b == 2 {
        assert(joins_at(3, 5, a, b));
    } else if a == 7 && b == 3 {
        assert(joins_at(2, 7, a, b));
    } else if a == 7 && b == 4 {
        assert(joins_at(1, 7, a, b));
    } else if a == 7 && b == 5 {
        assert(joins_at(8, 7, a, b));
    } else if a == 7 && b == 6 {
        assert(joins_at(0, 7, a, b));
    }
}

/// The first tile of the game, taken in order and each turned by 0 to 3
/// quarter turns, that joins entry point `from` to `to`.
pub fn find_tile_with_connection(from: usize, to: usize) -> (r: Option<Tile>)
    requires
        from < 8,
    ensures
        r matches Some(t) ==> t.wf() && t.connections@[from as int] == to,
        to < 8 && from != to ==> r is Some,
{
    let tiles = all_tiles();
    let mut i: usize = 0;
    while i < tiles.len()
        invariant
            i <= tiles@.len(),
            tiles@.len() == 35,
            from < 8,
            forall|j: int| 0 <= j < 35 ==> (#[trigger] tiles@[j]).wf() && tile_of_code(tiles@[j], catalog_code(j)),
            forall|j: int| 0 <= j < i ==> (#[trigger] tiles@[j]).connections@[from as int] != to,
        decreases tiles@.len() - i,
    {
        let mut rotation: usize = 0;
        while rotation < 4
            invariant
                i < tiles@.len(),
                from < 8,
                tiles@[i as int].wf(),
                rotation <= 4,
                rotation > 0 ==> tiles@[i as int].connections@[from as int] != to,
            decreases 4 - rotation,
        {
            let tile = tiles[i].rotated(rotation);
            if tile.connections[from] == to {
                return Some(tile);
            }
            proof {
                if rotation == 0 {
                    lemma_rotation_compose(tiles@[i as int].connections@, 0, 0);
                }
            }
            rotation += 1;
        }
        i += 1;
    }
    proof {
        if to < 8 && from != to {
            lemma_catalog_joins(from as int, to as int);
            let (j, k) = choose|j: int, k: int| #[trigger] joins_at(j, k, from as int, to as int);
            assert(tile_of_code(tiles@[j], catalog_code(j)));
            assert(tiles@[j].connections@[code_digit(code_bytes(catalog_code(j)), k)] == code_digit(
                code_bytes(catalog_code(j)),
                mate(k),
            ));
            assert(tiles@[j].connections@[from as int] != to);
        }
    }
    None
}


/// `a` comes before `b` in lexicographic order of connections, the order
/// that `Ord` on `Tile` gives.
pub open spec fn lex_less(a: Seq<usize>, b: Seq<usize>) -> bool {
    exists|k: int| 0 <= k < 8 && a[k] < b[k] && #[trigger] a.take(k) == b.take(k)
}

/// Tiles with the same connections are the same tile.
pub proof fn lemma_tile_ext(t: Tile, u: Tile)
    requires
        t.connections@ == u.connections@,
    ensures
        t == u,
{
    assert(t.connections =~= u.connections);
}

} // verus!
