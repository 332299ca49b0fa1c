//! What the library relies on of `arrayvec::ArrayVec`, for the two kinds of
//! short lists that geometry hands out.
use vstd::prelude::*;

use arrayvec::ArrayVec;

verus! {

#[verifier::external_type_specification]
#[verifier::external_body]
#[verifier::reject_recursive_types(T)]
pub struct ExArrayVec<T, const CAP: usize>(ArrayVec<T, CAP>);

/// The tile/entry pairs held by an `ArrayVec`, in order.
pub uninterp spec fn entry_items(v: ArrayVec<((usize, usize), usize), 2>) -> Seq<((usize, usize), usize)>;

/// The tiles held by an `ArrayVec`, in order.
pub uninterp spec fn tile_items(v: ArrayVec<(usize, usize), 2>) -> Seq<(usize, usize)>;

/// Relies on `ArrayVec::new`: the new vector is empty.
#[verifier::external_body]
pub(crate) fn entries_new() -> (r: ArrayVec<((usize, usize), usize), 2>)
    ensures
        entry_items(r) == Seq::<((usize, usize), usize)>::empty(),
{
    ArrayVec::new()
}

/// Relies on `ArrayVec::push`: appends at the end; it panics only when full.
#[verifier::external_body]
pub(crate) fn entries_push(v: &mut ArrayVec<((usize, usize), usize), 2>, x: ((usize, usize), usize))
    requires
        entry_items(*old(v)).len() < 2,
    ensures
        entry_items(*final(v)) == entry_items(*old(v)).push(x),
{
    v.push(x)
}

/// Relies on `ArrayVec::len`: the number of items held.
#[verifier::external_body]
pub(crate) fn entries_len(v: &ArrayVec<((usize, usize), usize), 2>) -> (r: usize)
    ensures
        r == entry_items(*v).len(),
{
    v.len()
}

/// Relies on indexing an `ArrayVec` (through its slice): the `i`-th item.
#[verifier::external_body]
pub(crate) fn entries_get(v: &ArrayVec<((usize, usize), usize), 2>, i: usize) -> (r: ((usize, usize), usize))
    requires
        i < entry_items(*v).len(),
    ensures
        r == entry_items(*v)[i as int],
{
    v[i]
}

/// Relies on `ArrayVec::new`: the new vector is empty.
#[verifier::external_body]
pub(crate) fn tiles_new() -> (r: ArrayVec<(usize, usize), 2>)
    ensures
        tile_items(r) == Seq::<(usize, usize)>::empty(),
{
    ArrayVec::new()
}

/// Relies on `ArrayVec::push`: appends at the end; it panics only when full.
#[verifier::external_body]
pub(crate) fn tiles_push(v: &mut ArrayVec<(usize, usize), 2>, x: (usize, usize))
    requires
        tile_items(*old(v)).len() < 2,
    ensures
        tile_items(*final(v)) == tile_items(*old(v)).push(x),
{
    v.push(x)
}

/// Relies on `ArrayVec::len`: the number of items held.
#[verifier::external_body]
pub(crate) fn tiles_len(v: &ArrayVec<(usize, usize), 2>) -> (r: usize)
    ensures
        r == tile_items(*v).len(),
{
    v.len()
}

/// Relies on indexing an `ArrayVec` (through its slice): the `i`-th item.
#[verifier::external_body]
pub(crate) fn tiles_get(v: &ArrayVec<(usize, usize), 2>, i: usize) -> (r: (usize, usize))
    requires
        i < tile_items(*v).len(),
    ensures
        r == tile_items(*v)[i as int],
{
    v[i]
}

} // verus!
