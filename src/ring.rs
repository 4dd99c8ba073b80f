//! Bounded rings of at most six items, backed by `arrayvec::ArrayVec`.

use crate::coordinate::Coordinate;
use arrayvec::ArrayVec;
use vstd::prelude::*;

verus! {

/// `arrayvec::ArrayVec`: a vector with a fixed inline capacity, opaque here;
/// what a ring holds is read through `coord_ring` and `index_ring`.
#[verifier::external_type_specification]
#[verifier::external_body]
#[verifier::reject_recursive_types(T)]
pub struct ExArrayVec<T, const CAP: usize>(ArrayVec<T, CAP>);

/// Either 5 or 6 elements.
pub type Hexagonish<T> = ArrayVec<T, 6>;

/// The coordinates held by a ring, in order.
pub uninterp spec fn coord_ring(r: ArrayVec<Coordinate, 6>) -> Seq<Coordinate>;

/// Relies on `ArrayVec::from_iter`: the items are taken in order (it panics
/// only beyond the capacity, which `requires` rules out).
#[verifier::external_body]
pub(crate) fn coord_ring_from(v: Vec<Coordinate>) -> (r: Hexagonish<Coordinate>)
    requires
        v@.len() <= 6,
    ensures
        coord_ring(r) == v@,
{
    ArrayVec::from_iter(v)
}

/// The vertex ids held by a ring, in order.
pub uninterp spec fn index_ring(r: ArrayVec<u32, 6>) -> Seq<u32>;

/// Relies on `ArrayVec::from_iter`: a ring of the two ids, in order.
#[verifier::external_body]
pub(crate) fn index_ring_pair(j: u32, k: u32) -> (r: Hexagonish<u32>)
    ensures
        index_ring(r) == seq![j, k],
{
    ArrayVec::from_iter([j, k])
}

/// Relies on `ArrayVec::as_slice`: the items in order, never more than the capacity.
#[verifier::external_body]
pub(crate) fn index_ring_slice(r: &Hexagonish<u32>) -> (s: &[u32])
    ensures
        s@ == index_ring(*r),
        s@.len() <= 6,
{
    r.as_slice()
}

/// Relies on `ArrayVec::insert`: shifts the items from `i` on up by one
/// (it panics on a full ring or an index past the end, which `requires` rules out).
#[verifier::external_body]
pub(crate) fn index_ring_insert(r: &mut Hexagonish<u32>, i: usize, x: u32)
    requires
        i <= index_ring(*old(r)).len(),
        index_ring(*old(r)).len() < 6,
    ensures
        index_ring(*final(r)) == index_ring(*old(r)).insert(i as int, x),
{
    r.insert(i, x)
}

/// Relies on `ArrayVec::push`: appends at the end (it panics on a full ring,
/// which `requires` rules out).
#[verifier::external_body]
pub(crate) fn index_ring_push(r: &mut Hexagonish<u32>, x: u32)
    requires
        index_ring(*old(r)).len() < 6,
    ensures
        index_ring(*final(r)) == index_ring(*old(r)).push(x),
{
    r.push(x)
}

} // verus!
