//! Trusted interface to roaring's compressed bitmaps.
//!
//! The membership indexes hold node-id sets as `roaring::RoaringBitmap`
//! values. The bitmap type is opaque here; what a bitmap holds is named by
//! [`bitmap_elems`], and each method the library calls gets a wrapper whose
//! contract states its effect on that set, as the crate's source shows it.

use vstd::prelude::*;

verus! {

#[verifier::external_type_specification]
#[verifier::external_body]
pub struct ExRoaringBitmap(roaring::RoaringBitmap);

/// The set of 32-bit values a bitmap holds.
pub uninterp spec fn bitmap_elems(b: roaring::RoaringBitmap) -> Set<u32>;

/// Relies on `RoaringBitmap::new`: the fresh bitmap is empty.
#[verifier::external_body]
pub(crate) fn bitmap_new() -> (r: roaring::RoaringBitmap)
    ensures
        bitmap_elems(r) == Set::<u32>::empty(),
{
    roaring::RoaringBitmap::new()
}

/// Relies on `RoaringBitmap::insert`: adds the value to the set; the other
/// values stay.
#[verifier::external_body]
pub(crate) fn bitmap_insert(b: &mut roaring::RoaringBitmap, x: u32)
    ensures
        bitmap_elems(*final(b)) == bitmap_elems(*old(b)).insert(x),
{
    b.insert(x);
}

/// Relies on `impl Clone for RoaringBitmap`: the copy holds the same values.
#[verifier::external_body]
pub(crate) fn bitmap_clone(b: &roaring::RoaringBitmap) -> (r: roaring::RoaringBitmap)
    ensures
        bitmap_elems(r) == bitmap_elems(*b),
{
    b.clone()
}

/// Relies on `BitOr for &RoaringBitmap`: the union of both sets.
#[verifier::external_body]
pub(crate) fn bitmap_union(a: &roaring::RoaringBitmap, b: &roaring::RoaringBitmap) -> (r:
    roaring::RoaringBitmap)
    ensures
        bitmap_elems(r) == bitmap_elems(*a).union(bitmap_elems(*b)),
{
    a | b
}

/// Relies on `BitAnd for &RoaringBitmap`: the intersection of both sets.
#[verifier::external_body]
pub(crate) fn bitmap_intersection(a: &roaring::RoaringBitmap, b: &roaring::RoaringBitmap) -> (r:
    roaring::RoaringBitmap)
    ensures
        bitmap_elems(r) == bitmap_elems(*a).intersect(bitmap_elems(*b)),
{
    a & b
}

/// Relies on `Sub for &RoaringBitmap`: the values of `a` that are not in `b`.
#[verifier::external_body]
pub(crate) fn bitmap_difference(a: &roaring::RoaringBitmap, b: &roaring::RoaringBitmap) -> (r:
    roaring::RoaringBitmap)
    ensures
        bitmap_elems(r) == bitmap_elems(*a).difference(bitmap_elems(*b)),
{
    a - b
}

/// Relies on `RoaringBitmap::iter`: values come out in strictly increasing
/// order, and every held value comes out.
#[verifier::external_body]
pub(crate) fn bitmap_to_vec(b: &roaring::RoaringBitmap) -> (r: Vec<u32>)
    ensures
        forall|i: int, j: int| 0 <= i < j < r@.len() ==> r@[i] < r@[j],
        forall|x: u32| r@.contains(x) <==> bitmap_elems(*b).contains(x),
{
    b.iter().collect()
}

} // verus!
