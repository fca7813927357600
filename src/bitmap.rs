//! Compressed bitmaps of ids, from the `roaring` crate.
use roaring::RoaringBitmap;
use vstd::prelude::*;

verus! {

#[verifier::external_type_specification]
#[verifier::external_body]
pub struct ExRoaringBitmap(RoaringBitmap);

/// The ids that a bitmap holds.
pub uninterp spec fn bitmap_ids(b: RoaringBitmap) -> Set<u32>;

/// How many of the ids in `s` are below `x`: the rank of `x` among them, from zero.
pub open spec fn count_below(s: Set<u32>, x: u32) -> nat {
    s.filter(|y: u32| y < x).len()
}

/// Relies on `RoaringBitmap::new`: the bitmap is empty.
#[verifier::external_body]
pub(crate) fn bitmap_new() -> (r: RoaringBitmap)
    ensures
        bitmap_ids(r) == Set::<u32>::empty(),
{
    RoaringBitmap::new()
}

/// Relies on `RoaringBitmap::from_iter`: the bitmap holds exactly the given ids.
#[verifier::external_body]
pub(crate) fn bitmap_from_ids(ids: &[u32]) -> (r: RoaringBitmap)
    ensures
        bitmap_ids(r) == ids@.to_set(),
{
    RoaringBitmap::from_iter(ids.iter().copied())
}

/// Relies on `RoaringBitmap::push`: `value` is added only when it is greater
/// than every id held, and the result says whether it was.
#[verifier::external_body]
pub(crate) fn bitmap_push(b: &mut RoaringBitmap, value: u32) -> (r: bool)
    ensures
        r == (forall|x: u32| bitmap_ids(*old(b)).contains(x) ==> x < value),
        r ==> bitmap_ids(*final(b)) == bitmap_ids(*old(b)).insert(value),
        !r ==> bitmap_ids(*final(b)) == bitmap_ids(*old(b)),
{
    b.push(value)
}

/// Relies on `RoaringBitmap::insert`: `value` is added, and the result says
/// whether it was absent before.
#[verifier::external_body]
pub(crate) fn bitmap_insert(b: &mut RoaringBitmap, value: u32) -> (r: bool)
    ensures
        r == !bitmap_ids(*old(b)).contains(value),
        bitmap_ids(*final(b)) == bitmap_ids(*old(b)).insert(value),
{
    b.insert(value)
}

/// Relies on `RoaringBitmap::contains`.
#[verifier::external_body]
pub(crate) fn bitmap_contains(b: &RoaringBitmap, value: u32) -> (r: bool)
    ensures
        r == bitmap_ids(*b).contains(value),
{
    b.contains(value)
}

/// Relies on `RoaringBitmap::len`: the number of ids held.
#[verifier::external_body]
pub(crate) fn bitmap_len(b: &RoaringBitmap) -> (r: u64)
    ensures
        r == bitmap_ids(*b).len(),
{
    b.len()
}

/// Relies on `RoaringBitmap::rank`: the number of ids held that are at most `value`.
#[verifier::external_body]
pub(crate) fn bitmap_rank(b: &RoaringBitmap, value: u32) -> (r: u64)
    ensures
        r == bitmap_ids(*b).filter(|y: u32| y <= value).len(),
{
    b.rank(value)
}

/// Relies on `RoaringBitmap::select`: the `n`-th smallest id, counting from
/// zero, or `None` when `n` is not below the number of ids held.
#[verifier::external_body]
pub(crate) fn bitmap_select(b: &RoaringBitmap, n: u32) -> (r: Option<u32>)
    ensures
        r is None <==> n >= bitmap_ids(*b).len(),
        r matches Some(x) ==> bitmap_ids(*b).contains(x) && count_below(bitmap_ids(*b), x) == n,
{
    b.select(n)
}

} // verus!
