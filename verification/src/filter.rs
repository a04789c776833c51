//! Restricting a search to the ids of a bitmap.
use roaring::RoaringBitmap;
use vstd::prelude::*;

verus! {

/// `roaring::RoaringBitmap`, a compressed set of `u32`.
#[verifier::external_type_specification]
#[verifier::external_body]
pub struct ExRoaringBitmap(roaring::RoaringBitmap);

/// The numbers that a bitmap contains.
pub uninterp spec fn bitmap_ids(bitmap: RoaringBitmap) -> Set<u32>;

/// Calls `RoaringBitmap::contains`. The contract claims that it answers whether the number is
/// one of those that the bitmap contains.
#[verifier::external_body]
fn bitmap_contains(bitmap: &RoaringBitmap, value: u32) -> (r: bool)
    ensures
        r == bitmap_ids(*bitmap).contains(value),
{
    bitmap.contains(value)
}

/// The numbers that a filter lets through, or `None` where everything passes.
pub open spec fn filter_ids(filter: Option<&RoaringBitmap>) -> Option<Set<u32>> {
    match filter {
        Some(bitmap) => Some(bitmap_ids(*bitmap)),
        None => None,
    }
}

/// Whether a vector id passes: it is one of the numbers. Bitmaps hold 32-bit numbers, so no larger
/// id is.
pub open spec fn passes(ids: Option<Set<u32>>, id: u64) -> bool {
    match ids {
        Some(ids) => id <= u32::MAX && ids.contains(id as u32),
        None => true,
    }
}

/// Whether a vector id passes the filter.
pub fn admits(filter: Option<&RoaringBitmap>, id: u64) -> (r: bool)
    ensures
        r == passes(filter_ids(filter), id),
        filter matches Some(bitmap) ==> (r <==> id < 0x1_0000_0000 && bitmap_ids(
            *bitmap,
        ).contains(id as u32)),
        filter is None ==> r,
{
    match filter {
        Some(bitmap) => id <= u32::MAX as u64 && bitmap_contains(bitmap, id as u32),
        None => true,
    }
}

/// A filter lets through exactly what its bitmap contains: every 32-bit id by whether the bitmap has
/// it, no larger id, and without a bitmap everything.
pub proof fn law_filter_is_membership(bitmap: &RoaringBitmap, id: u64)
    ensures
        id < 0x1_0000_0000 ==> (passes(filter_ids(Some(bitmap)), id) <==> bitmap_ids(
            *bitmap,
        ).contains(id as u32)),
        id >= 0x1_0000_0000 ==> !passes(filter_ids(Some(bitmap)), id),
        passes(filter_ids(None), id),
{
}

} // verus!
