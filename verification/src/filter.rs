//! Id sets over compressed roaring bitmaps.
//!
//! The `roaring` crate supplies the bitmap itself; this module declares it,
//! names its contents as a set of 32-bit ids, and wraps the few operations the
//! database needs. `IdFilter` is the library's id-restriction value, handed to
//! a vector index so that only chosen ids may appear in a search result.
//! Ids are 64-bit elsewhere in the database while a roaring bitmap holds
//! 32-bit values, so entry into a filter truncates: the id space served by
//! attribute filtering is capped at 2^32.

use vstd::prelude::*;

verus! {

/// Declares roaring's bitmap so that it can stand in signatures and fields.
#[verifier::external_type_specification]
#[verifier::external_body]
pub struct ExRoaringBitmap(roaring::RoaringBitmap);

/// The set of ids a roaring bitmap holds.
pub uninterp spec fn bitmap_ids(b: roaring::RoaringBitmap) -> Set<u32>;

/// Relies on roaring::RoaringBitmap::new: the fresh bitmap holds nothing.
#[verifier::external_body]
pub(crate) fn bitmap_new() -> (r: roaring::RoaringBitmap)
    ensures
        bitmap_ids(r) == Set::<u32>::empty(),
{
    roaring::RoaringBitmap::new()
}

/// Relies on roaring::RoaringBitmap::insert: afterwards the bitmap holds the
/// value and everything it held before; the result says whether the value was
/// new.
#[verifier::external_body]
pub(crate) fn bitmap_insert(b: &mut roaring::RoaringBitmap, value: u32) -> (r: bool)
    ensures
        bitmap_ids(*final(b)) == bitmap_ids(*old(b)).insert(value),
        r == !bitmap_ids(*old(b)).contains(value),
{
    b.insert(value)
}

/// Relies on roaring::RoaringBitmap::contains.
#[verifier::external_body]
pub(crate) fn bitmap_contains(b: &roaring::RoaringBitmap, value: u32) -> (r: bool)
    ensures
        r == bitmap_ids(*b).contains(value),
{
    b.contains(value)
}

/// Relies on the BitOr impl for &RoaringBitmap: the union of the two sets.
#[verifier::external_body]
pub(crate) fn bitmap_union(a: &roaring::RoaringBitmap, b: &roaring::RoaringBitmap) -> (r:
    roaring::RoaringBitmap)
    ensures
        bitmap_ids(r) == bitmap_ids(*a).union(bitmap_ids(*b)),
{
    a | b
}

/// Relies on the Clone impl of roaring::RoaringBitmap: the copy holds the same
/// ids.
#[verifier::external_body]
pub(crate) fn bitmap_clone(b: &roaring::RoaringBitmap) -> (r: roaring::RoaringBitmap)
    ensures
        bitmap_ids(r) == bitmap_ids(*b),
{
    b.clone()
}

/// A set of vector ids, used to restrict a search to chosen ids.
pub struct IdFilter(roaring::RoaringBitmap);

impl IdFilter {
    /// The ids this filter admits.
    pub closed spec fn ids(&self) -> Set<u32> {
        bitmap_ids(self.0)
    }

    pub fn new() -> (r: Self)
        ensures
            r.ids() == Set::<u32>::empty(),
    {
        IdFilter(bitmap_new())
    }

    /// Wraps an already-composed bitmap as a filter.
    pub fn from(bitmap: roaring::RoaringBitmap) -> (r: Self)
        ensures
            r.ids() == bitmap_ids(bitmap),
    {
        IdFilter(bitmap)
    }

    pub fn add(&mut self, id: u64)
        ensures
            final(self).ids() == old(self).ids().insert(id as u32),
    {
        bitmap_insert(&mut self.0, id as u32);
    }

    pub fn add_all(&mut self, ids: &[u64])
        ensures
            final(self).ids() == old(self).ids().union(
                Set::new(|v: u32| exists|i: int| 0 <= i < ids@.len() && v == ids@[i] as u32),
            ),
    {
        let ghost orig = self.ids();
        let mut i: usize = 0;
        while i < ids.len()
            invariant
                0 <= i <= ids@.len(),
                self.ids() == orig.union(
                    Set::new(
                        |v: u32| exists|j: int| 0 <= j < i && v == ids@[j] as u32,
                    ),
                ),
            decreases ids@.len() - i,
        {
            self.add(ids[i]);
            i = i + 1;
            proof {
                assert(self.ids() =~= orig.union(
                    Set::new(|v: u32| exists|j: int| 0 <= j < i && v == ids@[j] as u32),
                ));
            }
        }
    }

    /// A copy admitting the same ids.
    pub fn clone_filter(&self) -> (r: Self)
        ensures
            r.ids() == self.ids(),
    {
        IdFilter(bitmap_clone(&self.0))
    }

    /// Whether the filter admits the given id.
    pub fn filter(&self, id: &u64) -> (r: bool)
        ensures
            r == self.ids().contains(*id as u32),
    {
        bitmap_contains(&self.0, *id as u32)
    }
}

} // verus!
