//! The buckets of the grid: smallvec's `SmallVec` of `(key, emit mask bits)` pairs.

use smallvec::SmallVec;
use vstd::prelude::*;

verus! {

/// A bucket: the signals filed under one tile, each with the mask it emits.
/// (Held in a `SmallVec` that Verus does not read, so every use goes through the
/// functions below.)
#[verifier::external_body]
pub struct Bucket {
    items: SmallVec<[(u64, u64); 4]>,
}

/// The entries of a bucket, in order.
pub uninterp spec fn bucket_items(b: Bucket) -> Seq<(u64, u64)>;

/// `SmallVec::new`: claimed to return an empty bucket.
#[verifier::external_body]
pub(crate) fn bucket_new() -> (b: Bucket)
    ensures
        bucket_items(b) == Seq::<(u64, u64)>::empty(),
{
    Bucket { items: SmallVec::new() }
}

/// `SmallVec::len`: claimed to return the number of entries.
#[verifier::external_body]
pub(crate) fn bucket_len(b: &Bucket) -> (n: usize)
    ensures
        n == bucket_items(*b).len(),
{
    b.items.len()
}

/// Indexing a `SmallVec` (`Index::index`), copied out: claimed to return entry `i`.
#[verifier::external_body]
pub(crate) fn bucket_get(b: &Bucket, i: usize) -> (e: (u64, u64))
    requires
        i < bucket_items(*b).len(),
    ensures
        e == bucket_items(*b)[i as int],
{
    b.items[i]
}

/// `SmallVec::push`: claimed to append `e` as the last entry.
#[verifier::external_body]
pub(crate) fn bucket_push(b: &mut Bucket, e: (u64, u64))
    requires
        bucket_items(*old(b)).len() < usize::MAX,
    ensures
        bucket_items(*final(b)) == bucket_items(*old(b)).push(e),
{
    b.items.push(e)
}

/// `SmallVec::swap_remove`: claimed to return entry `i` and to put the last entry
/// in its place, so that the bucket is one entry shorter.
#[verifier::external_body]
pub(crate) fn bucket_swap_remove(b: &mut Bucket, i: usize) -> (e: (u64, u64))
    requires
        i < bucket_items(*old(b)).len(),
    ensures
        e == bucket_items(*old(b))[i as int],
        bucket_items(*final(b)) == bucket_items(*old(b)).update(
            i as int,
            bucket_items(*old(b)).last(),
        ).drop_last(),
{
    b.items.swap_remove(i)
}

} // verus!
