//! Buckets of build-side row indices, kept in a `smallvec::SmallVec`
//! so that the common single-match bucket needs no heap allocation.
//! Verus cannot declare `SmallVec` itself (its generic parameter is
//! bound by smallvec's `Array` trait), so the vector sits in a hidden
//! field and is reached only through the trusted items below.

use vstd::prelude::*;

verus! {

/// A bucket of build-side row indices.
#[verifier::external_body]
pub struct RowBucket {
    inner: smallvec::SmallVec<[u64; 1]>,
}

/// The row indices a bucket holds, in insertion order.
pub uninterp spec fn bucket_rows(b: RowBucket) -> Seq<u64>;

/// Relies on `smallvec::SmallVec::new`: the new vector is empty.
#[verifier::external_body]
pub fn bucket_new() -> (r: RowBucket)
    ensures
        bucket_rows(r) == Seq::<u64>::empty(),
{
    RowBucket { inner: smallvec::SmallVec::new() }
}

/// Relies on `smallvec::SmallVec::push`: the element is appended.
#[verifier::external_body]
pub fn bucket_push(b: &mut RowBucket, row: u64)
    ensures
        bucket_rows(*final(b)) == bucket_rows(*old(b)).push(row),
{
    b.inner.push(row)
}

/// Relies on `smallvec::SmallVec::len`: the number of elements.
#[verifier::external_body]
pub fn bucket_len(b: &RowBucket) -> (n: usize)
    ensures
        n == bucket_rows(*b).len(),
{
    b.inner.len()
}

/// Relies on `SmallVec`'s `Index` impl: the `i`-th element pushed.
#[verifier::external_body]
pub fn bucket_get(b: &RowBucket, i: usize) -> (row: u64)
    requires
        i < bucket_rows(*b).len(),
    ensures
        row == bucket_rows(*b)[i as int],
{
    b.inner[i]
}

} // verus!
