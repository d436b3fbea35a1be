//! A small index buffer for query match sets.
//!
//! Query answers collect a handful of entry indices and sort them back
//! into insertion order.  The match set of a single key is usually tiny,
//! so the buffer is backed by `smallvec::SmallVec`, which keeps up to two
//! indices inline and spills to the heap only beyond that.  Verus cannot
//! read the collection itself, so it is held in an opaque struct whose
//! contents are named by [`index_buf_seq`] and described by the contracts
//! of the accessors below.

use smallvec::ToSmallVec;
use vstd::prelude::*;

verus! {

/// An opaque buffer of entry indices, backed by `smallvec::SmallVec`.
#[verifier::external_body]
pub struct IndexBuf {
    inner: smallvec::SmallVec<[usize; 2]>,
}

/// The elements the buffer holds, in order.
pub uninterp spec fn index_buf_seq(b: IndexBuf) -> Seq<usize>;

/// Relies on `smallvec::ToSmallVec::to_smallvec`: the new vector holds
/// the slice's elements in order.
#[verifier::external_body]
pub(crate) fn index_buf_from(xs: &[usize]) -> (b: IndexBuf)
    ensures
        index_buf_seq(b) == xs@,
{
    IndexBuf { inner: xs.to_smallvec() }
}

/// Relies on `<[usize]>::sort_unstable`, reached through SmallVec's
/// `DerefMut`: it sorts the elements in place, keeping the same multiset.
#[verifier::external_body]
pub(crate) fn index_buf_sort(b: &mut IndexBuf)
    ensures
        index_buf_seq(*final(b)).to_multiset() == index_buf_seq(*old(b)).to_multiset(),
        index_buf_seq(*final(b)).len() == index_buf_seq(*old(b)).len(),
        forall|i: int, j: int|
            0 <= i < j < index_buf_seq(*final(b)).len() ==> index_buf_seq(*final(b))[i]
                <= index_buf_seq(*final(b))[j],
{
    b.inner.sort_unstable();
}

/// Relies on SmallVec's `len`.
#[verifier::external_body]
pub(crate) fn index_buf_len(b: &IndexBuf) -> (n: usize)
    ensures
        n == index_buf_seq(*b).len(),
{
    b.inner.len()
}

/// Relies on SmallVec's `Index` for a single position.
#[verifier::external_body]
pub(crate) fn index_buf_get(b: &IndexBuf, i: usize) -> (r: usize)
    requires
        i < index_buf_seq(*b).len(),
    ensures
        r == index_buf_seq(*b)[i as int],
{
    b.inner[i]
}

} // verus!
