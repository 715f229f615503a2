//! Small inline buffers of record indices.
//!
//! A timestamp usually maps to very few records, so the per-timestamp
//! record lists are kept in `smallvec::SmallVec` buffers that store up to
//! four indices inline before spilling to the heap.  The buffer is held in
//! an opaque struct; [`rec_list`] names its contents, and the wrappers
//! below state what each operation does to them.

use vstd::prelude::*;

use smallvec::SmallVec;

verus! {

/// A small buffer of record indices, backed by `smallvec::SmallVec` with
/// room for four indices inline.  Opaque to the verifier: its contents are
/// reachable only through [`rec_list`].
#[verifier::external_body]
pub struct RecBuf {
    inner: SmallVec<[u64; 4]>,
}

/// The record indices held by a small buffer, in order.
pub uninterp spec fn rec_list(v: RecBuf) -> Seq<u64>;

impl RecBuf {
    /// Relies on SmallVec::new: the new buffer is empty.
    #[verifier::external_body]
    pub fn new() -> (r: RecBuf)
        ensures
            rec_list(r) == Seq::<u64>::empty(),
    {
        RecBuf { inner: SmallVec::new() }
    }

    /// Relies on SmallVec::push: the value is appended at the end.
    #[verifier::external_body]
    pub fn push(&mut self, x: u64)
        requires
            rec_list(*old(self)).len() < usize::MAX,
        ensures
            rec_list(*final(self)) == rec_list(*old(self)).push(x),
    {
        self.inner.push(x)
    }

    /// Relies on SmallVec::len: the number of stored items.
    #[verifier::external_body]
    pub fn len(&self) -> (n: usize)
        ensures
            n == rec_list(*self).len(),
    {
        self.inner.len()
    }

    /// Relies on SmallVec's Index impl: the item at position `i`.
    #[verifier::external_body]
    pub fn get(&self, i: usize) -> (r: u64)
        requires
            i < rec_list(*self).len(),
        ensures
            r == rec_list(*self)[i as int],
    {
        self.inner[i]
    }

    /// Relies on SmallVec's Clone impl, which copies the items in order.
    #[verifier::external_body]
    pub fn dup(&self) -> (r: RecBuf)
        ensures
            rec_list(r) == rec_list(*self),
    {
        RecBuf { inner: self.inner.clone() }
    }
}

} // verus!
