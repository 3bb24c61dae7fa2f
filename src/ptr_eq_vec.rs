//! One longest common subsequence as a list of element pairs, for the enumeration in
//! `Subsequence`. Results are told apart by the positions they use, which the enumeration
//! tracks, never by the values of their elements.
use vstd::prelude::*;

verus! {

/// A list of `(elem_a, elem_b)` pairs that borrow from the two input sequences.
pub struct PtrEqVecPair<'a, T> {
    pub inner: Vec<(&'a T, &'a T)>,
}

impl<'a, T> PtrEqVecPair<'a, T> {
    /// An empty list of pairs.
    pub fn new() -> (r: PtrEqVecPair<'a, T>)
        ensures
            r.inner@.len() == 0,
    {
        PtrEqVecPair { inner: Vec::new() }
    }

    /// The pairs, given up by the wrapper.
    pub fn unpack(self) -> (r: Vec<(&'a T, &'a T)>)
        ensures
            r == self.inner,
    {
        self.inner
    }
}

} // verus!
