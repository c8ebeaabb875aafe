//! The cache-size seed shared by the storage caches.

use vstd::prelude::*;

verus! {

/// A byte budget for a cache, passed to the stores that allocate from it.
#[derive(Debug, Clone, Copy)]
pub struct SharedCache {
    max_size_b: usize,
}

impl View for SharedCache {
    type V = usize;

    closed spec fn view(&self) -> usize {
        self.max_size_b
    }
}

impl SharedCache {
    /// Creates a cache budget of at most `max_size_b` bytes.
    pub fn new(max_size_b: usize) -> (r: Self)
        ensures
            r@ == max_size_b,
    {
        SharedCache { max_size_b }
    }

    /// Returns the byte budget a store should size itself to.
    pub fn max_size_b(&self) -> (r: usize)
        ensures
            r == self@,
    {
        self.max_size_b
    }
}

} // verus!
