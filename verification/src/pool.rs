//! Hashing for the string pool: entries carry a hash computed once, which
//! the pool's map takes as it is.

use vstd::prelude::*;

verus! {

/// A hasher that passes through the one 64-bit hash written to it.
#[derive(Debug, Default, Clone, Copy)]
pub struct IdentityHasher(u64);

impl IdentityHasher {
    /// The hash held.
    pub closed spec fn held(&self) -> u64 {
        self.0
    }

    /// A hasher holding `0`, as a fresh default one does.
    pub fn new() -> (r: IdentityHasher)
        ensures
            r.held() == 0,
    {
        IdentityHasher(0)
    }

    /// Takes `id` as the hash, replacing what was held.
    pub fn write_u64(&mut self, id: u64)
        ensures
            final(self).held() == id,
    {
        self.0 = id;
    }

    /// The hash: the last value written.
    pub fn finish(&self) -> (r: u64)
        ensures
            r == self.held(),
    {
        self.0
    }
}

} // verus!
