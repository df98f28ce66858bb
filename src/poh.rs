//! The Proof of History state: a digest that advances by plain hashing or by
//! mixing in another digest, and a count of the hashes since the last record.

use crate::hash::{hash_steps, mix, sha256_of, tick_marker};
use vstd::prelude::*;

verus! {

/// The hash chain's current digest and the hashes applied since the last
/// record or tick.
pub struct Poh {
    pub id: crate::hash::Hash,
    pub num_hashes: u64,
}

/// What a tick or a record leaves: the digest reached and the hashes that
/// led to it since the one before.
pub struct PohEntry {
    pub num_hashes: u64,
    pub id: crate::hash::Hash,
}

impl Poh {
    /// A chain at `seed` with `num_hashes` hashes counted.
    pub fn new(seed: crate::hash::Hash, num_hashes: u64) -> (r: Poh)
        ensures
            r.id == seed,
            r.num_hashes == num_hashes,
    {
        Poh { id: seed, num_hashes }
    }

    /// One plain hashing step.
    pub fn hash(&mut self)
        requires
            old(self).num_hashes < u64::MAX,
        ensures
            final(self).id@ == sha256_of(old(self).id@),
            final(self).num_hashes == old(self).num_hashes + 1,
    {
        self.id = self.id.rehashed();
        self.num_hashes = self.num_hashes + 1;
    }

    /// `n` plain hashing steps.
    pub fn hash_n(&mut self, n: u64)
        requires
            old(self).num_hashes + n <= u64::MAX,
        ensures
            final(self).id@ == hash_steps(old(self).id@, n as nat),
            final(self).num_hashes == old(self).num_hashes + n,
    {
        let mut i: u64 = 0;
        while i < n
            invariant
                i <= n,
                self.id@ == hash_steps(old(self).id@, i as nat),
                self.num_hashes == old(self).num_hashes + i,
                old(self).num_hashes + n <= u64::MAX,
            decreases n - i,
        {
            self.hash();
            i = i + 1;
        }
    }

    /// Mixes `mixin` into the chain and hands out the digest reached and the
    /// hashes counted, this step included; the count starts again at zero.
    pub fn record(&mut self, mixin: &crate::hash::Hash) -> (r: PohEntry)
        requires
            old(self).num_hashes < u64::MAX,
        ensures
            r.id@ == mix(old(self).id@, mixin@),
            r.num_hashes == old(self).num_hashes + 1,
            final(self).id == r.id,
            final(self).num_hashes == 0,
    {
        let id = self.id.mixed_with(mixin);
        let num_hashes = self.num_hashes + 1;
        self.id = id;
        self.num_hashes = 0;
        PohEntry { num_hashes, id }
    }

    /// A record of the tick marker.
    pub fn tick(&mut self) -> (r: PohEntry)
        requires
            old(self).num_hashes < u64::MAX,
        ensures
            r.id@ == mix(old(self).id@, tick_marker()),
            r.num_hashes == old(self).num_hashes + 1,
            final(self).id == r.id,
            final(self).num_hashes == 0,
    {
        let marker = crate::hash::Hash::zero();
        self.record(&marker)
    }
}

} // verus!
