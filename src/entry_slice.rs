//! Operations on a run of entries.

use crate::blob::{entry_wire, payload, Blob};
use crate::entry::{chain_verifies, fits, Entry};
use vstd::prelude::*;

verus! {

/// A run of entries that can be checked against the id it starts from and
/// framed into blobs.
pub trait EntrySlice {
    /// The entries of the run.
    spec fn entries(&self) -> Seq<Entry>;

    /// Whether each entry follows the one before it, the first following
    /// `start_hash`; the entries are checked on a worker pool.
    fn verify(&self, start_hash: &crate::hash::Hash) -> (r: bool)
        ensures
            r == chain_verifies(self.entries(), start_hash@),
    ;

    /// Each entry framed in a blob of its own.
    fn to_blobs(&self) -> (r: Vec<Blob>)
        requires
            forall|i: int|
                0 <= i < self.entries().len() ==> #[trigger] fits(self.entries()[i].transactions@),
        ensures
            r@.len() == self.entries().len(),
            forall|i: int|
                0 <= i < self.entries().len() ==> #[trigger] payload(r@[i]) == Some(
                    entry_wire(self.entries()[i]),
                ),
    ;
}

impl EntrySlice for [Entry] {
    open spec fn entries(&self) -> Seq<Entry> {
        self@
    }

    fn verify(&self, start_hash: &crate::hash::Hash) -> (r: bool) {
        crate::verify::verify_entries(self, start_hash)
    }

    fn to_blobs(&self) -> (r: Vec<Blob>) {
        assert(self.entries() == self@);
        assert(forall|i: int| 0 <= i < self@.len() ==> #[trigger] fits(self@[i].transactions@));
        crate::blob::to_blobs(self)
    }
}

} // verus!
