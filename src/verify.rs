//! Checking a run of entries against the id it starts from: in order, one
//! entry after another, or on a worker pool, every entry at once against the
//! id recorded in the entry before it.

use crate::entry::{chain_verifies, prev_id, verifies, Entry};
use rayon::iter::{IndexedParallelIterator, IntoParallelRefIterator, ParallelIterator};
use vstd::prelude::*;

verus! {

/// Whether `entries` check out walking them in order: the first against
/// `start`, each later one against the id of the one before.
pub open spec fn verifies_in_order(entries: Seq<Entry>, start: Seq<u8>) -> bool
    decreases entries.len(),
{
    if entries.len() == 0 {
        true
    } else {
        verifies(entries[0], start) && verifies_in_order(entries.drop_first(), entries[0].id@)
    }
}

/// Checking the entries one after another and checking every pair on its
/// own give the same answer.
pub proof fn lemma_in_order_is_pairwise(entries: Seq<Entry>, start: Seq<u8>)
    ensures
        verifies_in_order(entries, start) == chain_verifies(entries, start),
    decreases entries.len(),
{
    if entries.len() > 0 {
        let rest = entries.drop_first();
        lemma_in_order_is_pairwise(rest, entries[0].id@);
        if chain_verifies(entries, start) {
            assert forall|i: int| 0 <= i < rest.len() implies #[trigger] verifies(
                rest[i],
                prev_id(rest, entries[0].id@, i),
            ) by {
                assert(verifies(entries[i + 1], prev_id(entries, start, i + 1)));
            }
            assert(verifies(entries[0], prev_id(entries, start, 0)));
        }
        if verifies_in_order(entries, start) {
            assert forall|i: int| 0 <= i < entries.len() implies #[trigger] verifies(
                entries[i],
                prev_id(entries, start, i),
            ) by {
                if i > 0 {
                    assert(verifies(rest[i - 1], prev_id(rest, entries[0].id@, i - 1)));
                }
            }
        }
    }
}

/// The id that each entry of `entries` follows: `start` for the first, the
/// recorded id of the entry before for each later one.
fn predecessor_ids(entries: &[Entry], start_hash: &crate::hash::Hash) -> (r: Vec<
    crate::hash::Hash,
>)
    ensures
        r@.len() == entries@.len(),
        forall|i: int| 0 <= i < entries@.len() ==> (#[trigger] r@[i])@ == prev_id(entries@, start_hash@, i),
{
    let mut prevs: Vec<crate::hash::Hash> = Vec::new();
    let mut i: usize = 0;
    while i < entries.len()
        invariant
            i <= entries@.len(),
            prevs@.len() == i,
            forall|j: int| 0 <= j < i ==> (#[trigger] prevs@[j])@ == prev_id(entries@, start_hash@, j),
        decreases entries@.len() - i,
    {
        if i == 0 {
            prevs.push(*start_hash);
        } else {
            prevs.push(entries[i - 1].id);
        }
        i = i + 1;
    }
    prevs
}

/// Relies on rayon's `ParallelIterator::all` over the zipped entries and
/// predecessor ids: true exactly when `Entry::verify` holds of every pair.
#[verifier::external_body]
fn all_pairs_verify(entries: &[Entry], prevs: &[crate::hash::Hash]) -> (r: bool)
    requires
        entries@.len() == prevs@.len(),
    ensures
        r == forall|i: int| 0 <= i < entries@.len() ==> #[trigger] verifies(entries@[i], prevs@[i]@),
{
    entries.par_iter().zip(prevs.par_iter()).all(|(e, p)| e.verify(p))
}

/// Checks `entries` against `start_hash` on a worker pool: every entry
/// against the id recorded in the entry before it, all at once.
pub fn verify_entries(entries: &[Entry], start_hash: &crate::hash::Hash) -> (r: bool)
    ensures
        r == chain_verifies(entries@, start_hash@),
{
    let prevs = predecessor_ids(entries, start_hash);
    let r = all_pairs_verify(entries, prevs.as_slice());
    proof {
        if r {
            assert forall|i: int| 0 <= i < entries@.len() implies #[trigger] verifies(
                entries@[i],
                prev_id(entries@, start_hash@, i),
            ) by {
                assert(verifies(entries@[i], prevs@[i]@));
            }
        } else {
            let i = choose|i: int| 0 <= i < entries@.len() && !#[trigger] verifies(entries@[i], prevs@[i]@);
            assert(!verifies(entries@[i], prev_id(entries@, start_hash@, i)));
        }
    }
    r
}

/// Checks `entries` against `start_hash` one after another, stopping at the
/// first that does not follow the one before.
pub fn verify_entries_in_order(entries: &[Entry], start_hash: &crate::hash::Hash) -> (r: bool)
    ensures
        r == verifies_in_order(entries@, start_hash@),
{
    proof {
        lemma_in_order_is_pairwise(entries@, start_hash@);
    }
    let mut prev = *start_hash;
    let mut i: usize = 0;
    while i < entries.len()
        invariant
            i <= entries@.len(),
            prev@ == prev_id(entries@, start_hash@, i as int),
            forall|j: int| 0 <= j < i ==> #[trigger] verifies(entries@[j], prev_id(entries@, start_hash@, j)),
        decreases entries@.len() - i,
    {
        if !entries[i].verify(&prev) {
            proof {
                assert(!verifies(entries@[i as int], prev_id(entries@, start_hash@, i as int)));
                lemma_in_order_is_pairwise(entries@, start_hash@);
            }
            return false;
        }
        prev = entries[i].id;
        i = i + 1;
    }
    true
}

/// Checking on a worker pool and checking in order agree on every run.
pub proof fn lemma_parallel_matches_in_order(entries: Seq<Entry>, start: Seq<u8>)
    ensures
        chain_verifies(entries, start) == verifies_in_order(entries, start),
{
    lemma_in_order_is_pairwise(entries, start);
}

} // verus!
