//! The ledger's record: an entry carries the hashes counted since its
//! predecessor, the digest they reached, and the transactions mixed in last.

use crate::hash::{hash_steps, mix, sha256_of, tick_marker};
use crate::poh::Poh;
use crate::transaction::{batch_digest, Transaction};
use vstd::prelude::*;

verus! {

/// Payload bytes that one network record holds.
pub const BLOB_DATA_SIZE: usize = 65280;

/// Bytes an entry takes before its transactions: tick height, hash count,
/// id, and the transaction count.
pub const ENTRY_HEADER_SIZE: usize = 56;

/// Bytes that the wire forms of `txs` take together.
pub open spec fn txs_size(txs: Seq<Transaction>) -> nat
    decreases txs.len(),
{
    if txs.len() == 0 {
        0
    } else {
        txs_size(txs.drop_last()) + txs.last()@.len()
    }
}

/// Bytes that an entry holding `txs` takes on the wire.
pub open spec fn entry_size(txs: Seq<Transaction>) -> nat {
    (ENTRY_HEADER_SIZE + txs_size(txs)) as nat
}

/// Whether an entry holding `txs` fits in one network record.
pub open spec fn fits(txs: Seq<Transaction>) -> bool {
    entry_size(txs) <= BLOB_DATA_SIZE
}

/// The id that follows `start` after `num_hashes` hashes ending in a mix of
/// `txs` (or of the tick marker where there are none). No hashes and no
/// transactions leave `start` as it is; transactions with no hashes count
/// as one hash, the mix.
pub open spec fn next_id(start: Seq<u8>, num_hashes: nat, txs: Seq<Transaction>) -> Seq<u8> {
    if num_hashes == 0 && txs.len() == 0 {
        start
    } else {
        let plain: nat = if num_hashes > 0 {
            (num_hashes - 1) as nat
        } else {
            0
        };
        let base = hash_steps(start, plain);
        if txs.len() == 0 {
            mix(base, tick_marker())
        } else {
            mix(base, batch_digest(txs))
        }
    }
}

/// The hash count that an entry records when asked for `num_hashes` with
/// `txs`: one at least, where there are transactions to mix in.
pub open spec fn recorded_hashes(num_hashes: nat, txs: Seq<Transaction>) -> nat {
    if num_hashes == 0 && txs.len() > 0 {
        1
    } else {
        num_hashes
    }
}

/// One record of the ledger.
#[derive(Clone, Debug, PartialEq, Eq)]
pub struct Entry {
    /// Tick height of the ledger, not counting a tick that this entry is.
    pub tick_height: u64,
    /// Hashes since the previous entry's id.
    pub num_hashes: u64,
    /// The digest `num_hashes` hashes after the previous entry's id.
    pub id: crate::hash::Hash,
    /// Transactions mixed into the last hash; none for a tick.
    pub transactions: Vec<Transaction>,
}

/// Whether `e` follows an entry whose id is `prev`.
pub open spec fn verifies(e: Entry, prev: Seq<u8>) -> bool {
    e.id@ == next_id(prev, e.num_hashes as nat, e.transactions@)
}

/// The id that entry `i` of `entries` follows: `start` for the first.
pub open spec fn prev_id(entries: Seq<Entry>, start: Seq<u8>, i: int) -> Seq<u8> {
    if i == 0 {
        start
    } else {
        entries[i - 1].id@
    }
}

/// Whether each entry of `entries` follows the one before it, the first
/// following `start`.
pub open spec fn chain_verifies(entries: Seq<Entry>, start: Seq<u8>) -> bool {
    forall|i: int| 0 <= i < entries.len() ==> #[trigger] verifies(entries[i], prev_id(entries, start, i))
}

/// The transactions of `entries`, entry after entry.
pub open spec fn entry_transactions(entries: Seq<Entry>) -> Seq<Transaction>
    decreases entries.len(),
{
    if entries.len() == 0 {
        Seq::empty()
    } else {
        entry_transactions(entries.drop_last()) + entries.last().transactions@
    }
}

/// Whether no entry of `entries` could have taken the first transaction of
/// the entry after it.
pub open spec fn packed_tight(entries: Seq<Entry>) -> bool {
    forall|i: int|
        0 <= i < entries.len() - 1 ==> !fits(
            #[trigger] entries[i].transactions@.push(entries[i + 1].transactions@[0]),
        )
}

/// Whether every transaction of `txs` fits in an entry of its own.
pub open spec fn each_fits(txs: Seq<Transaction>) -> bool {
    forall|i: int| 0 <= i < txs.len() ==> #[trigger] fits(seq![txs[i]])
}

/// The hash `num_hashes` after `start`, the last one mixing in `txs` or the
/// tick marker.
pub fn next_hash(start: &crate::hash::Hash, num_hashes: u64, transactions: &[Transaction]) -> (r:
    crate::hash::Hash)
    ensures
        r@ == next_id(start@, num_hashes as nat, transactions@),
{
    if num_hashes == 0 && transactions.len() == 0 {
        return *start;
    }
    let mut poh = Poh::new(*start, 0);
    if num_hashes > 1 {
        poh.hash_n(num_hashes - 1);
    }
    if transactions.len() == 0 {
        poh.tick().id
    } else {
        let mixin = Transaction::hash(transactions);
        poh.record(&mixin).id
    }
}

/// Lengthening a run of transactions never shrinks its size.
pub proof fn lemma_txs_size_prefix(txs: Seq<Transaction>, i: int, j: int)
    requires
        0 <= i <= j <= txs.len(),
    ensures
        txs_size(txs.subrange(0, i)) <= txs_size(txs.subrange(0, j)),
    decreases j - i,
{
    if i < j {
        lemma_txs_size_prefix(txs, i, j - 1);
        assert(txs.subrange(0, j).drop_last() =~= txs.subrange(0, j - 1));
    }
}

impl Entry {
    /// The entry `num_hashes` after `prev_id` holding `transactions`. With no
    /// hashes and no transactions it keeps `prev_id`; with transactions and
    /// no hashes it records one hash, the mix.
    pub fn new(
        prev_id: &crate::hash::Hash,
        tick_height: u64,
        num_hashes: u64,
        transactions: Vec<Transaction>,
    ) -> (r: Entry)
        requires
            fits(transactions@),
        ensures
            r.tick_height == tick_height,
            r.num_hashes == recorded_hashes(num_hashes as nat, transactions@),
            r.id@ == next_id(prev_id@, num_hashes as nat, transactions@),
            r.transactions@ == transactions@,
            verifies(r, prev_id@),
    {
        if num_hashes == 0 && transactions.len() == 0 {
            Entry { tick_height, num_hashes: 0, id: *prev_id, transactions }
        } else if num_hashes == 0 {
            let id = next_hash(prev_id, 1, transactions.as_slice());
            Entry { tick_height, num_hashes: 1, id, transactions }
        } else {
            let id = next_hash(prev_id, num_hashes, transactions.as_slice());
            Entry { tick_height, num_hashes, id, transactions }
        }
    }

    /// Bytes that an entry holding `transactions` takes on the wire, or
    /// `u64::MAX` where that does not fit in a `u64`.
    pub fn serialized_size(transactions: &[Transaction]) -> (r: u64)
        ensures
            r == if entry_size(transactions@) <= u64::MAX {
                entry_size(transactions@)
            } else {
                u64::MAX as nat
            },
    {
        let mut total: u64 = ENTRY_HEADER_SIZE as u64;
        let mut i: usize = 0;
        while i < transactions.len()
            invariant
                i <= transactions@.len(),
                total == if entry_size(transactions@.subrange(0, i as int)) <= u64::MAX {
                    entry_size(transactions@.subrange(0, i as int))
                } else {
                    u64::MAX as nat
                },
            decreases transactions@.len() - i,
        {
            let n = transactions[i].serialized_size();
            proof {
                let pre = transactions@.subrange(0, i + 1);
                assert(pre.drop_last() =~= transactions@.subrange(0, i as int));
            }
            total = total.saturating_add(n);
            i = i + 1;
        }
        assert(transactions@.subrange(0, transactions@.len() as int) =~= transactions@);
        total
    }

    /// How many of the leading `transactions` one entry can hold: the
    /// largest count whose entry fits in a record, found by bisection from
    /// the whole list down. Where even one does not fit the answer is one.
    pub fn num_will_fit(transactions: &[Transaction]) -> (r: usize)
        ensures
            transactions@.len() == 0 ==> r == 0,
            transactions@.len() > 0 ==> {
                &&& 1 <= r <= transactions@.len()
                &&& fits(transactions@.subrange(0, r as int)) || r == 1
                &&& r < transactions@.len() ==> !fits(transactions@.subrange(0, r + 1))
            },
            forall|k: int|
                r < k <= transactions@.len() ==> !#[trigger] fits(transactions@.subrange(0, k)),
            forall|k: int|
                0 <= k <= r && fits(transactions@.subrange(0, r as int)) ==> #[trigger] fits(
                    transactions@.subrange(0, k),
                ),
    {
        let r = Entry::bisect_fitting(transactions);
        proof {
            let s = transactions@;
            assert forall|k: int| r < k <= s.len() implies !#[trigger] fits(s.subrange(0, k)) by {
                lemma_txs_size_prefix(s, r + 1, k);
            }
            assert forall|k: int|
                0 <= k <= r && fits(s.subrange(0, r as int)) implies #[trigger] fits(
                s.subrange(0, k),
            ) by {
                lemma_txs_size_prefix(s, k, r as int);
            }
        }
        r
    }

    /// The bisection that `num_will_fit` runs: from the whole list down
    /// towards the largest count that fits.
    fn bisect_fitting(transactions: &[Transaction]) -> (r: usize)
        ensures
            transactions@.len() == 0 ==> r == 0,
            transactions@.len() > 0 ==> {
                &&& 1 <= r <= transactions@.len()
                &&& fits(transactions@.subrange(0, r as int)) || r == 1
                &&& r < transactions@.len() ==> !fits(transactions@.subrange(0, r + 1))
            },
    {
        if transactions.len() == 0 {
            return 0;
        }
        let len = transactions.len();
        let ghost s = transactions@;
        let mut num = len;
        let mut upper = len;
        let mut lower: usize = 1;
        loop
            invariant
                s == transactions@,
                len == s.len(),
                1 <= lower <= num <= upper <= len,
                lower == 1 || fits(s.subrange(0, lower as int)),
                upper == num || !fits(s.subrange(0, upper as int)),
                upper == len || !fits(s.subrange(0, upper as int)),
            ensures
                1 <= num <= len,
                fits(s.subrange(0, num as int)) || num == 1,
                num < len ==> !fits(s.subrange(0, num + 1)),
            decreases upper - lower, if num == upper {
                2int
            } else if num == lower {
                1int
            } else {
                0int
            },
        {
            let size = Entry::serialized_size(vstd::slice::slice_subrange(transactions, 0, num));
            let next;
            if size <= BLOB_DATA_SIZE as u64 {
                next = num + (upper - num) / 2;
                lower = num;
            } else {
                next = lower + (num - lower) / 2;
                upper = num;
                proof {
                    if num < len {
                        lemma_txs_size_prefix(s, num as int, num + 1);
                    }
                }
            }
            if next == num {
                break;
            }
            num = next;
        }
        num
    }

    /// Whether this entry follows an entry whose id is `start_hash`.
    pub fn verify(&self, start_hash: &crate::hash::Hash) -> (r: bool)
        ensures
            r == verifies(*self, start_hash@),
    {
        let ref_hash = next_hash(start_hash, self.num_hashes, self.transactions.as_slice());
        ref_hash.same(&self.id)
    }

    /// Whether this entry is a tick: it carries no transactions.
    pub fn is_tick(&self) -> (r: bool)
        ensures
            r == (self.transactions@.len() == 0),
    {
        self.transactions.len() == 0
    }
}

impl Entry {
    /// Like `new` at tick height zero, taking the hash count from
    /// `num_hashes`; then `start_hash` moves to the new id and `num_hashes`
    /// starts again at zero.
    pub fn new_mut(start_hash: &mut crate::hash::Hash, num_hashes: &mut u64, transactions: Vec<
        Transaction,
    >) -> (r: Entry)
        requires
            fits(transactions@),
        ensures
            r.tick_height == 0,
            r.num_hashes == recorded_hashes(*old(num_hashes) as nat, transactions@),
            r.id@ == next_id(old(start_hash)@, *old(num_hashes) as nat, transactions@),
            r.transactions@ == transactions@,
            verifies(r, old(start_hash)@),
            *final(start_hash) == r.id,
            *final(num_hashes) == 0,
    {
        let entry = Entry::new(start_hash, 0, *num_hashes, transactions);
        *start_hash = entry.id;
        *num_hashes = 0;
        entry
    }

    /// A tick with the given fields as they are.
    pub fn new_tick(tick_height: u64, num_hashes: u64, id: &crate::hash::Hash) -> (r: Entry)
        ensures
            r.tick_height == tick_height,
            r.num_hashes == num_hashes,
            r.id == *id,
            r.transactions@.len() == 0,
    {
        Entry { tick_height, num_hashes, id: *id, transactions: Vec::new() }
    }
}

/// The end of the largest run of transactions from `chunk_start` on that
/// fits in one entry, found by bisection from the whole remainder down.
fn fitting_chunk_end(transactions: &[Transaction], chunk_start: usize) -> (r: usize)
    requires
        chunk_start < transactions@.len(),
        fits(seq![transactions@[chunk_start as int]]),
    ensures
        chunk_start < r <= transactions@.len(),
        fits(transactions@.subrange(chunk_start as int, r as int)),
        r < transactions@.len() ==> !fits(transactions@.subrange(chunk_start as int, r + 1)),
{
    let len = transactions.len();
    let ghost s = transactions@;
    let mut chunk_end = len;
    let mut upper = len;
    let mut lower = chunk_start;
    proof {
        assert(s.subrange(chunk_start as int, chunk_start as int) =~= Seq::<Transaction>::empty());
        assert(s.subrange(chunk_start as int, chunk_start + 1) =~= seq![s[chunk_start as int]]);
    }
    loop
        invariant
            s == transactions@,
            len == s.len(),
            chunk_start < len,
            fits(s.subrange(chunk_start as int, chunk_start + 1)),
            chunk_start <= lower <= chunk_end <= upper <= len,
            fits(s.subrange(chunk_start as int, lower as int)),
            upper == chunk_end || !fits(s.subrange(chunk_start as int, upper as int)),
            upper == len || !fits(s.subrange(chunk_start as int, upper as int)),
        ensures
            chunk_start < chunk_end <= len,
            fits(s.subrange(chunk_start as int, chunk_end as int)),
            chunk_end < len ==> !fits(s.subrange(chunk_start as int, chunk_end + 1)),
        decreases upper - lower, if chunk_end == upper {
            2int
        } else if chunk_end == lower {
            1int
        } else {
            0int
        },
    {
        let chunk = vstd::slice::slice_subrange(transactions, chunk_start, chunk_end);
        let size = Entry::serialized_size(chunk);
        let next;
        if size <= BLOB_DATA_SIZE as u64 {
            next = chunk_end + (upper - chunk_end) / 2;
            lower = chunk_end;
        } else {
            next = lower + (chunk_end - lower) / 2;
            upper = chunk_end;
        }
        if next == chunk_end {
            break;
        }
        chunk_end = next;
    }
    chunk_end
}

/// Packs `transactions` into entries that each fit in a network record,
/// keeping their order and filling each entry as far as the next
/// transaction allows. The first entry takes the hash count from
/// `num_hashes`; the entries chain from `start_hash`, which then holds the
/// last id, and `num_hashes` starts again at zero. With no transactions
/// the result is one tick.
pub fn next_entries_mut(
    start_hash: &mut crate::hash::Hash,
    num_hashes: &mut u64,
    transactions: Vec<Transaction>,
) -> (r: Vec<Entry>)
    requires
        each_fits(transactions@),
    ensures
        r@.len() >= 1,
        entry_transactions(r@) == transactions@,
        forall|i: int| 0 <= i < r@.len() ==> #[trigger] fits(r@[i].transactions@),
        chain_verifies(r@, old(start_hash)@),
        packed_tight(r@),
        forall|i: int| 0 <= i < r@.len() ==> (#[trigger] r@[i]).tick_height == 0,
        r@[0].num_hashes == recorded_hashes(*old(num_hashes) as nat, r@[0].transactions@),
        forall|i: int| 1 <= i < r@.len() ==> (#[trigger] r@[i]).num_hashes == 1,
        transactions@.len() > 0 ==> forall|i: int|
            0 <= i < r@.len() ==> (#[trigger] r@[i]).transactions@.len() > 0,
        transactions@.len() <= 1 ==> r@.len() == 1,
        *final(start_hash) == r@.last().id,
        *final(num_hashes) == 0,
{
    let ghost start0 = start_hash@;
    let ghost nh0 = *num_hashes;
    let ghost all = transactions@;
    if transactions.len() <= 1 {
        proof {
            if transactions@.len() == 1 {
                assert(transactions@ =~= seq![transactions@[0]]);
                assert(fits(seq![transactions@[0]]));
            } else {
                assert(txs_size(transactions@) == 0);
            }
        }
        let entry = Entry::new_mut(start_hash, num_hashes, transactions);
        let mut entries: Vec<Entry> = Vec::new();
        entries.push(entry);
        proof {
            assert(entries@.drop_last() =~= Seq::<Entry>::empty());
            assert(entry_transactions(entries@.drop_last()) =~= Seq::<Transaction>::empty());
            assert(entries@.last().transactions@ == all);
            assert(entry_transactions(entries@) =~= all);
            assert(verifies(entries@[0], prev_id(entries@, start0, 0)));
        }
        return entries;
    }
    let mut rest = transactions;
    let mut entries: Vec<Entry> = Vec::new();
    while rest.len() > 0
        invariant
            entry_transactions(entries@) + rest@ == all,
            all.len() > 1,
            each_fits(rest@),
            forall|i: int| 0 <= i < entries@.len() ==> #[trigger] fits(entries@[i].transactions@),
            forall|i: int| 0 <= i < entries@.len() ==> (#[trigger] entries@[i]).transactions@.len() > 0,
            forall|i: int| 0 <= i < entries@.len() ==> (#[trigger] entries@[i]).tick_height == 0,
            forall|i: int| 1 <= i < entries@.len() ==> (#[trigger] entries@[i]).num_hashes == 1,
            entries@.len() > 0 ==> entries@[0].num_hashes == recorded_hashes(nh0 as nat, entries@[0].transactions@),
            chain_verifies(entries@, start0),
            packed_tight(entries@),
            entries@.len() > 0 && rest@.len() > 0 ==> !fits(entries@.last().transactions@.push(rest@[0])),
            entries@.len() == 0 ==> start_hash@ == start0 && *num_hashes == nh0,
            entries@.len() > 0 ==> *start_hash == entries@.last().id && *num_hashes == 0,
        decreases rest@.len(),
    {
        proof {
            assert(fits(seq![rest@[0]]));
        }
        let chunk_end = fitting_chunk_end(rest.as_slice(), 0);
        let ghost before = rest@;
        let tail = rest.split_off(chunk_end);
        let chunk = rest;
        rest = tail;
        proof {
            assert(chunk@ =~= before.subrange(0, chunk_end as int));
            assert(rest@ =~= before.subrange(chunk_end as int, before.len() as int));
            assert forall|i: int| 0 <= i < rest@.len() implies #[trigger] fits(seq![rest@[i]]) by {
                assert(rest@[i] == before[chunk_end + i]);
                assert(fits(seq![before[chunk_end + i]]));
            }
            if chunk_end < before.len() {
                assert(before.subrange(0, chunk_end + 1) =~= chunk@.push(rest@[0]));
            }
        }
        let ghost old_entries = entries@;
        let ghost prev = start_hash@;
        let entry = Entry::new_mut(start_hash, num_hashes, chunk);
        entries.push(entry);
        proof {
            let es = entries@;
            assert(es.drop_last() =~= old_entries);
            assert(entry_transactions(es) == entry_transactions(old_entries) + chunk@);
            assert(entry_transactions(es) + rest@ =~= entry_transactions(old_entries) + before);
            assert forall|i: int| 0 <= i < es.len() implies #[trigger] verifies(es[i], prev_id(es, start0, i)) by {
                if i < old_entries.len() {
                    assert(es[i] == old_entries[i]);
                    assert(prev_id(es, start0, i) == prev_id(old_entries, start0, i));
                } else {
                    assert(prev_id(es, start0, i) == prev);
                }
            }
            assert forall|i: int| 0 <= i < es.len() - 1 implies !fits(
                #[trigger] es[i].transactions@.push(es[i + 1].transactions@[0]),
            ) by {
                if i < old_entries.len() - 1 {
                    assert(es[i] == old_entries[i]);
                    assert(es[i + 1] == old_entries[i + 1]);
                } else {
                    assert(es[i] == old_entries.last());
                    assert(es[i + 1].transactions@ == before.subrange(0, chunk_end as int));
                }
            }
        }
    }
    assert(entry_transactions(entries@) =~= all);
    entries
}

/// Packs `transactions` into entries chained from `start_hash`, the first
/// taking `num_hashes` as its hash count (see `next_entries_mut`).
pub fn next_entries(start_hash: &crate::hash::Hash, num_hashes: u64, transactions: Vec<Transaction>) -> (r:
    Vec<Entry>)
    requires
        each_fits(transactions@),
    ensures
        r@.len() >= 1,
        entry_transactions(r@) == transactions@,
        forall|i: int| 0 <= i < r@.len() ==> #[trigger] fits(r@[i].transactions@),
        chain_verifies(r@, start_hash@),
        packed_tight(r@),
        forall|i: int| 0 <= i < r@.len() ==> (#[trigger] r@[i]).tick_height == 0,
        r@[0].num_hashes == recorded_hashes(num_hashes as nat, r@[0].transactions@),
        forall|i: int| 1 <= i < r@.len() ==> (#[trigger] r@[i]).num_hashes == 1,
        transactions@.len() > 0 ==> forall|i: int|
            0 <= i < r@.len() ==> (#[trigger] r@[i]).transactions@.len() > 0,
        transactions@.len() <= 1 ==> r@.len() == 1,
{
    let mut id = *start_hash;
    let mut num_hashes = num_hashes;
    next_entries_mut(&mut id, &mut num_hashes, transactions)
}

/// `num_ticks` ticks of one hash each, chained from `hash`.
pub fn create_ticks(num_ticks: u64, hash: crate::hash::Hash) -> (r: Vec<Entry>)
    ensures
        r@.len() == num_ticks,
        chain_verifies(r@, hash@),
        forall|i: int|
            0 <= i < r@.len() ==> {
                &&& (#[trigger] r@[i]).num_hashes == 1
                &&& r@[i].tick_height == 0
                &&& r@[i].transactions@.len() == 0
            },
{
    let ghost start = hash@;
    let mut hash = hash;
    let mut ticks: Vec<Entry> = Vec::new();
    let mut n: u64 = 0;
    while n < num_ticks
        invariant
            n <= num_ticks,
            ticks@.len() == n,
            chain_verifies(ticks@, start),
            ticks@.len() == 0 ==> hash@ == start,
            ticks@.len() > 0 ==> hash == ticks@.last().id,
            forall|i: int|
                0 <= i < ticks@.len() ==> {
                    &&& (#[trigger] ticks@[i]).num_hashes == 1
                    &&& ticks@[i].tick_height == 0
                    &&& ticks@[i].transactions@.len() == 0
                },
        decreases num_ticks - n,
    {
        let ghost old_ticks = ticks@;
        let ghost prev = hash@;
        let tick = Entry::new(&hash, 0, 1, Vec::new());
        hash = tick.id;
        ticks.push(tick);
        proof {
            let ts = ticks@;
            assert forall|i: int| 0 <= i < ts.len() implies #[trigger] verifies(ts[i], prev_id(ts, start, i)) by {
                if i < old_ticks.len() {
                    assert(ts[i] == old_ticks[i]);
                    assert(prev_id(ts, start, i) == prev_id(old_ticks, start, i));
                } else {
                    assert(prev_id(ts, start, i) == prev);
                }
            }
        }
        n = n + 1;
    }
    ticks
}

/// The entry `num_hashes` after `prev_id` holding `transactions`, at tick
/// height zero, with the hash count as given.
pub fn next_entry(prev_id: &crate::hash::Hash, num_hashes: u64, transactions: Vec<Transaction>) -> (r:
    Entry)
    requires
        num_hashes > 0 || transactions@.len() == 0,
    ensures
        r.tick_height == 0,
        r.num_hashes == num_hashes,
        r.id@ == next_id(prev_id@, num_hashes as nat, transactions@),
        r.transactions@ == transactions@,
        verifies(r, prev_id@),
{
    let id = next_hash(prev_id, num_hashes, transactions.as_slice());
    Entry { tick_height: 0, num_hashes, id, transactions }
}

/// An entry of no hashes and no transactions keeps its predecessor's id:
/// it follows that id and no other.
pub proof fn lemma_no_op_entry(prev: Seq<u8>, e: Entry)
    requires
        e.num_hashes == recorded_hashes(0, Seq::empty()),
        e.id@ == next_id(prev, 0, Seq::empty()),
        e.transactions@ == Seq::<Transaction>::empty(),
    ensures
        e.num_hashes == 0,
        e.id@ == prev,
        forall|other: Seq<u8>| #[trigger] verifies(e, other) <==> other == prev,
{
}

/// One entry for each of `transactions`, in order, chained from `start`,
/// each of one hash.
pub fn make_tiny_test_entries_from_id(start: &crate::hash::Hash, transactions: Vec<Transaction>) -> (r:
    Vec<Entry>)
    requires
        each_fits(transactions@),
    ensures
        r@.len() == transactions@.len(),
        chain_verifies(r@, start@),
        forall|i: int|
            0 <= i < r@.len() ==> {
                &&& (#[trigger] r@[i]).transactions@ == seq![transactions@[i]]
                &&& r@[i].num_hashes == 1
                &&& r@[i].tick_height == 0
            },
{
    let ghost all = transactions@;
    let mut id = *start;
    let mut num_hashes: u64 = 0;
    let mut rest = transactions;
    let mut entries: Vec<Entry> = Vec::new();
    while rest.len() > 0
        invariant
            entries@.len() + rest@.len() == all.len(),
            rest@ == all.subrange(entries@.len() as int, all.len() as int),
            each_fits(all),
            num_hashes == 0,
            chain_verifies(entries@, start@),
            entries@.len() == 0 ==> id == *start,
            entries@.len() > 0 ==> id == entries@.last().id,
            forall|i: int|
                0 <= i < entries@.len() ==> {
                    &&& (#[trigger] entries@[i]).transactions@ == seq![all[i]]
                    &&& entries@[i].num_hashes == 1
                    &&& entries@[i].tick_height == 0
                },
        decreases rest@.len(),
    {
        let k = entries.len();
        let ghost before = rest@;
        let t = rest.remove(0);
        let mut one: Vec<Transaction> = Vec::new();
        one.push(t);
        proof {
            assert(t == all[k as int]);
            assert(one@ =~= seq![all[k as int]]);
            assert(fits(seq![all[k as int]]));
            assert(rest@ =~= all.subrange(k + 1, all.len() as int));
        }
        let ghost old_entries = entries@;
        let ghost prev = id@;
        let entry = Entry::new_mut(&mut id, &mut num_hashes, one);
        entries.push(entry);
        proof {
            let es = entries@;
            assert forall|i: int| 0 <= i < es.len() implies #[trigger] verifies(es[i], prev_id(es, start@, i)) by {
                if i < old_entries.len() {
                    assert(es[i] == old_entries[i]);
                    assert(prev_id(es, start@, i) == prev_id(old_entries, start@, i));
                } else {
                    assert(prev_id(es, start@, i) == prev);
                }
            }
        }
    }
    entries
}

/// One entry for each of `transactions`, chained from the digest of the
/// all-zero digest.
pub fn make_tiny_test_entries(transactions: Vec<Transaction>) -> (r: Vec<Entry>)
    requires
        each_fits(transactions@),
    ensures
        r@.len() == transactions@.len(),
        chain_verifies(r@, sha256_of(tick_marker())),
        forall|i: int|
            0 <= i < r@.len() ==> (#[trigger] r@[i]).transactions@ == seq![transactions@[i]],
{
    let zero = crate::hash::Hash::zero();
    let one = zero.rehashed();
    make_tiny_test_entries_from_id(&one, transactions)
}

/// `num_entries` copies of one entry, chained from the digest of the
/// all-zero digest, that holds as many copies of `tx` as a record allows.
pub fn make_large_test_entries(tx: &Transaction, num_entries: usize) -> (r: Vec<Entry>)
    requires
        fits(seq![*tx]),
    ensures
        r@.len() == num_entries,
        forall|i: int|
            0 <= i < r@.len() ==> {
                &&& verifies(#[trigger] r@[i], sha256_of(tick_marker()))
                &&& fits(r@[i].transactions@)
                &&& r@[i].transactions@.len() > 0
                &&& forall|j: int|
                    0 <= j < r@[i].transactions@.len() ==> (#[trigger] r@[i].transactions@[j])@
                        == tx@
            },
{
    let zero = crate::hash::Hash::zero();
    let one = zero.rehashed();
    let size = tx.serialized_size();
    let num_txs: usize = if size == 0 {
        1
    } else {
        let n = BLOB_DATA_SIZE as u64 / size;
        if n == 0 {
            1
        } else {
            n as usize
        }
    };
    let mut txs: Vec<Transaction> = Vec::new();
    while txs.len() < num_txs
        invariant
            txs@.len() <= num_txs,
            fits(seq![*tx]),
            forall|j: int| 0 <= j < txs@.len() ==> (#[trigger] txs@[j])@ == tx@,
            forall|j: int| 0 <= j < txs@.len() ==> #[trigger] fits(seq![txs@[j]]),
        decreases num_txs - txs@.len(),
    {
        let c = tx.clone();
        proof {
            assert(txs_size(seq![c]) == txs_size(seq![*tx])) by {
                assert(seq![c].drop_last() =~= Seq::<Transaction>::empty());
                assert(seq![*tx].drop_last() =~= Seq::<Transaction>::empty());
            }
        }
        txs.push(c);
    }
    proof {
        assert(txs@.len() > 0);
    }
    let ghost tv = txs@;
    let mut packed = next_entries(&one, 1, txs);
    let ghost all = packed@;
    let first = packed.swap_remove(0);
    proof {
        assert(first == all[0]);
        assert(verifies(all[0], prev_id(all, one@, 0)));
        lemma_entry_transactions_first(all);
        assert(entry_transactions(all) == tv);
        assert forall|j: int| 0 <= j < first.transactions@.len() implies (
        #[trigger] first.transactions@[j])@ == tx@ by {
            assert(first.transactions@[j] == tv[j]);
        }
    }
    let mut entries: Vec<Entry> = Vec::new();
    while entries.len() < num_entries
        invariant
            entries@.len() <= num_entries,
            verifies(first, one@),
            fits(first.transactions@),
            first.transactions@.len() > 0,
            forall|j: int| 0 <= j < first.transactions@.len() ==> (#[trigger] first.transactions@[j])@ == tx@,
            forall|i: int|
                0 <= i < entries@.len() ==> {
                    &&& (#[trigger] entries@[i]).tick_height == first.tick_height
                    &&& entries@[i].num_hashes == first.num_hashes
                    &&& entries@[i].id == first.id
                    &&& entries@[i].transactions@.len() == first.transactions@.len()
                    &&& forall|j: int|
                        0 <= j < first.transactions@.len() ==> (#[trigger] entries@[i].transactions@[j])@
                            == first.transactions@[j]@
                },
        decreases num_entries - entries@.len(),
    {
        let copy = copy_entry(&first);
        entries.push(copy);
    }
    proof {
        assert forall|i: int| 0 <= i < entries@.len() implies {
            &&& verifies(#[trigger] entries@[i], one@)
            &&& fits(entries@[i].transactions@)
        } by {
            lemma_same_views_same_digest(entries@[i].transactions@, first.transactions@);
        }
    }
    entries
}

/// An entry with the fields of `e` and copies of its transactions.
fn copy_entry(e: &Entry) -> (r: Entry)
    ensures
        r.tick_height == e.tick_height,
        r.num_hashes == e.num_hashes,
        r.id == e.id,
        r.transactions@.len() == e.transactions@.len(),
        forall|j: int| 0 <= j < e.transactions@.len() ==> (#[trigger] r.transactions@[j])@ == e.transactions@[j]@,
{
    let mut txs: Vec<Transaction> = Vec::new();
    let mut j: usize = 0;
    while j < e.transactions.len()
        invariant
            j <= e.transactions@.len(),
            txs@.len() == j,
            forall|m: int| 0 <= m < j ==> (#[trigger] txs@[m])@ == e.transactions@[m]@,
        decreases e.transactions@.len() - j,
    {
        txs.push(e.transactions[j].clone());
        j = j + 1;
    }
    Entry { tick_height: e.tick_height, num_hashes: e.num_hashes, id: e.id, transactions: txs }
}

proof fn lemma_entry_transactions_first(entries: Seq<Entry>)
    requires
        entries.len() > 0,
    ensures
        entries[0].transactions@.len() <= entry_transactions(entries).len(),
        forall|j: int|
            0 <= j < entries[0].transactions@.len() ==> entries[0].transactions@[j] == entry_transactions(
                entries,
            )[j],
    decreases entries.len(),
{
    if entries.len() > 1 {
        lemma_entry_transactions_first(entries.drop_last());
        assert(entries.drop_last()[0] == entries[0]);
    } else {
        assert(entries.drop_last() =~= Seq::<Entry>::empty());
        assert(entry_transactions(entries.drop_last()) =~= Seq::<Transaction>::empty());
        assert(entry_transactions(entries) =~= entries[0].transactions@);
    }
}

/// Runs of transactions with the same wire forms have the same size and
/// the same digest.
pub proof fn lemma_same_views_same_digest(a: Seq<Transaction>, b: Seq<Transaction>)
    requires
        a.len() == b.len(),
        forall|j: int| 0 <= j < a.len() ==> (#[trigger] a[j])@ == b[j]@,
    ensures
        txs_size(a) == txs_size(b),
        crate::transaction::signatures(a) == crate::transaction::signatures(b),
        batch_digest(a) == batch_digest(b),
        forall|s: Seq<u8>, n: nat| next_id(s, n, a) == #[trigger] next_id(s, n, b),
    decreases a.len(),
{
    if a.len() > 0 {
        lemma_same_views_same_digest(a.drop_last(), b.drop_last());
    }
}

} // verus!
