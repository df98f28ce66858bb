//! Framing entries into fixed-capacity network records ("blobs") and reading
//! them back.
//!
//! An entry is written as its tick height, its hash count, its id, the count
//! of its transactions (each count eight bytes, least significant first),
//! then the transactions' wire forms one after another.

use crate::entry::{Entry, fits, txs_size, BLOB_DATA_SIZE, ENTRY_HEADER_SIZE};
use crate::transaction::{is_transaction, transaction_end, transaction_end_at, Transaction};
use crate::wire::{push_all, push_u64, read_u64, u64_at, u64_bytes};
use vstd::prelude::*;

verus! {

/// One network record: a buffer and the count of payload bytes at its front.
#[derive(Clone, Debug, PartialEq, Eq)]
pub struct Blob {
    pub data: Vec<u8>,
    pub size: u64,
}

/// Why a blob could not be read back as an entry.
#[derive(Clone, Copy, Debug, PartialEq, Eq)]
pub enum BlobError {
    /// The size field claims more bytes than the record holds.
    BadSize,
    /// The payload is not an entry.
    Malformed,
}

/// The wire forms of `txs`, one after another.
pub open spec fn txs_wire(txs: Seq<Transaction>) -> Seq<u8>
    decreases txs.len(),
{
    if txs.len() == 0 {
        Seq::empty()
    } else {
        txs_wire(txs.drop_last()) + txs.last()@
    }
}

/// The bytes that write `e`.
pub open spec fn entry_wire(e: Entry) -> Seq<u8> {
    u64_bytes(e.tick_height) + u64_bytes(e.num_hashes) + e.id@ + u64_bytes(
        e.transactions@.len() as u64,
    ) + txs_wire(e.transactions@)
}

/// Where `k` transactions that start at `pos` end, each exactly one
/// transaction with a signature; `None` where `b` does not hold them.
#[verifier::opaque]
pub open spec fn tx_run_end(b: Seq<u8>, pos: int, k: nat) -> Option<int>
    decreases k,
{
    if k == 0 {
        Some(pos)
    } else {
        match transaction_end(b, pos) {
            None => None,
            Some(e) => if is_transaction(b.subrange(pos, e)) {
                tx_run_end(b, e, (k - 1) as nat)
            } else {
                None
            },
        }
    }
}

/// Whether `b` begins with a whole entry.
pub open spec fn entry_decodes(b: Seq<u8>) -> bool {
    b.len() >= ENTRY_HEADER_SIZE && tx_run_end(b, 56, u64_at(b, 48)) is Some
}

/// Where transaction `i` of the entry at the front of `b` starts.
pub open spec fn tx_start(b: Seq<u8>, i: nat) -> int {
    tx_run_end(b, 56, i).unwrap()
}

/// Whether `e` is the entry written at the front of `b`.
pub open spec fn decodes_to(b: Seq<u8>, e: Entry) -> bool {
    &&& e.tick_height == u64_at(b, 0)
    &&& e.num_hashes == u64_at(b, 8)
    &&& e.id@ == b.subrange(16, 48)
    &&& e.transactions@.len() == u64_at(b, 48)
    &&& forall|i: int|
        0 <= i < e.transactions@.len() ==> (#[trigger] e.transactions@[i])@ == b.subrange(
            tx_start(b, i as nat),
            tx_start(b, (i + 1) as nat),
        )
}

/// Whether `a` and `b` hold the same fields and transactions.
pub open spec fn same_entry(a: Entry, b: Entry) -> bool {
    &&& a.tick_height == b.tick_height
    &&& a.num_hashes == b.num_hashes
    &&& a.id@ == b.id@
    &&& a.transactions@.len() == b.transactions@.len()
    &&& forall|i: int|
        0 <= i < a.transactions@.len() ==> (#[trigger] a.transactions@[i])@ == b.transactions@[i]@
}

/// The payload of `b`, where its size field is within the record.
pub open spec fn payload(b: Blob) -> Option<Seq<u8>> {
    if b.size <= b.data@.len() && b.size <= BLOB_DATA_SIZE {
        Some(b.data@.subrange(0, b.size as int))
    } else {
        None
    }
}

/// Whether `b` holds an entry.
pub open spec fn blob_holds_entry(b: Blob) -> bool {
    payload(b) matches Some(p) && entry_decodes(p)
}

/// The error that reading `b` gives, where it holds no entry.
pub open spec fn blob_error(b: Blob) -> BlobError {
    if payload(b) is None {
        BlobError::BadSize
    } else {
        BlobError::Malformed
    }
}

/// How many of `entries` are ticks.
pub open spec fn count_ticks(entries: Seq<Entry>) -> nat
    decreases entries.len(),
{
    if entries.len() == 0 {
        0
    } else {
        count_ticks(entries.drop_last()) + if entries.last().transactions@.len() == 0 {
            1nat
        } else {
            0nat
        }
    }
}

proof fn lemma_count_ticks_bound(entries: Seq<Entry>)
    ensures
        count_ticks(entries) <= entries.len(),
    decreases entries.len(),
{
    if entries.len() > 0 {
        lemma_count_ticks_bound(entries.drop_last());
    }
}

/// The bytes that write `e`.
pub fn encode_entry(e: &Entry) -> (r: Vec<u8>)
    ensures
        r@ == entry_wire(*e),
{
    let mut out: Vec<u8> = Vec::new();
    push_u64(&mut out, e.tick_height);
    push_u64(&mut out, e.num_hashes);
    push_all(&mut out, e.id.as_bytes());
    push_u64(&mut out, e.transactions.len() as u64);
    let ghost head = out@;
    let mut i: usize = 0;
    while i < e.transactions.len()
        invariant
            i <= e.transactions@.len(),
            out@ == head + txs_wire(e.transactions@.subrange(0, i as int)),
        decreases e.transactions@.len() - i,
    {
        push_all(&mut out, e.transactions[i].wire());
        proof {
            let pre = e.transactions@.subrange(0, i + 1);
            assert(pre.drop_last() =~= e.transactions@.subrange(0, i as int));
            assert(out@ =~= head + txs_wire(pre));
        }
        i = i + 1;
    }
    assert(e.transactions@.subrange(0, e.transactions@.len() as int) =~= e.transactions@);
    out
}

/// The entry written at the front of `b`, where there is one.
pub fn decode_entry(b: &[u8]) -> (r: Option<Entry>)
    ensures
        r is Some <==> entry_decodes(b@),
        r matches Some(e) ==> decodes_to(b@, e),
{
    if b.len() < ENTRY_HEADER_SIZE {
        return None;
    }
    let tick_height = read_u64(b, 0);
    let num_hashes = read_u64(b, 8);
    let id = crate::hash::Hash::from_slice(vstd::slice::slice_subrange(b, 16, 48));
    let count = read_u64(b, 48);
    proof {
        reveal(tx_run_end);
    }
    let mut transactions: Vec<Transaction> = Vec::new();
    let mut pos: usize = ENTRY_HEADER_SIZE;
    let mut k: u64 = 0;
    while k < count
        invariant
            k <= count,
            count == u64_at(b@, 48),
            b@.len() >= 56,
            transactions@.len() == k,
            tx_run_end(b@, 56, k as nat) == Some(pos as int),
            pos <= b@.len(),
            forall|i: int|
                0 <= i < k ==> (#[trigger] transactions@[i])@ == b@.subrange(
                    tx_start(b@, i as nat),
                    tx_start(b@, (i + 1) as nat),
                ),
        decreases count - k,
    {
        let end = match transaction_end_at(b, pos) {
            None => {
                proof {
                    reveal(tx_run_end);
                    lemma_run_split(b@, 56, k as nat, (count - k) as nat);
                }
                return None;
            },
            Some(end) => end,
        };
        proof {
            crate::transaction::lemma_transaction_end_bounds(b@, pos as int);
        }
        let piece = vstd::slice::slice_subrange(b, pos, end);
        let mut wire: Vec<u8> = Vec::new();
        push_all(&mut wire, piece);
        let tx = match Transaction::from_wire(wire) {
            None => {
                proof {
                    reveal(tx_run_end);
                    lemma_run_split(b@, 56, k as nat, (count - k) as nat);
                }
                return None;
            },
            Some(tx) => tx,
        };
        proof {
            reveal(tx_run_end);
            lemma_run_split(b@, 56, k as nat, 1);
            assert(tx_run_end(b@, end as int, 0) == Some(end as int));
            assert(tx_run_end(b@, pos as int, 1) == Some(end as int));
        }
        let ghost before = transactions@;
        transactions.push(tx);
        proof {
            assert forall|i: int| 0 <= i < k + 1 implies (#[trigger] transactions@[i])@ == b@.subrange(
                tx_start(b@, i as nat),
                tx_start(b@, (i + 1) as nat),
            ) by {
                if i < k {
                    assert(transactions@[i] == before[i]);
                }
            }
        }
        pos = end;
        k = k + 1;
    }
    Some(Entry { tick_height, num_hashes, id, transactions })
}

/// Running `j + m` transactions from `pos` is running `j`, then `m` more.
pub proof fn lemma_run_split(b: Seq<u8>, pos: int, j: nat, m: nat)
    ensures
        tx_run_end(b, pos, j + m) == match tx_run_end(b, pos, j) {
            Some(p) => tx_run_end(b, p, m),
            None => None,
        },
    decreases j,
{
    reveal(tx_run_end);
    if j > 0 {
        match transaction_end(b, pos) {
            None => {},
            Some(e) => {
                if is_transaction(b.subrange(pos, e)) {
                    lemma_run_split(b, e, (j - 1) as nat, m);
                    assert((j + m - 1) as nat == (j - 1) as nat + m);
                }
            },
        }
    }
}

impl Entry {
    /// The entry framed in a blob: its bytes at the front of a record of
    /// `BLOB_DATA_SIZE` bytes, the rest zero, and their count as the size.
    pub fn to_blob(&self) -> (r: Blob)
        requires
            fits(self.transactions@),
        ensures
            r.data@.len() == BLOB_DATA_SIZE,
            r.size == entry_wire(*self).len(),
            payload(r) == Some(entry_wire(*self)),
    {
        let mut data = encode_entry(self);
        proof {
            lemma_entry_wire_len(*self);
        }
        let size = data.len();
        let ghost bytes = data@;
        while data.len() < BLOB_DATA_SIZE
            invariant
                size <= data@.len() <= BLOB_DATA_SIZE,
                data@.subrange(0, size as int) == bytes,
                bytes.len() == size,
            decreases BLOB_DATA_SIZE - data@.len(),
        {
            data.push(0u8);
            assert(data@.subrange(0, size as int) =~= bytes);
        }
        Blob { data, size: size as u64 }
    }
}

/// Bytes that `e` takes on the wire.
pub proof fn lemma_entry_wire_len(e: Entry)
    ensures
        entry_wire(e).len() == ENTRY_HEADER_SIZE + txs_size(e.transactions@),
{
    crate::wire::lemma_u64_round_trip(e.tick_height);
    crate::wire::lemma_u64_round_trip(e.num_hashes);
    crate::wire::lemma_u64_round_trip(e.transactions@.len() as u64);
    lemma_txs_wire_len(e.transactions@);
}

proof fn lemma_txs_wire_len(txs: Seq<Transaction>)
    ensures
        txs_wire(txs).len() == txs_size(txs),
    decreases txs.len(),
{
    if txs.len() > 0 {
        lemma_txs_wire_len(txs.drop_last());
    }
}

/// Each entry framed in a blob of its own.
pub fn to_blobs(entries: &[Entry]) -> (r: Vec<Blob>)
    requires
        forall|i: int| 0 <= i < entries@.len() ==> #[trigger] fits(entries@[i].transactions@),
    ensures
        r@.len() == entries@.len(),
        forall|i: int| 0 <= i < entries@.len() ==> #[trigger] payload(r@[i]) == Some(entry_wire(entries@[i])),
{
    let mut blobs: Vec<Blob> = Vec::new();
    let mut i: usize = 0;
    while i < entries.len()
        invariant
            i <= entries@.len(),
            blobs@.len() == i,
            forall|j: int| 0 <= j < entries@.len() ==> #[trigger] fits(entries@[j].transactions@),
            forall|j: int| 0 <= j < i ==> #[trigger] payload(blobs@[j]) == Some(entry_wire(entries@[j])),
        decreases entries@.len() - i,
    {
        blobs.push(entries[i].to_blob());
        i = i + 1;
    }
    blobs
}

/// The entries that `blobs` hold, in order, and how many are ticks; or the
/// error of the first blob that holds none.
pub fn reconstruct_entries_from_blobs(blobs: &[Blob]) -> (r: Result<(Vec<Entry>, u64), BlobError>)
    ensures
        match r {
            Ok((entries, ticks)) => {
                &&& forall|i: int| 0 <= i < blobs@.len() ==> #[trigger] blob_holds_entry(blobs@[i])
                &&& entries@.len() == blobs@.len()
                &&& forall|i: int|
                    0 <= i < blobs@.len() ==> #[trigger] decodes_to(
                        payload(blobs@[i]).unwrap(),
                        entries@[i],
                    )
                &&& ticks == count_ticks(entries@)
            },
            Err(err) => exists|j: int|
                0 <= j < blobs@.len() && !#[trigger] blob_holds_entry(blobs@[j]) && err == blob_error(
                    blobs@[j],
                ) && forall|i: int| 0 <= i < j ==> #[trigger] blob_holds_entry(blobs@[i]),
        },
{
    let mut entries: Vec<Entry> = Vec::new();
    let mut num_ticks: u64 = 0;
    let mut i: usize = 0;
    while i < blobs.len()
        invariant
            i <= blobs@.len(),
            entries@.len() == i,
            forall|j: int| 0 <= j < i ==> #[trigger] blob_holds_entry(blobs@[j]),
            forall|j: int|
                0 <= j < i ==> #[trigger] decodes_to(payload(blobs@[j]).unwrap(), entries@[j]),
            num_ticks == count_ticks(entries@),
        decreases blobs@.len() - i,
    {
        let blob = &blobs[i];
        let size = blob.size;
        if size > blob.data.len() as u64 || size > BLOB_DATA_SIZE as u64 {
            assert(!blob_holds_entry(blobs@[i as int]));
            return Err(BlobError::BadSize);
        }
        let bytes = vstd::slice::slice_subrange(blob.data.as_slice(), 0, size as usize);
        let entry = match decode_entry(bytes) {
            None => {
                assert(!blob_holds_entry(blobs@[i as int]));
                return Err(BlobError::Malformed);
            },
            Some(entry) => entry,
        };
        proof {
            lemma_count_ticks_bound(entries@);
        }
        let ghost before = entries@;
        if entry.is_tick() {
            num_ticks = num_ticks + 1;
        }
        entries.push(entry);
        proof {
            assert(entries@.drop_last() =~= before);
        }
        i = i + 1;
    }
    Ok((entries, num_ticks))
}

proof fn lemma_txs_wire_concat(a: Seq<Transaction>, b: Seq<Transaction>)
    ensures
        txs_wire(a + b) == txs_wire(a) + txs_wire(b),
    decreases b.len(),
{
    if b.len() == 0 {
        assert(a + b =~= a);
        assert(txs_wire(a) + txs_wire(b) =~= txs_wire(a));
    } else {
        lemma_txs_wire_concat(a, b.drop_last());
        assert((a + b).drop_last() =~= a + b.drop_last());
        assert(txs_wire(a + b) =~= txs_wire(a) + txs_wire(b));
    }
}

/// Transaction `i` of `txs` sits in their wire forms right after the ones
/// before it.
proof fn lemma_txs_wire_piece(txs: Seq<Transaction>, i: int)
    requires
        0 <= i < txs.len(),
    ensures
        txs_size(txs.subrange(0, i)) + txs[i]@.len() == txs_size(txs.subrange(0, i + 1)),
        txs_size(txs.subrange(0, i + 1)) <= txs_wire(txs).len(),
        txs_wire(txs).subrange(
            txs_size(txs.subrange(0, i)) as int,
            txs_size(txs.subrange(0, i + 1)) as int,
        ) == txs[i]@,
{
    let pre = txs.subrange(0, i);
    let one = seq![txs[i]];
    let post = txs.subrange(i + 1, txs.len() as int);
    assert(txs =~= pre + one + post);
    assert(txs.subrange(0, i + 1) =~= pre + one);
    lemma_txs_wire_concat(pre + one, post);
    lemma_txs_wire_concat(pre, one);
    assert(one.drop_last() =~= Seq::<Transaction>::empty());
    assert(txs_wire(one.drop_last()) =~= Seq::<u8>::empty());
    assert(txs_wire(one) =~= txs[i]@);
    assert((pre + one).drop_last() =~= pre);
    lemma_txs_wire_len(pre);
    lemma_txs_wire_len(pre + one);
    let w = txs_wire(txs);
    assert(w =~= txs_wire(pre) + txs[i]@ + txs_wire(post));
    assert(w.subrange(txs_wire(pre).len() as int, (txs_wire(pre).len() + txs[i]@.len()) as int) =~= txs[i]@);
}

/// Writing an entry whose transactions are each one well-formed
/// transaction and reading it back gives the same entry.
pub proof fn lemma_entry_round_trip(e: Entry)
    requires
        e.transactions@.len() <= u64::MAX,
        forall|i: int| 0 <= i < e.transactions@.len() ==> is_transaction(#[trigger] e.transactions@[i]@),
    ensures
        entry_decodes(entry_wire(e)),
        forall|e2: Entry| #[trigger] decodes_to(entry_wire(e), e2) ==> same_entry(e, e2),
{
    let txs = e.transactions@;
    let w = entry_wire(e);
    let count = txs.len() as u64;
    let t = txs_wire(txs);
    crate::wire::lemma_u64_round_trip(e.tick_height);
    crate::wire::lemma_u64_round_trip(e.num_hashes);
    crate::wire::lemma_u64_round_trip(count);
    lemma_txs_wire_len(txs);
    assert(w.subrange(0, 8) =~= u64_bytes(e.tick_height));
    assert(w.subrange(8, 16) =~= u64_bytes(e.num_hashes));
    assert(w.subrange(16, 48) =~= e.id@);
    assert(w.subrange(48, 56) =~= u64_bytes(count));
    assert(w.subrange(56, w.len() as int) =~= t);
    assert(u64_at(w, 48) == txs.len());
    lemma_entry_wire_tail(e);
    assert forall|i: nat| i <= txs.len() implies #[trigger] tx_run_end(w, 56, i) == Some(
        56 + txs_size(txs.subrange(0, i as int)) as int,
    ) by {
        lemma_run_prefix(w, txs, i);
    }
    assert(txs.subrange(0, txs.len() as int) =~= txs);
    assert forall|e2: Entry| #[trigger] decodes_to(w, e2) implies same_entry(e, e2) by {
        assert forall|i: int| 0 <= i < e.transactions@.len() implies (
        #[trigger] e.transactions@[i])@ == e2.transactions@[i]@ by {
            assert(tx_run_end(w, 56, i as nat) == Some(56 + txs_size(txs.subrange(0, i)) as int));
            assert(tx_run_end(w, 56, (i + 1) as nat) == Some(
                56 + txs_size(txs.subrange(0, i + 1)) as int,
            ));
            lemma_txs_wire_piece(txs, i);
            let lo = txs_size(txs.subrange(0, i)) as int;
            let hi = txs_size(txs.subrange(0, i + 1)) as int;
            assert(w.subrange(56 + lo, 56 + hi) =~= t.subrange(lo, hi));
        }
    }
}

/// An entry's bytes after its header are its transactions' wire forms.
proof fn lemma_entry_wire_tail(e: Entry)
    requires
        e.transactions@.len() <= u64::MAX,
    ensures
        entry_wire(e).len() == 56 + txs_wire(e.transactions@).len(),
        entry_wire(e).subrange(56, entry_wire(e).len() as int) == txs_wire(e.transactions@),
{
    crate::wire::lemma_u64_round_trip(e.tick_height);
    crate::wire::lemma_u64_round_trip(e.num_hashes);
    crate::wire::lemma_u64_round_trip(e.transactions@.len() as u64);
    let w = entry_wire(e);
    assert(w.subrange(56, w.len() as int) =~= txs_wire(e.transactions@));
}

/// The first `i` of `txs`, written out after a 56-byte header, run from
/// byte 56 to byte 56 plus their size.
proof fn lemma_run_prefix(w: Seq<u8>, txs: Seq<Transaction>, i: nat)
    requires
        w.len() == 56 + txs_wire(txs).len(),
        w.subrange(56, w.len() as int) == txs_wire(txs),
        forall|j: int| 0 <= j < txs.len() ==> is_transaction(#[trigger] txs[j]@),
        i <= txs.len(),
    ensures
        tx_run_end(w, 56, i) == Some(56 + txs_size(txs.subrange(0, i as int)) as int),
    decreases i,
{
    if i == 0 {
        reveal(tx_run_end);
        assert(txs.subrange(0, 0) =~= Seq::<Transaction>::empty());
    } else {
        let j = (i - 1) as nat;
        let t = txs_wire(txs);
        let lo = txs_size(txs.subrange(0, j as int)) as int;
        let hi = txs_size(txs.subrange(0, i as int)) as int;
        let tx = txs[j as int]@;
        lemma_run_prefix(w, txs, j);
        lemma_txs_wire_piece(txs, j as int);
        assert(w.subrange(56 + lo, 56 + hi) =~= t.subrange(lo, hi));
        assert(is_transaction(tx));
        lemma_run_step(w, j, 56 + lo, tx);
    }
}

/// One more well-formed transaction, found where a run of them ends,
/// lengthens the run by its size.
proof fn lemma_run_step(w: Seq<u8>, k: nat, p: int, tx: Seq<u8>)
    requires
        tx_run_end(w, 56, k) == Some(p),
        0 <= p,
        p + tx.len() <= w.len(),
        w.subrange(p, p + tx.len()) == tx,
        is_transaction(tx),
    ensures
        tx_run_end(w, 56, k + 1) == Some(p + tx.len()),
{
    reveal(tx_run_end);
    lemma_run_split(w, 56, k, 1);
    assert(tx.subrange(0, tx.len() as int) =~= tx);
    crate::transaction::lemma_transaction_end_shift(tx, 0, w, p, tx.len() as int);
    assert(tx_run_end(w, p + tx.len(), 0) == Some(p + tx.len()));
}

/// Blobs that hold entries whose transactions are each well formed read
/// back as those entries.
pub proof fn lemma_blobs_round_trip(entries: Seq<Entry>, blobs: Seq<Blob>)
    requires
        blobs.len() == entries.len(),
        forall|i: int| 0 <= i < blobs.len() ==> #[trigger] payload(blobs[i]) == Some(entry_wire(entries[i])),
        forall|i: int|
            0 <= i < entries.len() ==> (#[trigger] entries[i]).transactions@.len() <= u64::MAX,
        forall|i: int, j: int|
            0 <= i < entries.len() && 0 <= j < entries[i].transactions@.len() ==> is_transaction(
                #[trigger] entries[i].transactions@[j]@,
            ),
    ensures
        forall|i: int| 0 <= i < blobs.len() ==> #[trigger] blob_holds_entry(blobs[i]),
        forall|decoded: Seq<Entry>|
            decoded.len() == blobs.len() && (forall|i: int|
                0 <= i < blobs.len() ==> #[trigger] decodes_to(payload(blobs[i]).unwrap(), decoded[i]))
                ==> forall|i: int| 0 <= i < blobs.len() ==> #[trigger] same_entry(entries[i], decoded[i]),
{
    assert forall|i: int| 0 <= i < blobs.len() implies #[trigger] blob_holds_entry(blobs[i]) by {
        assert(entries[i].transactions@.len() <= u64::MAX);
        assert forall|j: int| 0 <= j < entries[i].transactions@.len() implies is_transaction(
            #[trigger] entries[i].transactions@[j]@,
        ) by {}
        lemma_entry_round_trip(entries[i]);
    }
    assert forall|decoded: Seq<Entry>|
        decoded.len() == blobs.len() && (forall|i: int|
            0 <= i < blobs.len() ==> #[trigger] decodes_to(payload(blobs[i]).unwrap(), decoded[i]))
        implies forall|i: int| 0 <= i < blobs.len() ==> #[trigger] same_entry(entries[i], decoded[i]) by {
        assert forall|i: int| 0 <= i < blobs.len() implies #[trigger] same_entry(entries[i], decoded[i]) by {
            assert(entries[i].transactions@.len() <= u64::MAX);
            assert forall|j: int| 0 <= j < entries[i].transactions@.len() implies is_transaction(
                #[trigger] entries[i].transactions@[j]@,
            ) by {}
            lemma_entry_round_trip(entries[i]);
            assert(decodes_to(payload(blobs[i]).unwrap(), decoded[i]));
        }
    }
}

/// Two entries with the fields that `Entry::new` gives for the same inputs
/// are written as the same bytes.
pub proof fn lemma_new_is_deterministic(
    prev_id: Seq<u8>,
    tick_height: u64,
    num_hashes: u64,
    txs: Seq<Transaction>,
    a: Entry,
    b: Entry,
)
    requires
        a.tick_height == tick_height && b.tick_height == tick_height,
        a.num_hashes == crate::entry::recorded_hashes(num_hashes as nat, txs),
        b.num_hashes == crate::entry::recorded_hashes(num_hashes as nat, txs),
        a.id@ == crate::entry::next_id(prev_id, num_hashes as nat, txs),
        b.id@ == crate::entry::next_id(prev_id, num_hashes as nat, txs),
        a.transactions@ == txs && b.transactions@ == txs,
    ensures
        entry_wire(a) == entry_wire(b),
        same_entry(a, b),
{
}

} // verus!
