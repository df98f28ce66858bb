//! Transactions as the ledger carries them: their wire form, where one ends
//! in a byte string, and the digest that commits an entry to a batch of them.
//!
//! A transaction is written as its signatures (a count, then 64 bytes each),
//! its account keys (a count, then 32 bytes each), the recent entry id it
//! names (32 bytes), its fee (8 bytes), its program ids (a count, then 32
//! bytes each), and its instructions (a count, then for each: a program
//! index byte, then two byte strings, each a count followed by its bytes).
//! Every count and the fee are eight bytes, least significant first.

use crate::hash::sha256_of;
use crate::wire::{read_u64, u64_at};
use vstd::prelude::*;

verus! {

/// Bytes in a signature.
pub const SIGNATURE_BYTES: usize = 64;

/// Bytes in an account key, a program id or a digest.
pub const KEY_BYTES: usize = 32;

/// Where a list that starts at `pos` ends: its count, then `count` items of
/// `elem` bytes each; `None` where `s` ends first.
pub open spec fn list_end(s: Seq<u8>, pos: int, elem: nat) -> Option<int> {
    if pos < 0 || pos + 8 > s.len() {
        None
    } else {
        let end = pos + 8 + u64_at(s, pos) * elem;
        if end <= s.len() {
            Some(end)
        } else {
            None
        }
    }
}

/// Where `k` instructions that start at `pos` end.
pub open spec fn instructions_end(s: Seq<u8>, pos: int, k: nat) -> Option<int>
    decreases k,
{
    if k == 0 {
        if 0 <= pos <= s.len() {
            Some(pos)
        } else {
            None
        }
    } else if pos < 0 || pos + 1 > s.len() {
        None
    } else {
        match list_end(s, pos + 1, 1) {
            None => None,
            Some(p) => match list_end(s, p, 1) {
                None => None,
                Some(q) => instructions_end(s, q, (k - 1) as nat),
            },
        }
    }
}

/// Where the transaction that starts at `pos` ends; `None` where `s` does
/// not hold one there.
pub open spec fn transaction_end(s: Seq<u8>, pos: int) -> Option<int> {
    match list_end(s, pos, 64) {
        None => None,
        Some(a) => match list_end(s, a, 32) {
            None => None,
            Some(b) => {
                let c = b + 40;
                match list_end(s, c, 32) {
                    None => None,
                    Some(d) => if d + 8 > s.len() {
                        None
                    } else {
                        instructions_end(s, d + 8, u64_at(s, d))
                    },
                }
            },
        },
    }
}

/// Whether `w` is exactly one transaction, with at least one signature.
pub open spec fn is_transaction(w: Seq<u8>) -> bool {
    &&& transaction_end(w, 0) == Some(w.len() as int)
    &&& u64_at(w, 0) >= 1
}

/// The first signature of the transaction written as `w`.
pub open spec fn signature_of(w: Seq<u8>) -> Seq<u8> {
    w.subrange(8, 72)
}

/// One transaction, held as its wire form.
#[derive(Debug, PartialEq, Eq)]
pub struct Transaction {
    wire: Vec<u8>,
}

impl View for Transaction {
    type V = Seq<u8>;

    closed spec fn view(&self) -> Seq<u8> {
        self.wire@
    }
}

impl Clone for Transaction {
    fn clone(&self) -> (r: Transaction)
        ensures
            r@ == self@,
    {
        proof {
            use_type_invariant(self);
        }
        let wire = self.wire.clone();
        assert(wire@ =~= self.wire@);
        Transaction { wire }
    }
}

/// The first signatures of `txs`, one after another.
pub open spec fn signatures(txs: Seq<Transaction>) -> Seq<u8>
    decreases txs.len(),
{
    if txs.len() == 0 {
        Seq::empty()
    } else {
        signatures(txs.drop_last()) + signature_of(txs.last()@)
    }
}

/// The digest that an entry mixes in for `txs`: SHA-256 over their first
/// signatures in order.
pub open spec fn batch_digest(txs: Seq<Transaction>) -> Seq<u8> {
    sha256_of(signatures(txs))
}

/// Where the list of `elem`-byte items at `pos` ends.
fn list_end_at(s: &[u8], pos: usize, elem: usize) -> (r: Option<usize>)
    requires
        1 <= elem <= 64,
    ensures
        r matches Some(e) ==> list_end(s@, pos as int, elem as nat) == Some(e as int),
        r is None ==> list_end(s@, pos as int, elem as nat) is None,
{
    let len = s.len();
    if pos > len || len - pos < 8 {
        return None;
    }
    let n = read_u64(s, pos);
    let avail = len - pos - 8;
    let most = avail / elem;
    if n > most as u64 {
        proof {
            assert(n * elem > avail) by (nonlinear_arith)
                requires
                    n > most,
                    most == avail / elem,
                    elem >= 1,
            ;
        }
        None
    } else {
        proof {
            assert(n * elem <= avail) by (nonlinear_arith)
                requires
                    n <= most,
                    most == avail / elem,
                    elem >= 1,
            ;
        }
        let taken = (n as usize) * elem;
        Some(pos + 8 + taken)
    }
}

/// Where the transaction at `pos` ends.
pub fn transaction_end_at(s: &[u8], pos: usize) -> (r: Option<usize>)
    ensures
        r matches Some(e) ==> transaction_end(s@, pos as int) == Some(e as int),
        r is None ==> transaction_end(s@, pos as int) is None,
{
    let a = match list_end_at(s, pos, SIGNATURE_BYTES) {
        None => return None,
        Some(a) => a,
    };
    let b = match list_end_at(s, a, KEY_BYTES) {
        None => return None,
        Some(b) => b,
    };
    if s.len() - b < 40 {
        proof {
            assert(list_end(s@, b + 40, 32) is None);
        }
        return None;
    }
    let c = b + 40;
    let d = match list_end_at(s, c, KEY_BYTES) {
        None => return None,
        Some(d) => d,
    };
    if s.len() - d < 8 {
        return None;
    }
    let k = read_u64(s, d);
    assert(transaction_end(s@, pos as int) == instructions_end(s@, d + 8, k as nat));
    let mut p = d + 8;
    let mut left: u64 = k;
    while left > 0
        invariant
            p <= s@.len(),
            instructions_end(s@, p as int, left as nat) == transaction_end(s@, pos as int),
        decreases left,
    {
        if p >= s.len() {
            return None;
        }
        let q = match list_end_at(s, p + 1, 1) {
            None => return None,
            Some(q) => q,
        };
        let e = match list_end_at(s, q, 1) {
            None => return None,
            Some(e) => e,
        };
        p = e;
        left = left - 1;
    }
    Some(p)
}

impl Transaction {
    #[verifier::type_invariant]
    spec fn well_formed(self) -> bool {
        is_transaction(self.wire@)
    }

    /// The transaction written as `wire`, where `wire` is exactly one
    /// transaction with at least one signature.
    pub fn from_wire(wire: Vec<u8>) -> (r: Option<Transaction>)
        ensures
            r is Some <==> is_transaction(wire@),
            r matches Some(t) ==> t@ == wire@,
    {
        let ends = transaction_end_at(wire.as_slice(), 0);
        match ends {
            Some(e) => {
                if e == wire.len() && read_u64(wire.as_slice(), 0) >= 1 {
                    Some(Transaction { wire })
                } else {
                    None
                }
            },
            None => None,
        }
    }

    /// The transaction's wire form.
    pub fn wire(&self) -> (r: &[u8])
        ensures
            r@ == self@,
    {
        self.wire.as_slice()
    }

    /// Bytes in the transaction's wire form.
    pub fn serialized_size(&self) -> (r: u64)
        ensures
            r == self@.len(),
    {
        self.wire.len() as u64
    }

    /// The transaction's first signature.
    pub fn signature(&self) -> (r: &[u8])
        ensures
            r@ == signature_of(self@),
    {
        proof {
            use_type_invariant(self);
            assert(self.wire@.len() >= 72);
        }
        let s = self.wire.as_slice();
        vstd::slice::slice_subrange(s, 8, 72)
    }

    /// SHA-256 over the first signatures of `txs` in order.
    pub fn hash(txs: &[Transaction]) -> (r: crate::hash::Hash)
        ensures
            r@ == batch_digest(txs@),
    {
        let mut buf: Vec<u8> = Vec::new();
        let mut i: usize = 0;
        while i < txs.len()
            invariant
                i <= txs@.len(),
                buf@ == signatures(txs@.subrange(0, i as int)),
            decreases txs@.len() - i,
        {
            let sig = txs[i].signature();
            crate::wire::push_all(&mut buf, sig);
            proof {
                let pre = txs@.subrange(0, i + 1);
                assert(pre.drop_last() =~= txs@.subrange(0, i as int));
            }
            i = i + 1;
        }
        assert(txs@.subrange(0, txs@.len() as int) =~= txs@);
        crate::hash::hash(buf.as_slice())
    }
}

/// The same `n` bytes at `p1` in `s1` and at `p2` in `s2`.
pub open spec fn same_window(s1: Seq<u8>, p1: int, s2: Seq<u8>, p2: int, n: int) -> bool {
    &&& 0 <= p1
    &&& 0 <= p2
    &&& 0 <= n
    &&& p1 + n <= s1.len()
    &&& p2 + n <= s2.len()
    &&& s1.subrange(p1, p1 + n) == s2.subrange(p2, p2 + n)
}

proof fn lemma_u64_at_shift(s1: Seq<u8>, p1: int, s2: Seq<u8>, p2: int, n: int, q: int)
    requires
        same_window(s1, p1, s2, p2, n),
        p1 <= q,
        q + 8 <= p1 + n,
    ensures
        u64_at(s1, q) == u64_at(s2, q - p1 + p2),
{
    let w1 = s1.subrange(p1, p1 + n);
    let w2 = s2.subrange(p2, p2 + n);
    assert(s1.subrange(q, q + 8) =~= w1.subrange(q - p1, q - p1 + 8));
    assert(s2.subrange(q - p1 + p2, q - p1 + p2 + 8) =~= w2.subrange(q - p1, q - p1 + 8));
}

proof fn lemma_list_end_shift(s1: Seq<u8>, p1: int, s2: Seq<u8>, p2: int, n: int, q: int, elem: nat)
    requires
        same_window(s1, p1, s2, p2, n),
        p1 <= q,
        list_end(s1, q, elem) matches Some(r) && r <= p1 + n,
    ensures
        list_end(s2, q - p1 + p2, elem) == Some(list_end(s1, q, elem).unwrap() - p1 + p2),
{
    lemma_u64_at_shift(s1, p1, s2, p2, n, q);
}

proof fn lemma_instructions_end_shift(
    s1: Seq<u8>,
    p1: int,
    s2: Seq<u8>,
    p2: int,
    n: int,
    q: int,
    k: nat,
)
    requires
        same_window(s1, p1, s2, p2, n),
        p1 <= q,
        instructions_end(s1, q, k) matches Some(r) && r <= p1 + n,
    ensures
        instructions_end(s2, q - p1 + p2, k) == Some(instructions_end(s1, q, k).unwrap() - p1 + p2),
    decreases k,
{
    if k > 0 {
        let a = list_end(s1, q + 1, 1).unwrap();
        let b = list_end(s1, a, 1).unwrap();
        lemma_instructions_end_bound(s1, b, (k - 1) as nat);
        lemma_list_end_shift(s1, p1, s2, p2, n, q + 1, 1);
        lemma_list_end_shift(s1, p1, s2, p2, n, a, 1);
        lemma_instructions_end_shift(s1, p1, s2, p2, n, b, (k - 1) as nat);
    }
}

proof fn lemma_instructions_end_bound(s: Seq<u8>, q: int, k: nat)
    requires
        instructions_end(s, q, k) is Some,
    ensures
        q <= instructions_end(s, q, k).unwrap() <= s.len(),
    decreases k,
{
    if k > 0 {
        let a = list_end(s, q + 1, 1).unwrap();
        let b = list_end(s, a, 1).unwrap();
        lemma_instructions_end_bound(s, b, (k - 1) as nat);
    }
}

/// A transaction ends after it starts and within the bytes that hold it.
pub proof fn lemma_transaction_end_bounds(s: Seq<u8>, pos: int)
    ensures
        transaction_end(s, pos) matches Some(e) ==> 0 <= pos <= e <= s.len(),
{
    if transaction_end(s, pos) is Some {
        let a = list_end(s, pos, 64).unwrap();
        let b = list_end(s, a, 32).unwrap();
        let d = list_end(s, b + 40, 32).unwrap();
        lemma_instructions_end_bound(s, d + 8, u64_at(s, d));
    }
}

/// Where a transaction ends depends on its own bytes alone: the same bytes
/// elsewhere end the same distance on.
pub proof fn lemma_transaction_end_shift(s1: Seq<u8>, p1: int, s2: Seq<u8>, p2: int, n: int)
    requires
        same_window(s1, p1, s2, p2, n),
        transaction_end(s1, p1) == Some(p1 + n),
    ensures
        transaction_end(s2, p2) == Some(p2 + n),
{
    let a = list_end(s1, p1, 64).unwrap();
    let b = list_end(s1, a, 32).unwrap();
    let c = b + 40;
    let d = list_end(s1, c, 32).unwrap();
    let k = u64_at(s1, d);
    lemma_instructions_end_bound(s1, d + 8, k);
    lemma_list_end_shift(s1, p1, s2, p2, n, p1, 64);
    lemma_list_end_shift(s1, p1, s2, p2, n, a, 32);
    lemma_list_end_shift(s1, p1, s2, p2, n, c, 32);
    lemma_u64_at_shift(s1, p1, s2, p2, n, d);
    lemma_instructions_end_shift(s1, p1, s2, p2, n, d + 8, k);
}

/// Signature `k` of a run of well-formed transactions sits at bytes
/// `64 * k` to `64 * k + 64` of their signatures.
proof fn lemma_signatures_layout(txs: Seq<Transaction>)
    requires
        forall|k: int| 0 <= k < txs.len() ==> is_transaction(#[trigger] txs[k]@),
    ensures
        signatures(txs).len() == 64 * txs.len(),
        forall|k: int|
            0 <= k < txs.len() ==> signatures(txs).subrange(64 * k, 64 * k + 64) == signature_of(
                #[trigger] txs[k]@,
            ),
    decreases txs.len(),
{
    if txs.len() > 0 {
        let init = txs.drop_last();
        lemma_signatures_layout(init);
        let n = txs.len() - 1;
        let last = signature_of(txs.last()@);
        assert(last.len() == 64);
        assert forall|k: int| 0 <= k < txs.len() implies signatures(txs).subrange(
            64 * k,
            64 * k + 64,
        ) == signature_of(#[trigger] txs[k]@) by {
            if k < n {
                assert(init[k] == txs[k]);
                assert(signatures(txs).subrange(64 * k, 64 * k + 64) =~= signatures(init).subrange(
                    64 * k,
                    64 * k + 64,
                ));
            } else {
                assert(signatures(txs).subrange(64 * k, 64 * k + 64) =~= last);
            }
        }
    }
}

/// Swapping two well-formed transactions whose first signatures differ
/// changes the bytes whose digest the entry mixes in.
pub proof fn lemma_swap_changes_signatures(txs: Seq<Transaction>, i: int, j: int)
    requires
        0 <= i < j < txs.len(),
        forall|k: int| 0 <= k < txs.len() ==> is_transaction(#[trigger] txs[k]@),
        signature_of(txs[i]@) != signature_of(txs[j]@),
    ensures
        signatures(txs.update(i, txs[j]).update(j, txs[i])) != signatures(txs),
{
    let swapped = txs.update(i, txs[j]).update(j, txs[i]);
    assert forall|k: int| 0 <= k < swapped.len() implies is_transaction(#[trigger] swapped[k]@) by {
        if k == i {
        } else if k == j {
        } else {
            assert(swapped[k] == txs[k]);
        }
    }
    lemma_signatures_layout(txs);
    lemma_signatures_layout(swapped);
    assert(swapped[i] == txs[j]);
    assert(signatures(swapped).subrange(64 * i, 64 * i + 64) == signature_of(swapped[i]@));
    assert(signatures(txs).subrange(64 * i, 64 * i + 64) == signature_of(txs[i]@));
}

} // verus!
