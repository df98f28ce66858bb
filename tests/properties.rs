use poh_entry::blob::{
    decode_entry, encode_entry, reconstruct_entries_from_blobs, to_blobs, Blob, BlobError,
};
use poh_entry::entry::{
    create_ticks, make_large_test_entries, make_tiny_test_entries,
    make_tiny_test_entries_from_id, next_entries, next_entries_mut, Entry, BLOB_DATA_SIZE,
    ENTRY_HEADER_SIZE,
};
use poh_entry::entry_slice::EntrySlice;
use poh_entry::hash::hash;
use poh_entry::poh::Poh;
use poh_entry::transaction::{transaction_end_at, Transaction};
use poh_entry::verify::{verify_entries, verify_entries_in_order};

fn wire(sigs: &[u8], keys: usize, userdata: usize) -> Vec<u8> {
    let mut w = Vec::new();
    w.extend_from_slice(&(sigs.len() as u64).to_le_bytes());
    for s in sigs {
        w.extend_from_slice(&[*s; 64]);
    }
    w.extend_from_slice(&(keys as u64).to_le_bytes());
    for k in 0..keys {
        w.extend_from_slice(&[k as u8; 32]);
    }
    w.extend_from_slice(&[7u8; 32]);
    w.extend_from_slice(&3u64.to_le_bytes());
    w.extend_from_slice(&0u64.to_le_bytes());
    w.extend_from_slice(&1u64.to_le_bytes());
    w.push(0);
    w.extend_from_slice(&0u64.to_le_bytes());
    w.extend_from_slice(&(userdata as u64).to_le_bytes());
    w.extend(std::iter::repeat(0xabu8).take(userdata));
    w
}

fn tx(sig: u8, userdata: usize) -> Transaction {
    Transaction::from_wire(wire(&[sig], 1, userdata)).unwrap()
}

fn zero() -> poh_entry::hash::Hash {
    poh_entry::hash::Hash::default()
}

fn hex(h: &poh_entry::hash::Hash) -> String {
    h.0.iter().map(|b| format!("{:02x}", b)).collect()
}

#[test]
fn sha256_of_zero_digest() {
    assert_eq!(
        hex(&hash(&[0u8; 32])),
        "66687aadf862bd776c8fc18b8e9f8e20089714856ee233b3902a591d0d5f2925"
    );
    assert_eq!(
        hex(&hash(b"")),
        "e3b0c44298fc1c149afbf4c8996fb92427ae41e4649b934ca495991b7852b855"
    );
}

#[test]
fn poh_steps_match_hashing() {
    let mut poh = Poh::new(zero(), 0);
    poh.hash();
    assert_eq!(poh.num_hashes, 1);
    assert_eq!(poh.id, hash(&zero().0));
    let mixin = hash(b"mixin");
    let before = poh.id;
    let rec = poh.record(&mixin);
    let mut joined = before.0.to_vec();
    joined.extend_from_slice(&mixin.0);
    assert_eq!(rec.id, hash(&joined));
    assert_eq!(rec.num_hashes, 2);
    assert_eq!(poh.num_hashes, 0);
    assert_eq!(poh.id, rec.id);

    let before = poh.id;
    let tick = poh.tick();
    let mut joined = before.0.to_vec();
    joined.extend_from_slice(&[0u8; 32]);
    assert_eq!(tick.id, hash(&joined));
    assert_eq!(tick.num_hashes, 1);
}

#[test]
fn entry_id_follows_the_chain() {
    // three hashes ending in a tick: two plain steps, then the tick mix
    let e = Entry::new(&zero(), 5, 3, vec![]);
    let h1 = hash(&zero().0);
    let h2 = hash(&h1.0);
    let mut joined = h2.0.to_vec();
    joined.extend_from_slice(&[0u8; 32]);
    assert_eq!(e.id, hash(&joined));
    assert_eq!(e.tick_height, 5);
    assert_eq!(e.num_hashes, 3);
    assert!(e.is_tick());

    // transactions with no hashes: one hash, the mix of their digest
    let t = tx(9, 0);
    let e = Entry::new(&zero(), 0, 0, vec![t.clone()]);
    assert_eq!(e.num_hashes, 1);
    let mut joined = zero().0.to_vec();
    joined.extend_from_slice(&Transaction::hash(&[t]).0);
    assert_eq!(e.id, hash(&joined));
    assert!(!e.is_tick());
}

#[test]
fn batch_digest_covers_first_signatures_in_order() {
    let a = Transaction::from_wire(wire(&[1, 2], 0, 0)).unwrap();
    let b = tx(3, 5);
    let mut sigs = vec![1u8; 64];
    sigs.extend_from_slice(&[3u8; 64]);
    assert_eq!(Transaction::hash(&[a.clone(), b.clone()]), hash(&sigs));
    assert_ne!(
        Transaction::hash(&[a.clone(), b.clone()]),
        Transaction::hash(&[b, a])
    );
    assert_eq!(Transaction::hash(&[]), hash(b""));
}

#[test]
fn transaction_wire_is_checked() {
    assert!(Transaction::from_wire(wire(&[1], 2, 3)).is_some());
    // no signature
    assert!(Transaction::from_wire(wire(&[], 2, 3)).is_none());
    // trailing byte
    let mut w = wire(&[1], 2, 3);
    w.push(0);
    assert!(Transaction::from_wire(w).is_none());
    // truncated
    let mut w = wire(&[1], 2, 3);
    w.pop();
    assert!(Transaction::from_wire(w).is_none());
    assert!(Transaction::from_wire(vec![]).is_none());
    let w = wire(&[1], 2, 3);
    assert_eq!(transaction_end_at(&w, 0), Some(w.len()));
    assert_eq!(tx(1, 10).serialized_size(), wire(&[1], 1, 10).len() as u64);
}

#[test]
fn serialized_size_formula() {
    let t1 = tx(1, 0);
    let t2 = tx(2, 50);
    let s1 = t1.serialized_size();
    let s2 = t2.serialized_size();
    assert_eq!(Entry::serialized_size(&[]), 56);
    assert_eq!(Entry::serialized_size(&[t1.clone(), t2.clone()]), 56 + s1 + s2);
    assert_eq!(ENTRY_HEADER_SIZE, 56);
    let e = Entry::new(&zero(), 0, 1, vec![t1, t2]);
    assert_eq!(encode_entry(&e).len() as u64, 56 + s1 + s2);
}

#[test]
fn num_will_fit_finds_the_frontier() {
    let t = tx(4, 100);
    let s = t.serialized_size() as usize;
    let most = (BLOB_DATA_SIZE - 56) / s;
    assert_eq!(Entry::num_will_fit(&[]), 0);
    assert_eq!(Entry::num_will_fit(&vec![t.clone(); 1]), 1);
    assert_eq!(Entry::num_will_fit(&vec![t.clone(); most]), most);
    assert_eq!(Entry::num_will_fit(&vec![t.clone(); most + 1]), most);
    assert_eq!(Entry::num_will_fit(&vec![t.clone(); 3 * most + 7]), most);
    // one transaction larger than a record: the answer is one
    let huge = tx(5, BLOB_DATA_SIZE);
    assert_eq!(Entry::num_will_fit(&[huge.clone(), huge]), 1);
}

#[test]
fn new_is_deterministic() {
    let txs = vec![tx(1, 3), tx(2, 4)];
    let a = Entry::new(&zero(), 7, 4, txs.clone());
    let b = Entry::new(&zero(), 7, 4, txs);
    assert_eq!(a, b);
    assert_eq!(encode_entry(&a), encode_entry(&b));
}

#[test]
fn no_op_entry_keeps_prev_id() {
    let prev = hash(b"prev");
    let e = Entry::new(&prev, 9, 0, vec![]);
    assert_eq!(e.id, prev);
    assert_eq!(e.num_hashes, 0);
    assert!(e.verify(&prev));
    assert!(!e.verify(&zero()));
    assert!(!e.verify(&hash(b"other")));
}

#[test]
fn packer_covers_input_in_order_within_records() {
    let mut txs = Vec::new();
    for i in 0..900u32 {
        txs.push(tx((i % 251) as u8, (i as usize * 7) % 300));
    }
    let seed = hash(b"seed");
    let mut start = seed;
    let mut num_hashes = 17u64;
    let entries = next_entries_mut(&mut start, &mut num_hashes, txs.clone());
    assert!(entries.len() >= 2);
    let flat: Vec<Transaction> = entries.iter().flat_map(|e| e.transactions.clone()).collect();
    assert_eq!(flat, txs);
    for e in &entries {
        assert!(Entry::serialized_size(&e.transactions) <= BLOB_DATA_SIZE as u64);
        assert!(!e.transactions.is_empty());
    }
    // each entry is filled as far as the next transaction allows
    for w in entries.windows(2) {
        let mut more = w[0].transactions.clone();
        more.push(w[1].transactions[0].clone());
        assert!(Entry::serialized_size(&more) > BLOB_DATA_SIZE as u64);
    }
    assert_eq!(entries[0].num_hashes, 17);
    assert!(entries[1..].iter().all(|e| e.num_hashes == 1));
    assert_eq!(start, entries.last().unwrap().id);
    assert_eq!(num_hashes, 0);
    assert!(entries.verify(&seed));
    assert!(!entries.verify(&zero()));
}

#[test]
fn packer_edge_cases() {
    let seed = hash(b"edge");
    // no transactions: one tick carrying the hash count
    let ticks = next_entries(&seed, 4, vec![]);
    assert_eq!(ticks.len(), 1);
    assert!(ticks[0].is_tick());
    assert_eq!(ticks[0].num_hashes, 4);
    assert!(ticks.verify(&seed));
    // one transaction: one entry
    let single = next_entries(&seed, 0, vec![tx(1, 1)]);
    assert_eq!(single.len(), 1);
    assert_eq!(single[0].num_hashes, 1);
    assert!(single.verify(&seed));
    // only one transaction fits per entry
    let big = tx(2, BLOB_DATA_SIZE / 2);
    let many = next_entries(&seed, 0, vec![big.clone(), big.clone(), big]);
    assert_eq!(many.len(), 3);
    assert!(many.iter().all(|e| e.transactions.len() == 1));
    assert!(many.verify(&seed));
}

#[test]
fn parallel_and_in_order_verification_agree() {
    let seed = hash(b"agree");
    let mut txs = Vec::new();
    for i in 0..700u32 {
        txs.push(tx(i as u8, 90));
    }
    let entries = next_entries(&seed, 2, txs);
    assert!(verify_entries(&entries, &seed));
    assert!(verify_entries_in_order(&entries, &seed));
    let mut bad = entries.clone();
    let n = bad.len();
    bad[n - 1].num_hashes += 1;
    assert!(!verify_entries(&bad, &seed));
    assert!(!verify_entries_in_order(&bad, &seed));
    let mut bad = entries.clone();
    bad.swap(0, 1);
    assert_eq!(verify_entries(&bad, &seed), verify_entries_in_order(&bad, &seed));
    assert!(!verify_entries(&bad, &seed));
}

#[test]
fn create_ticks_chain() {
    let seed = hash(b"ticks");
    let ticks = create_ticks(5, seed);
    assert_eq!(ticks.len(), 5);
    assert!(ticks.iter().all(|t| t.is_tick() && t.num_hashes == 1));
    assert!(ticks.verify(&seed));
    assert!(create_ticks(0, seed).is_empty());
}

#[test]
fn round_trip_through_blobs_counts_ticks() {
    let seed = hash(b"round");
    let mut entries = create_ticks(3, seed);
    let last = entries.last().unwrap().id;
    let mut txs = Vec::new();
    for i in 0..400u32 {
        txs.push(tx(i as u8, 150));
    }
    entries.extend(next_entries(&last, 0, txs));
    let blobs = to_blobs(&entries);
    for b in &blobs {
        assert_eq!(b.data.len(), BLOB_DATA_SIZE);
    }
    let (back, ticks) = reconstruct_entries_from_blobs(&blobs).unwrap();
    assert_eq!(back, entries);
    assert_eq!(ticks, 3);
    assert!(back.verify(&seed));
}

#[test]
fn entry_record_layout() {
    let t = tx(8, 2);
    let e = Entry::new(&zero(), 0x0102, 2, vec![t.clone()]);
    let bytes = encode_entry(&e);
    assert_eq!(&bytes[0..8], &0x0102u64.to_le_bytes());
    assert_eq!(&bytes[8..16], &2u64.to_le_bytes());
    assert_eq!(&bytes[16..48], &e.id.0);
    assert_eq!(&bytes[48..56], &1u64.to_le_bytes());
    assert_eq!(&bytes[56..], t.wire());
    assert_eq!(decode_entry(&bytes), Some(e));
    assert_eq!(decode_entry(&bytes[..55]), None);
}

#[test]
fn framing_errors() {
    let e = Entry::new(&zero(), 0, 1, vec![tx(1, 1)]);
    let good = e.to_blob();
    // size field past the record
    let mut bad_size = good.clone();
    bad_size.size = BLOB_DATA_SIZE as u64 + 1;
    assert_eq!(
        reconstruct_entries_from_blobs(&[good.clone(), bad_size]),
        Err(BlobError::BadSize)
    );
    // truncated payload
    let mut truncated = good.clone();
    truncated.size -= 1;
    assert_eq!(
        reconstruct_entries_from_blobs(&[truncated, good.clone()]),
        Err(BlobError::Malformed)
    );
    let empty = Blob { data: vec![], size: 0 };
    assert_eq!(reconstruct_entries_from_blobs(&[empty]), Err(BlobError::Malformed));
    assert_eq!(reconstruct_entries_from_blobs(&[]), Ok((vec![], 0)));
}

#[test]
fn tiny_test_entries_chain_one_transaction_each() {
    let start = hash(b"tiny");
    let txs: Vec<Transaction> = (0..6u8).map(|i| tx(i, i as usize)).collect();
    let entries = make_tiny_test_entries_from_id(&start, txs.clone());
    assert_eq!(entries.len(), 6);
    for (e, t) in entries.iter().zip(txs.iter()) {
        assert_eq!(e.transactions, vec![t.clone()]);
        assert_eq!(e.num_hashes, 1);
    }
    assert!(entries.verify(&start));
    let from_one = make_tiny_test_entries(txs);
    assert!(from_one.verify(&hash(&zero().0)));
    assert_eq!(from_one.len(), 6);
}

#[test]
fn large_test_entries_fill_a_record() {
    let t = tx(3, 200);
    let entries = make_large_test_entries(&t, 4);
    assert_eq!(entries.len(), 4);
    let one = hash(&zero().0);
    for e in &entries {
        assert!(e.verify(&one));
        assert!(Entry::serialized_size(&e.transactions) <= BLOB_DATA_SIZE as u64);
        assert!(e.transactions.iter().all(|x| *x == t));
        assert_eq!(*e, entries[0]);
    }
    let most = (BLOB_DATA_SIZE - 56) / t.serialized_size() as usize;
    assert_eq!(entries[0].transactions.len(), most);
}
