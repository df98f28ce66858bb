use poh_entry::blob::{encode_entry, reconstruct_entries_from_blobs, Blob, BlobError};
use poh_entry::entry::{next_entries, next_entry, next_hash, Entry, BLOB_DATA_SIZE};
use poh_entry::entry_slice::EntrySlice;
use poh_entry::hash::hash;
use poh_entry::transaction::Transaction;

/// Over-the-wire limit of one transaction.
const PACKET_DATA_SIZE: usize = 512;

/// The wire form of a transaction signed once with `sig`, with `keys`
/// account keys and `userdata` bytes of instruction data.
fn tx_wire(sig: u8, keys: usize, userdata: usize) -> Vec<u8> {
    let mut w = Vec::new();
    w.extend_from_slice(&1u64.to_le_bytes());
    w.extend_from_slice(&[sig; 64]);
    w.extend_from_slice(&(keys as u64).to_le_bytes());
    for k in 0..keys {
        w.extend_from_slice(&[k as u8; 32]);
    }
    w.extend_from_slice(&[7u8; 32]);
    w.extend_from_slice(&0u64.to_le_bytes());
    w.extend_from_slice(&1u64.to_le_bytes());
    w.extend_from_slice(&[9u8; 32]);
    w.extend_from_slice(&1u64.to_le_bytes());
    w.push(0);
    w.extend_from_slice(&2u64.to_le_bytes());
    w.extend_from_slice(&[0, 1]);
    w.extend_from_slice(&(userdata as u64).to_le_bytes());
    w.extend(std::iter::repeat(sig).take(userdata));
    w
}

fn tx(sig: u8, keys: usize, userdata: usize) -> Transaction {
    Transaction::from_wire(tx_wire(sig, keys, userdata)).unwrap()
}

fn zero() -> poh_entry::hash::Hash {
    poh_entry::hash::Hash::default()
}

fn one() -> poh_entry::hash::Hash {
    hash(&zero().0)
}

#[test]
fn test_entry_verify() {
    let zero = zero();
    let one = one();
    assert!(Entry::new_tick(0, 0, &zero).verify(&zero)); // base case, never used
    assert!(!Entry::new_tick(1, 0, &zero).verify(&one)); // base case, bad
    assert!(next_entry(&zero, 1, vec![]).verify(&zero)); // inductive step
    assert!(!next_entry(&zero, 1, vec![]).verify(&one)); // inductive step, bad
}

#[test]
fn test_transaction_reorder_attack() {
    let zero = zero();
    let tx0 = tx(1, 2, 12);
    let tx1 = tx(2, 2, 12);
    let mut e0 = Entry::new(&zero, 0, 0, vec![tx0.clone(), tx1.clone()]);
    assert!(e0.verify(&zero));

    // swap two transactions: verification fails
    e0.transactions[0] = tx1;
    e0.transactions[1] = tx0;
    assert!(!e0.verify(&zero));
}

#[test]
fn test_witness_reorder_attack() {
    let zero = zero();
    let tx0 = tx(3, 3, 40);
    let tx1 = tx(4, 3, 8);
    let mut e0 = Entry::new(&zero, 0, 0, vec![tx0.clone(), tx1.clone()]);
    assert!(e0.verify(&zero));

    // swap two witness transactions: verification fails
    e0.transactions[0] = tx1;
    e0.transactions[1] = tx0;
    assert!(!e0.verify(&zero));
}

#[test]
fn test_next_entry() {
    let zero = zero();
    let tick = next_entry(&zero, 1, vec![]);
    assert_eq!(tick.num_hashes, 1);
    assert_ne!(tick.id, zero);

    let tick = next_entry(&zero, 0, vec![]);
    assert_eq!(tick.num_hashes, 0);
    assert_eq!(tick.id, zero);

    let tx0 = tx(5, 3, 20);
    let entry0 = next_entry(&zero, 1, vec![tx0.clone()]);
    assert_eq!(entry0.num_hashes, 1);
    assert_eq!(entry0.id, next_hash(&zero, 1, &vec![tx0]));
}

#[test]
fn test_serialized_size() {
    let zero = zero();
    let tx = tx(6, 2, 0);
    let entry = next_entry(&zero, 1, vec![tx.clone()]);
    assert_eq!(
        Entry::serialized_size(&[tx]),
        encode_entry(&entry).len() as u64
    );
}

#[test]
fn test_verify_slice() {
    let zero = zero();
    let one = one();
    let empty: Vec<Entry> = vec![];
    assert!(empty[..].verify(&zero)); // base case
    assert!(vec![Entry::new_tick(0, 0, &zero)][..].verify(&zero)); // singleton case 1
    assert!(!vec![Entry::new_tick(0, 0, &zero)][..].verify(&one)); // singleton case 2, bad
    assert!(vec![next_entry(&zero, 0, vec![]); 2][..].verify(&zero)); // inductive step

    let mut bad_ticks = vec![next_entry(&zero, 0, vec![]); 2];
    bad_ticks[1].id = one;
    assert!(!bad_ticks.verify(&zero)); // inductive step, bad
}

/// A mix of small and larger transactions that fills a record more or less
/// exactly, so that reading back with the wrong size falls over.
fn make_test_entries() -> Vec<Entry> {
    let zero = zero();
    let tx0 = tx(11, 1, 13);
    let tx1 = tx(12, 4, 60);
    let mut transactions = vec![tx0; 362];
    transactions.extend(vec![tx1; 100]);
    next_entries(&zero, 0, transactions)
}

#[test]
fn test_entries_to_shared_blobs() {
    let entries = make_test_entries();
    assert!(entries.len() >= 2);

    let blob_q = entries.to_blobs();

    assert_eq!(reconstruct_entries_from_blobs(&blob_q).unwrap().0, entries);
}

#[test]
fn test_bad_blobs_attack() {
    // a record carrying an encoded (0, socket address) pair, not an entry
    let mut payload = Vec::new();
    payload.extend_from_slice(&0i32.to_le_bytes());
    payload.extend_from_slice(&0u32.to_le_bytes());
    payload.extend_from_slice(&[0, 0, 0, 0]);
    payload.extend_from_slice(&8000u16.to_le_bytes());
    let size = payload.len() as u64;
    payload.resize(BLOB_DATA_SIZE, 0);
    let blobs_q = vec![Blob { data: payload, size }];
    assert!(reconstruct_entries_from_blobs(&blobs_q).is_err());
    assert_eq!(
        reconstruct_entries_from_blobs(&blobs_q),
        Err(BlobError::Malformed)
    );
}

#[test]
fn test_next_entries() {
    let id = zero();
    let tx_small = tx(21, 1, 4);
    let tx_large = tx(22, 4, 120);

    let tx_small_size = tx_small.serialized_size() as usize;
    let tx_large_size = tx_large.serialized_size() as usize;
    let entry_size = encode_entry(&Entry::new_tick(0, 0, &zero())).len();
    assert!(tx_small_size < tx_large_size);
    assert!(tx_large_size < PACKET_DATA_SIZE);

    let threshold = (BLOB_DATA_SIZE - entry_size) / tx_small_size;

    // verify no split
    let transactions = vec![tx_small.clone(); threshold];
    let entries0 = next_entries(&id, 0, transactions.clone());
    assert_eq!(entries0.len(), 1);
    assert!(entries0.verify(&id));

    // verify the split with uniform transactions
    let transactions = vec![tx_small.clone(); threshold * 2];
    let entries0 = next_entries(&id, 0, transactions.clone());
    assert_eq!(entries0.len(), 2);
    assert!(entries0.verify(&id));

    // verify the split with small transactions followed by large
    // transactions
    let mut transactions = vec![tx_small.clone(); BLOB_DATA_SIZE / tx_small_size];
    let large_transactions = vec![tx_large.clone(); BLOB_DATA_SIZE / tx_large_size];

    transactions.extend(large_transactions);

    let entries0 = next_entries(&id, 0, transactions.clone());
    assert!(entries0.len() >= 2);
    assert!(entries0.verify(&id));
}
