//! Proof of History entries: the hash chain, the ledger record, the packer
//! that fits transactions into network records, and the verifier.

pub mod blob;
pub mod entry;
pub mod entry_slice;
pub mod hash;
pub mod poh;
pub mod transaction;
pub mod verify;
pub mod wire;
