//! 32-byte SHA-256 digests and the hash-chain steps built from them.

use sha2::{Digest, Sha256};
use vstd::prelude::*;

verus! {

/// Length in bytes of a digest.
pub const HASH_BYTES: usize = 32;

/// What SHA-256 gives for a byte string.
pub uninterp spec fn sha256_of(data: Seq<u8>) -> Seq<u8>;

/// The digest after `n` plain hashing steps from `h`.
pub open spec fn hash_steps(h: Seq<u8>, n: nat) -> Seq<u8>
    decreases n,
{
    if n == 0 {
        h
    } else {
        sha256_of(hash_steps(h, (n - 1) as nat))
    }
}

/// One mixing step: the digest of `h` followed by `mixin`.
pub open spec fn mix(h: Seq<u8>, mixin: Seq<u8>) -> Seq<u8> {
    sha256_of(h + mixin)
}

/// The well-known value that a tick mixes in: 32 zero bytes.
pub open spec fn tick_marker() -> Seq<u8> {
    Seq::new(32, |i: int| 0u8)
}

/// A 32-byte SHA-256 digest.
#[derive(Clone, Copy, Debug, PartialEq, Eq, Default)]
pub struct Hash(pub [u8; 32]);

impl View for Hash {
    type V = Seq<u8>;

    open spec fn view(&self) -> Seq<u8> {
        self.0@
    }
}

/// Relies on sha2's `Sha256::digest`: the SHA-256 digest of `data`.
#[verifier::external_body]
fn sha256(data: &[u8]) -> (r: Hash)
    ensures
        r@ == sha256_of(data@),
{
    let digest = Sha256::digest(data);
    let mut bytes = [0u8; 32];
    bytes.copy_from_slice(digest.as_slice());
    Hash(bytes)
}

/// The SHA-256 digest of `data`.
pub fn hash(data: &[u8]) -> (r: Hash)
    ensures
        r@ == sha256_of(data@),
{
    sha256(data)
}

impl Hash {
    /// The all-zero digest, which is also the tick marker.
    pub fn zero() -> (r: Hash)
        ensures
            r@ == tick_marker(),
    {
        let r = Hash([0u8; 32]);
        assert(r@ =~= tick_marker());
        r
    }

    /// The digest of this digest's bytes followed by `mixin`'s.
    pub fn mixed_with(&self, mixin: &Hash) -> (r: Hash)
        ensures
            r@ == mix(self@, mixin@),
    {
        let mut buf: Vec<u8> = Vec::with_capacity(2 * HASH_BYTES);
        let mut i: usize = 0;
        while i < HASH_BYTES
            invariant
                i <= HASH_BYTES,
                buf@ == self@.subrange(0, i as int),
            decreases HASH_BYTES - i,
        {
            buf.push(self.0[i]);
            i = i + 1;
            assert(buf@ =~= self@.subrange(0, i as int));
        }
        let mut j: usize = 0;
        while j < HASH_BYTES
            invariant
                j <= HASH_BYTES,
                buf@ == self@ + mixin@.subrange(0, j as int),
            decreases HASH_BYTES - j,
        {
            buf.push(mixin.0[j]);
            j = j + 1;
            assert(buf@ =~= self@ + mixin@.subrange(0, j as int));
        }
        assert(mixin@.subrange(0, 32) =~= mixin@);
        sha256(buf.as_slice())
    }

    /// The digest of this digest's bytes.
    pub fn rehashed(&self) -> (r: Hash)
        ensures
            r@ == sha256_of(self@),
    {
        sha256(self.0.as_slice())
    }

    /// The digest whose bytes are `s`.
    pub fn from_slice(s: &[u8]) -> (r: Hash)
        requires
            s@.len() == 32,
        ensures
            r@ == s@,
    {
        let mut bytes = [0u8; 32];
        let mut j: usize = 0;
        while j < HASH_BYTES
            invariant
                j <= HASH_BYTES,
                s@.len() == 32,
                forall|m: int| 0 <= m < j ==> bytes@[m] == s@[m],
            decreases HASH_BYTES - j,
        {
            bytes[j] = s[j];
            j = j + 1;
        }
        assert(bytes@ =~= s@);
        Hash(bytes)
    }

    /// The digest's bytes.
    pub fn as_bytes(&self) -> (r: &[u8])
        ensures
            r@ == self@,
    {
        self.0.as_slice()
    }

    /// Whether two digests hold the same bytes.
    pub fn same(&self, other: &Hash) -> (r: bool)
        ensures
            r == (self@ == other@),
    {
        let mut i: usize = 0;
        while i < HASH_BYTES
            invariant
                i <= HASH_BYTES,
                forall|j: int| 0 <= j < i ==> self@[j] == other@[j],
            decreases HASH_BYTES - i,
        {
            if self.0[i] != other.0[i] {
                return false;
            }
            i = i + 1;
        }
        assert(self@ =~= other@);
        true
    }
}

} // verus!
