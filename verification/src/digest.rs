use vstd::prelude::*;

use blake2::Blake2b512;
use blake2::Digest as _;

use crate::error::HasherError;
use crate::hasher::Hasher;
use crate::hasher::MerkleLeaf;

verus! {

/// A 256-bit hash value, the leaf and node type used with [`Blake2`].
///
/// The four words are the big-endian limbs of the value: `w0` holds the
/// most significant 8 bytes, `w3` the least significant ones.
#[derive(Clone, Copy, Debug, PartialEq, Eq, Structural)]
pub struct Word256 {
    pub w0: u64,
    pub w1: u64,
    pub w2: u64,
    pub w3: u64,
}

impl Word256 {
    /// Build a value from its four big-endian 64-bit limbs.
    pub fn new(w0: u64, w1: u64, w2: u64, w3: u64) -> (r: Self)
        ensures
            r == (Word256 { w0, w1, w2, w3 }),
    {
        Word256 { w0, w1, w2, w3 }
    }
}

impl MerkleLeaf for Word256 {
    fn clone_leaf(&self) -> (r: Self) {
        *self
    }

    fn eq_leaf(&self, other: &Self) -> (r: bool) {
        self.w0 == other.w0 && self.w1 == other.w1 && self.w2 == other.w2 && self.w3 == other.w3
    }
}

/// The BLAKE2b-512 digest, truncated to its first 32 bytes, of the 64-byte
/// message formed by the big-endian bytes of `left` followed by those of
/// `right`. Deterministic: it depends on the two arguments alone.
pub uninterp spec fn blake2_two(left: Word256, right: Word256) -> Word256;

/// Relies on the blake2 crate's Blake2b512 (new/update/finalize): hashing
/// the 64 big-endian bytes of the two inputs never fails and is a pure
/// function of those bytes; the first 32 digest bytes are returned.
#[verifier::external_body]
fn blake2_pair(left: &Word256, right: &Word256) -> (r: Word256)
    ensures
        r == blake2_two(*left, *right),
{
    let mut hasher = Blake2b512::new();
    for w in [left.w0, left.w1, left.w2, left.w3, right.w0, right.w1, right.w2, right.w3] {
        hasher.update(w.to_be_bytes());
    }
    let digest = hasher.finalize();
    Word256 {
        w0: u64::from_be_bytes(digest[0..8].try_into().unwrap()),
        w1: u64::from_be_bytes(digest[8..16].try_into().unwrap()),
        w2: u64::from_be_bytes(digest[16..24].try_into().unwrap()),
        w3: u64::from_be_bytes(digest[24..32].try_into().unwrap()),
    }
}

/// BLAKE2b-based hash combiner over 256-bit values.
#[derive(Clone, Copy, Debug)]
pub struct Blake2;

impl Hasher<Word256> for Blake2 {
    open spec fn spec_hash(self, left: Word256, right: Word256) -> Word256 {
        blake2_two(left, right)
    }

    open spec fn spec_hash_ok(self, left: Word256, right: Word256) -> bool {
        true
    }

    fn hash_two(&self, left: &Word256, right: &Word256) -> (r: Result<Word256, HasherError>) {
        Ok(blake2_pair(left, right))
    }
}

} // verus!
