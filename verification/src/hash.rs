//! Thirty-two byte content hashes: trie node hashes, state roots, block
//! hashes and epoch identifiers.

use vstd::prelude::*;
use vstd::slice::slice_to_vec;

verus! {

/// A thirty-two byte hash. Its view is the sequence of its bytes.
#[derive(Clone, Copy, Debug, PartialEq, Eq, Hash)]
pub struct CryptoHash {
    pub bytes: [u8; 32],
}

/// Hash of one trie node.
pub type NodeHash = CryptoHash;

/// Hash of the root node of a shard's trie at some block.
pub type StateRoot = CryptoHash;

/// Hash of a block.
pub type BlockHash = CryptoHash;

impl View for CryptoHash {
    type V = Seq<u8>;

    open spec fn view(&self) -> Seq<u8> {
        self.bytes@
    }
}

impl CryptoHash {
    /// Wraps thirty-two bytes.
    pub fn new(bytes: [u8; 32]) -> (hash: CryptoHash)
        ensures
            hash@ == bytes@,
    {
        CryptoHash { bytes }
    }

    /// The hash whose bytes all equal `byte`.
    pub fn filled(byte: u8) -> (hash: CryptoHash)
        ensures
            hash@ == Seq::new(32, |i: int| byte),
    {
        let bytes: [u8; 32] = [byte; 32];
        let hash = CryptoHash { bytes };
        assert(hash@ =~= Seq::new(32, |i: int| byte));
        hash
    }

    /// Whether two hashes hold the same bytes.
    pub fn same(&self, other: &CryptoHash) -> (r: bool)
        ensures
            r == (self@ == other@),
    {
        let mut i: usize = 0;
        while i < 32
            invariant
                i <= 32,
                forall|j: int| 0 <= j < i ==> self.bytes@[j] == other.bytes@[j],
            decreases 32 - i,
        {
            if self.bytes[i] != other.bytes[i] {
                return false;
            }
            i += 1;
        }
        assert(self@ =~= other@);
        true
    }

    /// The bytes of the hash, in order.
    pub fn to_vec(&self) -> (out: Vec<u8>)
        ensures
            out@ == self@,
    {
        slice_to_vec(self.bytes.as_slice())
    }

    /// Reads a hash from exactly thirty-two bytes.
    pub fn from_slice(bytes: &[u8]) -> (r: Option<CryptoHash>)
        ensures
            r is Some <==> bytes@.len() == 32,
            r matches Some(hash) ==> hash@ == bytes@,
    {
        if bytes.len() != 32 {
            return None;
        }
        let mut out: [u8; 32] = [0u8; 32];
        let mut i: usize = 0;
        while i < 32
            invariant
                i <= 32,
                bytes@.len() == 32,
                forall|j: int| 0 <= j < i ==> out@[j] == bytes@[j],
            decreases 32 - i,
        {
            out[i] = bytes[i];
            i += 1;
        }
        let hash = CryptoHash { bytes: out };
        assert(hash@ =~= bytes@);
        Some(hash)
    }
}

/// A hash has thirty-two bytes.
pub proof fn lemma_hash_len(hash: CryptoHash)
    ensures
        hash@.len() == 32,
{
}

} // verus!
