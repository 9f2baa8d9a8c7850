//! Hashes, addresses and block identifiers.

use vstd::prelude::*;
use crate::u256::U256;

verus! {

/// Raw bytes.
pub type Bytes = Vec<u8>;

/// The number of a block in the chain.
pub type BlockNumber = u64;

/// A 256-bit hash.
#[derive(Clone, Copy, Debug, PartialEq, Eq, Hash)]
pub struct H256(pub [u8; 32]);

/// A 160-bit account address.
#[derive(Clone, Copy, Debug, PartialEq, Eq, Hash)]
pub struct Address(pub [u8; 20]);

/// A 2048-bit log bloom filter.
#[derive(Clone, Copy, Debug, PartialEq, Eq)]
pub struct H2048(pub [u8; 256]);

impl H256 {
    /// The hash whose bytes are all zero.
    #[verifier::spinoff_prover]
    pub fn zero() -> (r: H256)
        ensures
            r.0@ == Seq::new(32, |i: int| 0u8),
    {
        let r = H256(vstd::array::array_fill_for_copy_types::<u8, 32>(0u8));
        proof {
            broadcast use vstd::array::group_array_axioms;

            assert(forall|i: int| 0 <= i < 32 ==> #[trigger] r.0@[i] == 0u8);
            assert(r.0@ =~= Seq::new(32, |i: int| 0u8));
        }
        r
    }

    /// Whether the two hashes hold the same bytes.
    pub fn equals(&self, other: &H256) -> (r: bool)
        ensures
            r == (self.0@ == other.0@),
    {
        let mut i: usize = 0;
        while i < 32
            invariant
                0 <= i <= 32,
                forall|j: int| 0 <= j < i ==> self.0[j] == other.0[j],
            decreases 32 - i,
        {
            if self.0[i] != other.0[i] {
                return false;
            }
            i = i + 1;
        }
        proof {
            assert(self.0@ =~= other.0@);
        }
        true
    }

    /// The hash made of the 32 bytes of `b`.
    pub fn from_slice(b: &[u8]) -> (r: H256)
        requires
            b.len() == 32,
        ensures
            r.0@ == b@,
    {
        let mut a = [0u8; 32];
        let mut i: usize = 0;
        while i < 32
            invariant
                0 <= i <= 32,
                b.len() == 32,
                forall|j: int| 0 <= j < i ==> a[j] == b@[j],
            decreases 32 - i,
        {
            a[i] = b[i];
            i = i + 1;
        }
        let r = H256(a);
        proof {
            assert(r.0@ =~= b@);
        }
        r
    }
}

/// Identifies a block: by hash, by number, or as the first or the latest block of the chain.
#[derive(Clone, Copy, Debug, PartialEq, Eq)]
pub enum BlockID {
    /// The block with this hash.
    Hash(H256),
    /// The block with this number in the canonical chain.
    Number(BlockNumber),
    /// The genesis block.
    Earliest,
    /// The best block of the canonical chain.
    Latest,
}

/// Where a block stands with respect to the chain.
#[derive(Clone, Copy, Debug, PartialEq, Eq, Structural)]
pub enum BlockStatus {
    /// Part of the blockchain.
    InChain,
    /// Queued for import.
    Queued,
    /// Known as bad.
    Bad,
    /// Unknown.
    Unknown,
}

/// A summary of the blockchain's state.
#[derive(Clone, Copy, Debug, PartialEq, Eq)]
pub struct BlockChainInfo {
    /// Total difficulty of the best block.
    pub total_difficulty: U256,
    /// Total difficulty including the queued blocks.
    pub pending_total_difficulty: U256,
    /// Hash of the genesis block.
    pub genesis_hash: H256,
    /// Hash of the best block.
    pub best_block_hash: H256,
    /// Number of the best block.
    pub best_block_number: BlockNumber,
}

} // verus!
