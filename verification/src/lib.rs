//! Client-side logic of an Ethereum node and of its EVM test binary:
//! 256-bit words, hashes, the RLP block format, block-chain client queries
//! (gas price statistics, the DAO rescue block lookup), a storage map for a
//! fake EVM environment, and command line argument interpretation.

pub mod u256;
pub mod rlp;
pub mod sort;
pub mod types;
pub mod views;
pub mod client;
pub mod ext;
pub mod args;
pub mod verification;
