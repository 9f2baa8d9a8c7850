//! Block verification, and a verifier that accepts every block.

use vstd::prelude::*;
use crate::views::Header;

verus! {

/// Why a block was refused.
#[derive(Clone, Copy, Debug, PartialEq, Eq, Structural)]
pub enum Error {
    /// The block breaks a rule of the chain.
    InvalidBlock,
}

/// Checks blocks against their family and against what was expected of them.
pub trait Verifier: Send + Sync {
    /// Checks a block, given as its header and its encoding, against its family.
    fn verify_block_family(&self, header: &Header, bytes: &[u8]) -> Result<(), Error>;

    /// Checks that the block that was got is the one that was expected.
    fn verify_block_final(&self, expected: &Header, got: &Header) -> Result<(), Error>;
}

/// A verifier that accepts every block.
#[derive(Clone, Copy, Debug)]
pub struct NoopVerifier;

impl Verifier for NoopVerifier {
    fn verify_block_family(&self, _header: &Header, _bytes: &[u8]) -> (r: Result<(), Error>)
        ensures
            r is Ok,
    {
        Ok(())
    }

    fn verify_block_final(&self, _expected: &Header, _got: &Header) -> (r: Result<(), Error>)
        ensures
            r is Ok,
    {
        Ok(())
    }
}

} // verus!
