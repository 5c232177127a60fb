//! Block-cipher modes of operation over AES-128: padding, grouping into
//! 16-byte blocks, and the ECB, CBC and CTR constructions.
use vstd::prelude::*;

pub mod blocks;
pub mod cbc;
pub mod ctr;
pub mod ecb;
pub mod primitive;

verus! {

/// Number of bytes in one cipher block (and in one key).
pub const BLOCK_SIZE: usize = 16;

/// The ways a transform can fail.
#[derive(Debug, Clone, Copy, PartialEq, Eq, Structural)]
pub enum CipherError {
    /// The padding tail of a decrypted message is malformed.
    InvalidPadding,
    /// Input to grouping is not a whole number of blocks.
    InvalidBlockLength,
    /// A ciphertext is too short or not laid out in whole blocks.
    InvalidCiphertextLength,
}

/// A byte-vector result, with the vector seen as a sequence.
pub open spec fn result_view(r: Result<Vec<u8>, CipherError>) -> Result<Seq<u8>, CipherError> {
    match r {
        Ok(v) => Ok(v@),
        Err(e) => Err(e),
    }
}

} // verus!
