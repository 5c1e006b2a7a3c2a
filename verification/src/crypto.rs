//! The interface to a symmetric codec for the binary bucket files.

use vstd::prelude::*;

use crate::errors::DbError;

verus! {

/// Encrypts and decrypts one bucket file's bytes.  Implementations
/// choose the cipher discipline; a given installation's choices must
/// be stable so that what was encoded can be decoded.
pub trait CryptoProcessor {
    /// Encrypts the plaintext.
    fn encode(data: &Vec<u8>) -> Result<Vec<u8>, DbError>;

    /// Decrypts what `encode` produced.
    fn decode(data: &Vec<u8>) -> Result<Vec<u8>, DbError>;
}

} // verus!
