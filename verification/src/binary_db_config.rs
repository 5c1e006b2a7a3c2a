//! The storage configuration for the encrypted binary provider.

use vstd::prelude::*;

verus! {

/// Holds the 32-byte key the binary provider encrypts with.
pub struct BinaryDBConfiguration {
    pub aes_key: [u8; 32],
}

impl BinaryDBConfiguration {
    /// Builds a configuration around the given key.
    pub fn new(aes_key: [u8; 32]) -> (r: BinaryDBConfiguration)
        ensures
            r.aes_key == aes_key,
    {
        BinaryDBConfiguration { aes_key }
    }
}

} // verus!
