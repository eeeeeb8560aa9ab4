//! The error type shared by every cipher component.

use vstd::prelude::*;

verus! {

/// One tagged error for the whole library: an unknown cipher name, a key
/// that fails a cipher's parsing or validation rules, or a text the
/// algorithm cannot process. The payload is a human-readable message.
#[derive(Debug, Clone, PartialEq, Eq)]
pub enum CipherError {
    InvalidCipher(String),
    InvalidKey(String),
    InvalidInput(String),
}

impl CipherError {
    /// The message carried by the error, whichever variant it is.
    pub fn message(&self) -> (r: String)
        ensures
            (match self {
                CipherError::InvalidCipher(m) => r@ == m@,
                CipherError::InvalidKey(m) => r@ == m@,
                CipherError::InvalidInput(m) => r@ == m@,
            }),
    {
        match self {
            CipherError::InvalidCipher(m) => m.clone(),
            CipherError::InvalidKey(m) => m.clone(),
            CipherError::InvalidInput(m) => m.clone(),
        }
    }
}

} // verus!
