//! The ways in which an operation of this crate can fail.

use vstd::prelude::*;

verus! {

/// Why an operation failed.
#[derive(Debug, Clone, Copy, PartialEq, Eq)]
pub enum XorError {
    /// The input is not one that the operation is defined for: two byte
    /// strings that have to be equally long are not, or are too long for the
    /// result to be counted, or there is nothing to choose from.
    InvalidInput,
    /// None of the keys tried deciphers the ciphertext to UTF-8 text.
    NoSolutionFound,
}

} // verus!
