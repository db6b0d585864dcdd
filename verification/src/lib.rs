//! Cryptanalysis of single-byte and repeating-key XOR ciphers.
//!
//! The crate breaks two classic ciphers by statistics alone. Candidate
//! plaintexts are ranked by how far their letter frequencies are from those of
//! English ([`score`]); the key byte of a single-byte XOR cipher is found by
//! trying every printable byte ([`single_byte`]); and the key of a
//! repeating-key XOR cipher is found by estimating its length from the
//! Hamming distance between blocks of the ciphertext and solving each key
//! position on its own ([`repeating_key`]).
//!
//! Around these stand the table of expected letter frequencies
//! ([`frequency`]), the XOR of byte strings ([`xor`]), the Hamming distance
//! ([`hamming`]), the conversions between hexadecimal digits, Base64, text and
//! bytes ([`encoding`]), the rule by which the best of several candidates is
//! picked ([`selection`]), and the ways in which an operation can fail
//! ([`error`]).
//!
//! Every function states what it returns in terms of the mathematical models
//! that its module defines, and all of them are total on the inputs that their
//! preconditions admit.

pub mod encoding;
pub mod error;
pub mod frequency;
pub mod hamming;
pub mod repeating_key;
pub mod score;
pub mod selection;
pub mod single_byte;
pub mod xor;

pub use encoding::{bin_to_hex, hex_to_base64, hex_to_bin, is_hex_text, plaintext_to_bin};
pub use error::XorError;
pub use frequency::{english_monogram_frequency, split_entry, FrequencyTable};
pub use hamming::{checked_hamming_distance, hamming_distance};
pub use repeating_key::{break_repeating_key_xor, break_with_key_sizes, probable_key_sizes};
pub use score::{distance, is_settled, score_bytes, score_uppercased};
pub use single_byte::{brute_force_single_character_xor, detect_single_character_xor};
pub use xor::{
    checked_fixed_xor, decrypt_with_repeating_key_xor, decrypt_with_single_character_cypher,
    fixed_xor,
};
