//! Breaking a cipher that XORs every byte of the message with one key byte.
//!
//! The solver tries every printable key byte, scores what each one deciphers,
//! and keeps the key whose plaintext is closest to English; among keys that do
//! equally well the lowest wins. The detector runs the solver on several byte
//! strings and keeps the plaintext that is closest to English; among equals the
//! one that came first wins.

use crate::error::XorError;
use crate::frequency::FrequencyTable;
use crate::frequency::is_frequency_table;
use crate::score::{bytes_score, lemma_score_range, score_bytes, uppercase_of, SCORE_LIMIT};
use crate::selection::{admit_all, first_least, is_first_least, lemma_first_least};
use crate::xor::{
    decrypt_with_single_character_cypher, lemma_single_byte_involution, xor_with_byte,
};
use vstd::prelude::*;
use vstd::utf8::{decode_utf8, valid_utf8};

verus! {

/// The lowest key byte that the solver tries: the space.
pub const FIRST_KEY: u8 = 32;

/// The highest key byte that the solver tries: the tilde.
pub const LAST_KEY: u8 = 126;

/// How well `key` deciphers `cipher`: the score of what it gives.
pub open spec fn key_score(cipher: Seq<u8>, key: u8, table: Seq<u32>) -> int {
    bytes_score(xor_with_byte(cipher, key), table)
}

/// The scores of all keys on `cipher`, by key.
pub open spec fn key_scores(cipher: Seq<u8>, table: Seq<u32>) -> spec_fn(int) -> int {
    |key: int| key_score(cipher, key as u8, table)
}

/// The key that deciphers `cipher` best: the first of the printable keys with
/// the lowest score.
pub open spec fn best_key(cipher: Seq<u8>, table: Seq<u32>) -> u8 {
    first_least(
        key_scores(cipher, table),
        admit_all(),
        FIRST_KEY as int,
        LAST_KEY + 1,
    ).unwrap() as u8
}

/// What the best key makes of `cipher`.
pub open spec fn solved_text(cipher: Seq<u8>, table: Seq<u32>) -> Seq<u8> {
    xor_with_byte(cipher, best_key(cipher, table))
}

/// The byte strings that `texts` refers to.
pub open spec fn byte_strings(texts: Seq<&[u8]>) -> Seq<Seq<u8>> {
    Seq::new(texts.len(), |i: int| texts[i]@)
}

/// The scores of the solved texts, by position.
pub open spec fn solved_scores(texts: Seq<Seq<u8>>, table: Seq<u32>) -> spec_fn(int) -> int {
    |i: int| bytes_score(solved_text(texts[i], table), table)
}

/// The position of the text that solves best: the first with the lowest score
/// once solved. `None` if there are no texts.
pub open spec fn detected(texts: Seq<Seq<u8>>, table: Seq<u32>) -> Option<int> {
    first_least(solved_scores(texts, table), admit_all(), 0, texts.len() as int)
}

/// The best key is a printable byte, no printable key scores lower, and every
/// lower key scores higher.
pub proof fn lemma_best_key(cipher: Seq<u8>, table: Seq<u32>)
    ensures
        FIRST_KEY <= best_key(cipher, table) <= LAST_KEY,
        forall|key: u8|
            FIRST_KEY <= key <= LAST_KEY ==> key_score(cipher, best_key(cipher, table), table)
                <= #[trigger] key_score(cipher, key, table),
        forall|key: u8|
            FIRST_KEY <= key < best_key(cipher, table) ==> key_score(
                cipher,
                best_key(cipher, table),
                table,
            ) < #[trigger] key_score(cipher, key, table),
{
    let scores = key_scores(cipher, table);
    lemma_first_least(scores, admit_all(), FIRST_KEY as int, LAST_KEY + 1);
    assert(admit_all()(FIRST_KEY as int));
    let best = first_least(scores, admit_all(), FIRST_KEY as int, LAST_KEY + 1).unwrap();
    assert(is_first_least(scores, admit_all(), FIRST_KEY as int, LAST_KEY + 1, best));
    assert forall|key: u8| FIRST_KEY <= key <= LAST_KEY implies key_score(
        cipher,
        best_key(cipher, table),
        table,
    ) <= #[trigger] key_score(cipher, key, table) by {
        assert(admit_all()(key as int));
        assert(scores(best) <= scores(key as int));
    }
    assert forall|key: u8| FIRST_KEY <= key < best_key(cipher, table) implies key_score(
        cipher,
        best_key(cipher, table),
        table,
    ) < #[trigger] key_score(cipher, key, table) by {
        assert(admit_all()(key as int));
        assert(scores(best) < scores(key as int));
    }
}

/// Where a message scores lower than everything that some other printable key
/// would make of its ciphertext, the solver finds the key it was enciphered
/// with, and the message.
pub proof fn lemma_solver_recovers_key(plain: Seq<u8>, key: u8, table: Seq<u32>)
    requires
        FIRST_KEY <= key <= LAST_KEY,
        forall|other: u8|
            FIRST_KEY <= other <= LAST_KEY && other != key ==> bytes_score(plain, table)
                < #[trigger] key_score(xor_with_byte(plain, key), other, table),
    ensures
        best_key(xor_with_byte(plain, key), table) == key,
        solved_text(xor_with_byte(plain, key), table) == plain,
{
    let cipher = xor_with_byte(plain, key);
    lemma_single_byte_involution(plain, key);
    lemma_best_key(cipher, table);
    let best = best_key(cipher, table);
    if best != key {
        assert(key_score(cipher, best, table) <= key_score(cipher, key, table));
        assert(bytes_score(plain, table) < key_score(cipher, best, table));
    }
}

/// Where some printable key deciphers to a text that can be read, so does the
/// best key: a plaintext that is not UTF-8 never wins over one that is.
pub proof fn lemma_solver_prefers_text(cipher: Seq<u8>, key: u8, table: Seq<u32>)
    requires
        is_frequency_table(table),
        FIRST_KEY <= key <= LAST_KEY,
        valid_utf8(xor_with_byte(cipher, key)),
        uppercase_of(decode_utf8(xor_with_byte(cipher, key))).len() > 0,
    ensures
        valid_utf8(solved_text(cipher, table)),
        key_score(cipher, best_key(cipher, table), table) < SCORE_LIMIT,
{
    lemma_score_range(xor_with_byte(cipher, key), table);
    lemma_best_key(cipher, table);
    assert(key_score(cipher, best_key(cipher, table), table) <= key_score(cipher, key, table));
    lemma_score_range(solved_text(cipher, table), table);
}

/// Finds the single key byte that `encrypted_bin` was most likely XOR-ed with,
/// and returns what that key deciphers, with the key.
///
/// The keys tried are the printable bytes from `FIRST_KEY` to `LAST_KEY`. The
/// key returned deciphers to the lowest score; where several do, it is the
/// lowest of them.
pub fn brute_force_single_character_xor(encrypted_bin: &[u8], table: &FrequencyTable) -> (solved: (
    Vec<u8>,
    u8,
))
    ensures
        solved.1 == best_key(encrypted_bin@, table@),
        solved.0@ == xor_with_byte(encrypted_bin@, solved.1),
        FIRST_KEY <= solved.1 <= LAST_KEY,
        forall|key: u8|
            FIRST_KEY <= key <= LAST_KEY ==> key_score(encrypted_bin@, solved.1, table@)
                <= #[trigger] key_score(encrypted_bin@, key, table@),
        forall|key: u8|
            FIRST_KEY <= key < solved.1 ==> key_score(encrypted_bin@, solved.1, table@)
                < #[trigger] key_score(encrypted_bin@, key, table@),
{
    let ghost scores = key_scores(encrypted_bin@, table@);
    let mut best: u8 = FIRST_KEY;
    let mut best_score: usize = score_bytes(
        decrypt_with_single_character_cypher(encrypted_bin, FIRST_KEY),
        table,
    );
    let mut key: u8 = FIRST_KEY;
    proof {
        assert(admit_all()(FIRST_KEY as int));
        assert(first_least(scores, admit_all(), FIRST_KEY as int, FIRST_KEY as int) is None);
    }
    while key < LAST_KEY
        invariant
            FIRST_KEY <= key <= LAST_KEY,
            scores == key_scores(encrypted_bin@, table@),
            first_least(scores, admit_all(), FIRST_KEY as int, key + 1) == Some(best as int),
            best_score == key_score(encrypted_bin@, best, table@),
        decreases LAST_KEY - key,
    {
        key += 1;
        let score: usize = score_bytes(decrypt_with_single_character_cypher(encrypted_bin, key), table);
        proof {
            assert(admit_all()(key as int));
            assert(scores(key as int) == score);
        }
        if score < best_score {
            best = key;
            best_score = score;
        }
    }
    proof {
        lemma_best_key(encrypted_bin@, table@);
    }
    (decrypt_with_single_character_cypher(encrypted_bin, best), best)
}

/// Finds, among several byte strings, the one that was enciphered with a
/// single-byte XOR, and returns it deciphered.
///
/// Every string is solved, and the plaintext with the lowest score is returned;
/// where several score the same, the one whose string came first. The call
/// is refused as `InvalidInput` exactly when there are no strings to choose
/// from.
pub fn detect_single_character_xor(texts_bin: &[&[u8]], table: &FrequencyTable) -> (found: Result<
    Vec<u8>,
    XorError,
>)
    ensures
        found is Err <==> texts_bin@.len() == 0,
        found matches Err(failure) ==> failure == XorError::InvalidInput,
        found matches Ok(plain) ==> (detected(byte_strings(texts_bin@), table@) matches Some(at)
            && plain@ == solved_text(texts_bin@[at]@, table@) && is_first_least(
            solved_scores(byte_strings(texts_bin@), table@),
            admit_all(),
            0,
            texts_bin@.len() as int,
            at,
        )),
{
    let ghost texts = byte_strings(texts_bin@);
    let ghost scores = solved_scores(texts, table@);
    let n: usize = texts_bin.len();
    let mut best: Option<Vec<u8>> = None;
    let mut best_score: usize = 0;
    let ghost mut best_at: int = 0;
    let mut i: usize = 0;
    while i < n
        invariant
            n == texts_bin@.len(),
            i <= n,
            texts == byte_strings(texts_bin@),
            scores == solved_scores(texts, table@),
            best is None <==> i == 0,
            best matches Some(plain) ==> {
                &&& first_least(scores, admit_all(), 0, i as int) == Some(best_at)
                &&& 0 <= best_at < i
                &&& plain@ == solved_text(texts[best_at], table@)
                &&& best_score == scores(best_at)
            },
            best is None ==> first_least(scores, admit_all(), 0, i as int) is None,
        decreases n - i,
    {
        let solved = brute_force_single_character_xor(texts_bin[i], table);
        let plain: Vec<u8> = solved.0;
        let score: usize = score_bytes(plain.clone(), table);
        proof {
            assert(admit_all()(i as int));
            assert(texts[i as int] == texts_bin@[i as int]@);
            assert(scores(i as int) == score);
        }
        let better: bool = match &best {
            None => true,
            Some(_) => score < best_score,
        };
        if better {
            best = Some(plain);
            best_score = score;
            proof {
                best_at = i as int;
            }
        }
        i += 1;
    }
    proof {
        lemma_first_least(scores, admit_all(), 0, n as int);
    }
    match best {
        Some(plain) => Ok(plain),
        None => Err(XorError::InvalidInput),
    }
}

} // verus!
