//! XOR of byte strings: against an equal-length string, against one repeated
//! byte, and against a key that repeats for as long as the message lasts.

use crate::error::XorError;
use vstd::prelude::*;

verus! {

/// The bytewise XOR of `a` with `b`, as long as `a`.
pub open spec fn xor_bytes(a: Seq<u8>, b: Seq<u8>) -> Seq<u8>
    recommends
        a.len() == b.len(),
{
    Seq::new(a.len(), |i: int| a[i] ^ b[i])
}

/// Every byte of `text` XOR-ed with the one byte `key`.
pub open spec fn xor_with_byte(text: Seq<u8>, key: u8) -> Seq<u8> {
    Seq::new(text.len(), |i: int| text[i] ^ key)
}

/// `text` XOR-ed with `key` repeated end to end: byte `i` meets key byte
/// `i % key.len()`.
pub open spec fn xor_with_repeating_key(text: Seq<u8>, key: Seq<u8>) -> Seq<u8>
    recommends
        key.len() > 0,
{
    Seq::new(text.len(), |i: int| text[i] ^ key[i % (key.len() as int)])
}

/// `key` repeated end to end and cut off after `len` bytes.
pub open spec fn stretched_key(key: Seq<u8>, len: nat) -> Seq<u8>
    recommends
        key.len() > 0,
{
    Seq::new(len, |i: int| key[i % (key.len() as int)])
}

/// XOR of two byte strings of the same length.
pub fn fixed_xor(s_bin: &[u8], t_bin: &[u8]) -> (out: Vec<u8>)
    requires
        s_bin@.len() == t_bin@.len(),
    ensures
        out@ == xor_bytes(s_bin@, t_bin@),
        xor_bytes(out@, t_bin@) == s_bin@,
{
    proof {
        lemma_fixed_xor_involution(s_bin@, t_bin@);
    }
    let n: usize = s_bin.len();
    let mut out: Vec<u8> = Vec::with_capacity(n);
    let mut i: usize = 0;
    while i < n
        invariant
            n == s_bin@.len(),
            n == t_bin@.len(),
            i <= n,
            out@.len() == i,
            forall|j: int| 0 <= j < i ==> out@[j] == s_bin@[j] ^ t_bin@[j],
        decreases n - i,
    {
        out.push(s_bin[i] ^ t_bin[i]);
        i += 1;
    }
    assert(out@ =~= xor_bytes(s_bin@, t_bin@));
    out
}

/// XOR of two byte strings, which is refused as `InvalidInput` exactly when
/// their lengths differ.
pub fn checked_fixed_xor(s_bin: &[u8], t_bin: &[u8]) -> (out: Result<Vec<u8>, XorError>)
    ensures
        out is Ok <==> s_bin@.len() == t_bin@.len(),
        out matches Ok(bytes) ==> bytes@ == xor_bytes(s_bin@, t_bin@),
        out matches Err(failure) ==> failure == XorError::InvalidInput,
{
    if s_bin.len() != t_bin.len() {
        return Err(XorError::InvalidInput);
    }
    Ok(fixed_xor(s_bin, t_bin))
}

/// XOR of every byte of `encrypted_bin` with the single byte `cypher`.
pub fn decrypt_with_single_character_cypher(encrypted_bin: &[u8], cypher: u8) -> (out: Vec<u8>)
    ensures
        out@ == xor_with_byte(encrypted_bin@, cypher),
{
    let n: usize = encrypted_bin.len();
    let mut out: Vec<u8> = Vec::with_capacity(n);
    let mut i: usize = 0;
    while i < n
        invariant
            n == encrypted_bin@.len(),
            i <= n,
            out@.len() == i,
            forall|j: int| 0 <= j < i ==> out@[j] == encrypted_bin@[j] ^ cypher,
        decreases n - i,
    {
        out.push(encrypted_bin[i] ^ cypher);
        i += 1;
    }
    assert(out@ =~= xor_with_byte(encrypted_bin@, cypher));
    out
}

/// XOR of `encrypted_bin` with `cypher` repeated to the message's length.
///
/// An empty key can only be stretched over an empty message.
pub fn decrypt_with_repeating_key_xor(encrypted_bin: &[u8], cypher: &[u8]) -> (out: Vec<u8>)
    requires
        cypher@.len() > 0 || encrypted_bin@.len() == 0,
    ensures
        out@ == xor_with_repeating_key(encrypted_bin@, cypher@),
{
    let n: usize = encrypted_bin.len();
    let k: usize = cypher.len();
    let mut out: Vec<u8> = Vec::with_capacity(n);
    let mut i: usize = 0;
    let mut pos: usize = 0;
    while i < n
        invariant
            n == encrypted_bin@.len(),
            k == cypher@.len(),
            k > 0 || n == 0,
            i <= n,
            i < n ==> pos < k,
            i < n ==> pos == i % k,
            out@.len() == i,
            forall|j: int| 0 <= j < i ==> out@[j] == encrypted_bin@[j] ^ cypher@[j % (k as int)],
        decreases n - i,
    {
        out.push(encrypted_bin[i] ^ cypher[pos]);
        proof {
            lemma_next_position(i as int, k as int);
        }
        i += 1;
        pos = if pos + 1 == k { 0 } else { pos + 1 };
    }
    assert(out@ =~= xor_with_repeating_key(encrypted_bin@, cypher@));
    out
}

/// Stepping an index forward moves its remainder forward by one, or back to 0.
proof fn lemma_next_position(i: int, k: int)
    requires
        0 <= i,
        0 < k,
    ensures
        (i + 1) % k == if i % k + 1 == k { 0 } else { i % k + 1 },
{
    vstd::arithmetic::div_mod::lemma_fundamental_div_mod(i, k);
    vstd::arithmetic::div_mod::lemma_fundamental_div_mod(i + 1, k);
    let q: int = i / k;
    let r: int = i % k;
    if r + 1 == k {
        assert(i + 1 == (q + 1) * k + 0) by (nonlinear_arith)
            requires
                i == k * q + r,
                r + 1 == k,
        ;
        vstd::arithmetic::div_mod::lemma_fundamental_div_mod_converse(i + 1, k, q + 1, 0);
    } else {
        assert(i + 1 == q * k + (r + 1)) by (nonlinear_arith)
            requires
                i == k * q + r,
        ;
        vstd::arithmetic::div_mod::lemma_fundamental_div_mod_converse(i + 1, k, q, r + 1);
    }
}

/// XOR-ing twice with the same string changes nothing: for `a` and `b` of
/// equal length, `(a ^ b) ^ b == a`.
pub proof fn lemma_fixed_xor_involution(a: Seq<u8>, b: Seq<u8>)
    requires
        a.len() == b.len(),
    ensures
        xor_bytes(xor_bytes(a, b), b) == a,
{
    assert forall|i: int| 0 <= i < a.len() implies (#[trigger] xor_bytes(xor_bytes(a, b), b)[i])
        == a[i] by {
        let x: u8 = a[i];
        let y: u8 = b[i];
        assert((x ^ y) ^ y == x) by (bit_vector);
    }
    assert(xor_bytes(xor_bytes(a, b), b) =~= a);
}

/// XOR with one byte is XOR with a string that holds that byte throughout.
pub proof fn lemma_single_byte_is_fixed_xor(text: Seq<u8>, key: u8)
    ensures
        xor_with_byte(text, key) == xor_bytes(text, Seq::new(text.len(), |i: int| key)),
{
    assert(xor_with_byte(text, key) =~= xor_bytes(text, Seq::new(text.len(), |i: int| key)));
}

/// XOR with a repeating key is XOR with the key stretched to the text's
/// length.
pub proof fn lemma_repeating_key_is_fixed_xor(text: Seq<u8>, key: Seq<u8>)
    ensures
        xor_with_repeating_key(text, key) == xor_bytes(text, stretched_key(key, text.len())),
{
    assert(xor_with_repeating_key(text, key) =~= xor_bytes(text, stretched_key(key, text.len())));
}

/// Deciphering undoes enciphering: XOR with the same repeating key twice
/// changes nothing.
pub proof fn lemma_repeating_key_involution(text: Seq<u8>, key: Seq<u8>)
    ensures
        xor_with_repeating_key(xor_with_repeating_key(text, key), key) == text,
{
    lemma_repeating_key_is_fixed_xor(text, key);
    lemma_repeating_key_is_fixed_xor(xor_with_repeating_key(text, key), key);
    lemma_fixed_xor_involution(text, stretched_key(key, text.len()));
}

/// Deciphering undoes enciphering: XOR with the same byte twice changes
/// nothing.
pub proof fn lemma_single_byte_involution(text: Seq<u8>, key: u8)
    ensures
        xor_with_byte(xor_with_byte(text, key), key) == text,
{
    lemma_single_byte_is_fixed_xor(text, key);
    lemma_single_byte_is_fixed_xor(xor_with_byte(text, key), key);
    lemma_fixed_xor_involution(text, Seq::new(text.len(), |i: int| key));
}

} // verus!
