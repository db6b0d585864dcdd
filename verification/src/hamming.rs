//! Hamming distance between byte strings, counted in bits.

use crate::error::XorError;
use vstd::prelude::*;

verus! {

/// The number of bits set in `d`.
pub open spec fn bit_count(d: u8) -> nat {
    ((d & 1) + ((d >> 1) & 1) + ((d >> 2) & 1) + ((d >> 3) & 1) + ((d >> 4) & 1) + ((d >> 5) & 1)
        + ((d >> 6) & 1) + ((d >> 7) & 1)) as nat
}

/// The number of bit positions in which the first `n` bytes of `a` and of `b`
/// differ.
pub open spec fn hamming_prefix(a: Seq<u8>, b: Seq<u8>, n: nat) -> nat
    recommends
        n <= a.len(),
        n <= b.len(),
    decreases n,
{
    if n == 0 {
        0
    } else {
        hamming_prefix(a, b, (n - 1) as nat) + bit_count(a[n - 1] ^ b[n - 1])
    }
}

/// The number of bit positions in which `a` and `b` differ.
pub open spec fn hamming(a: Seq<u8>, b: Seq<u8>) -> nat
    recommends
        a.len() == b.len(),
{
    hamming_prefix(a, b, a.len())
}

/// Counts the bits set in `d`.
fn count_bits(d: u8) -> (c: u8)
    ensures
        c == bit_count(d),
        c <= 8,
{
    assert(d & 1 <= 1 && (d >> 1) & 1 <= 1 && (d >> 2) & 1 <= 1 && (d >> 3) & 1 <= 1 && (d >> 4) & 1
        <= 1 && (d >> 5) & 1 <= 1 && (d >> 6) & 1 <= 1 && (d >> 7) & 1 <= 1) by (bit_vector);
    (d & 1) + ((d >> 1) & 1) + ((d >> 2) & 1) + ((d >> 3) & 1) + ((d >> 4) & 1) + ((d >> 5) & 1) + (
    (d >> 6) & 1) + ((d >> 7) & 1)
}

/// Bit-level Hamming distance between two byte strings of the same length.
///
/// The count has to fit the result, so the strings hold at most
/// `usize::MAX / 8` bytes.
pub fn hamming_distance(a: &[u8], b: &[u8]) -> (d: usize)
    requires
        a@.len() == b@.len(),
        a@.len() <= usize::MAX / 8,
    ensures
        d == hamming(a@, b@),
        d == hamming(b@, a@),
        d == 0 <==> a@ == b@,
        d <= 8 * a@.len(),
{
    proof {
        lemma_hamming_symmetric(a@, b@);
        lemma_hamming_zero_iff_equal(a@, b@);
    }
    let n: usize = a.len();
    let mut d: usize = 0;
    let mut i: usize = 0;
    while i < n
        invariant
            n == a@.len(),
            n == b@.len(),
            n <= usize::MAX / 8,
            i <= n,
            d == hamming_prefix(a@, b@, i as nat),
            d <= 8 * i,
        decreases n - i,
    {
        let c: u8 = count_bits(a[i] ^ b[i]);
        d = d + c as usize;
        i += 1;
    }
    d
}

/// Bit-level Hamming distance between two byte strings, which is refused as
/// `InvalidInput` exactly when their lengths differ or they hold more than
/// `usize::MAX / 8` bytes.
pub fn checked_hamming_distance(a: &[u8], b: &[u8]) -> (d: Result<usize, XorError>)
    ensures
        d is Ok <==> a@.len() == b@.len() && a@.len() <= usize::MAX / 8,
        d matches Ok(bits) ==> bits == hamming(a@, b@) && bits == hamming(b@, a@) && (bits == 0
            <==> a@ == b@),
        d matches Err(failure) ==> failure == XorError::InvalidInput,
{
    if a.len() != b.len() || a.len() > usize::MAX / 8 {
        return Err(XorError::InvalidInput);
    }
    Ok(hamming_distance(a, b))
}

/// A byte has no bit set exactly when it is zero, and never more than eight.
proof fn lemma_bit_count_zero(d: u8)
    ensures
        bit_count(d) == 0 <==> d == 0,
        bit_count(d) <= 8,
{
    assert(((d & 1) + ((d >> 1) & 1) + ((d >> 2) & 1) + ((d >> 3) & 1) + ((d >> 4) & 1) + ((d >> 5)
        & 1) + ((d >> 6) & 1) + ((d >> 7) & 1) == 0) <==> d == 0) by (bit_vector);
    assert((d & 1) + ((d >> 1) & 1) + ((d >> 2) & 1) + ((d >> 3) & 1) + ((d >> 4) & 1) + ((d >> 5)
        & 1) + ((d >> 6) & 1) + ((d >> 7) & 1) <= 8) by (bit_vector);
}

/// Over a prefix, the distance does not depend on the order of the two strings.
proof fn lemma_hamming_prefix_symmetric(a: Seq<u8>, b: Seq<u8>, n: nat)
    ensures
        hamming_prefix(a, b, n) == hamming_prefix(b, a, n),
    decreases n,
{
    if n > 0 {
        lemma_hamming_prefix_symmetric(a, b, (n - 1) as nat);
        let x: u8 = a[n - 1];
        let y: u8 = b[n - 1];
        assert(x ^ y == y ^ x) by (bit_vector);
    }
}

/// Over a prefix, the distance is zero exactly when the prefixes agree byte for
/// byte.
proof fn lemma_hamming_prefix_zero(a: Seq<u8>, b: Seq<u8>, n: nat)
    requires
        n <= a.len(),
        n <= b.len(),
    ensures
        hamming_prefix(a, b, n) == 0 <==> (forall|i: int| 0 <= i < n ==> a[i] == b[i]),
    decreases n,
{
    if n > 0 {
        lemma_hamming_prefix_zero(a, b, (n - 1) as nat);
        let x: u8 = a[n - 1];
        let y: u8 = b[n - 1];
        lemma_bit_count_zero(x ^ y);
        assert(x ^ y == 0 <==> x == y) by (bit_vector);
        if hamming_prefix(a, b, n) == 0 {
            assert forall|i: int| 0 <= i < n implies a[i] == b[i] by {
                if i < n - 1 {
                } else {
                    assert(a[i] == x && b[i] == y);
                }
            }
        }
    }
}

/// The Hamming distance is symmetric: for strings of equal length, the distance
/// from `a` to `b` is the distance from `b` to `a`.
pub proof fn lemma_hamming_symmetric(a: Seq<u8>, b: Seq<u8>)
    requires
        a.len() == b.len(),
    ensures
        hamming(a, b) == hamming(b, a),
{
    lemma_hamming_prefix_symmetric(a, b, a.len());
}

/// The Hamming distance separates points: for strings of equal length, it is
/// zero exactly when the two strings are equal.
pub proof fn lemma_hamming_zero_iff_equal(a: Seq<u8>, b: Seq<u8>)
    requires
        a.len() == b.len(),
    ensures
        hamming(a, b) == 0 <==> a == b,
{
    lemma_hamming_prefix_zero(a, b, a.len());
    if hamming(a, b) == 0 {
        assert(a =~= b);
    }
}

} // verus!
