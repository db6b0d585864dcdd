//! Breaking a cipher that XORs the message with a short key repeated end to
//! end.
//!
//! The work goes in three steps. Key sizes are ranked by how little the first
//! blocks of that size differ from one another, and the best few are kept. For
//! each size kept, the ciphertext is dealt out into as many columns as the key
//! has bytes; a column was enciphered with one key byte, so the single-byte
//! solver finds it. Each key found so deciphers the whole ciphertext, and the
//! plaintext closest to English wins.

use crate::error::XorError;
use crate::frequency::FrequencyTable;
use crate::hamming::{hamming, hamming_distance};
use crate::score::{bytes_score, distance};
use crate::selection::{first_least, is_first_least, lemma_first_least};
use crate::single_byte::{best_key, brute_force_single_character_xor, solved_text};
use crate::xor::{decrypt_with_repeating_key_xor, xor_with_repeating_key};
use vstd::prelude::*;
use vstd::slice::slice_subrange;
use vstd::utf8::valid_utf8;

verus! {

/// The shortest key that is considered.
pub const MIN_KEY_SIZE: usize = 2;

/// The longest key that is considered.
pub const MAX_KEY_SIZE: usize = 40;

/// The number of blocks at the start of the ciphertext that a key size is
/// judged by: the first is held against each of the others.
pub const SAMPLED_BLOCKS: usize = 4;

/// The number of key sizes that are tried out, best first.
pub const TRIED_KEY_SIZES: usize = 3;

/// `size` is a key size to consider for a ciphertext of `len` bytes: within
/// bounds, and short enough for the ciphertext to hold the sampled blocks.
pub open spec fn is_key_size(len: nat, size: int) -> bool {
    MIN_KEY_SIZE <= size <= MAX_KEY_SIZE && SAMPLED_BLOCKS * size <= len
}

/// Block number `b` of `cipher` cut into blocks of `size` bytes.
pub open spec fn block(cipher: Seq<u8>, size: int, b: int) -> Seq<u8>
    recommends
        0 <= b,
        0 < size,
        (b + 1) * size <= cipher.len(),
{
    cipher.subrange(b * size, (b + 1) * size)
}

/// How unlikely `size` is as the key size, the lower the likelier: the Hamming
/// distances from the first block to the second, third and fourth, averaged,
/// divided by `size`, multiplied by 100 and cut down to a whole number.
pub open spec fn key_size_score(cipher: Seq<u8>, size: int) -> int
    recommends
        is_key_size(cipher.len(), size),
{
    let first = block(cipher, size, 0);
    let apart = hamming(first, block(cipher, size, 1)) + hamming(first, block(cipher, size, 2))
        + hamming(first, block(cipher, size, 3));
    (100 * apart as int) / (3 * size)
}

/// The scores of all key sizes on `cipher`, by size.
pub open spec fn key_size_scores(cipher: Seq<u8>) -> spec_fn(int) -> int {
    |size: int| key_size_score(cipher, size)
}

/// Key size `a` ranks before key size `b`: it scores lower, or as low and is
/// the smaller.
pub open spec fn ranks_before(cipher: Seq<u8>, a: int, b: int) -> bool {
    key_size_score(cipher, a) < key_size_score(cipher, b) || (key_size_score(cipher, a)
        == key_size_score(cipher, b) && a < b)
}

/// The key sizes that are still to come once `last` has been ranked: all of
/// them if nothing has, and else those that rank after `last`.
pub open spec fn unranked(cipher: Seq<u8>, last: Option<int>) -> spec_fn(int) -> bool {
    |size: int|
        is_key_size(cipher.len(), size) && (last matches Some(l) ==> ranks_before(cipher, l, size))
}

/// The key size that ranks next after `last`, if any is left.
pub open spec fn next_key_size(cipher: Seq<u8>, last: Option<int>) -> Option<int> {
    first_least(
        key_size_scores(cipher),
        unranked(cipher, last),
        MIN_KEY_SIZE as int,
        MAX_KEY_SIZE + 1,
    )
}

/// The `n` key sizes that rank first, best first; fewer if there are fewer.
pub open spec fn ranked_key_sizes(cipher: Seq<u8>, n: nat) -> Seq<usize>
    decreases n,
{
    if n == 0 {
        Seq::empty()
    } else {
        let before = ranked_key_sizes(cipher, (n - 1) as nat);
        if before.len() < n - 1 {
            before
        } else {
            let last = if n == 1 {
                None
            } else {
                Some(before.last() as int)
            };
            match next_key_size(cipher, last) {
                Some(size) => before.push(size as usize),
                None => before,
            }
        }
    }
}

/// The key sizes that are tried out on `cipher`, best first.
pub open spec fn probable_sizes(cipher: Seq<u8>) -> Seq<usize> {
    ranked_key_sizes(cipher, TRIED_KEY_SIZES as nat)
}

/// The number of key sizes that are considered for a ciphertext of `len` bytes.
pub open spec fn count_key_sizes(len: nat) -> nat {
    let longest = len as int / SAMPLED_BLOCKS as int;
    if longest < MIN_KEY_SIZE {
        0
    } else if longest > MAX_KEY_SIZE {
        (MAX_KEY_SIZE - MIN_KEY_SIZE + 1) as nat
    } else {
        (longest - MIN_KEY_SIZE + 1) as nat
    }
}

/// `sizes` holds key sizes of `cipher` in the order of their rank, and those
/// that it holds rank before those that it leaves out.
pub open spec fn is_in_order(cipher: Seq<u8>, sizes: Seq<usize>) -> bool {
    &&& forall|i: int| 0 <= i < sizes.len() ==> is_key_size(cipher.len(), #[trigger] sizes[i] as int)
    &&& forall|i: int, j: int|
        0 <= i < j < sizes.len() ==> ranks_before(
            cipher,
            #[trigger] sizes[i] as int,
            #[trigger] sizes[j] as int,
        )
    &&& forall|i: int, size: int|
        0 <= i < sizes.len() && is_key_size(cipher.len(), size) && !sizes.contains(size as usize)
            ==> #[trigger] ranks_before(cipher, sizes[i] as int, size)
}

/// `sizes` is the head of the key sizes of `cipher` put in order: the sizes
/// that rank first, best first, `TRIED_KEY_SIZES` of them or all if there are
/// fewer. Each ranks before the next, and before every key size left out.
pub open spec fn is_ranking(cipher: Seq<u8>, sizes: Seq<usize>) -> bool {
    &&& is_in_order(cipher, sizes)
    &&& sizes.len() == if count_key_sizes(cipher.len()) < TRIED_KEY_SIZES {
        count_key_sizes(cipher.len())
    } else {
        TRIED_KEY_SIZES as nat
    }
}

/// The number of bytes that column `i` takes when `len` bytes are dealt out
/// into `size` columns: one for every block that reaches that far.
pub open spec fn column_len(len: nat, size: int, i: int) -> nat {
    if 0 < size && 0 <= i < len {
        ((len - 1 - i) / size + 1) as nat
    } else {
        0
    }
}

/// Column `i` of `cipher` dealt out into `size` columns: the bytes at the
/// positions `i`, `i + size`, `i + 2 * size` and so on. These are the bytes
/// that met byte `i` of a key of `size` bytes.
pub open spec fn column(cipher: Seq<u8>, size: int, i: int) -> Seq<u8> {
    Seq::new(column_len(cipher.len(), size, i), |j: int| cipher[i + j * size])
}

/// The key of `size` bytes found for `cipher`: byte by byte, the key that
/// solves each column.
pub open spec fn candidate_key(cipher: Seq<u8>, size: int, table: Seq<u32>) -> Seq<u8> {
    Seq::new(size as nat, |i: int| best_key(column(cipher, size, i), table))
}

/// What the key found at `size` bytes makes of `cipher`.
pub open spec fn candidate_text(cipher: Seq<u8>, size: int, table: Seq<u32>) -> Seq<u8> {
    xor_with_repeating_key(cipher, candidate_key(cipher, size, table))
}

/// The scores of the candidate plaintexts, by the position of their key size
/// in `sizes`.
pub open spec fn candidate_scores(cipher: Seq<u8>, sizes: Seq<usize>, table: Seq<u32>) -> spec_fn(
    int,
) -> int {
    |at: int| bytes_score(candidate_text(cipher, sizes[at] as int, table), table)
}

/// Which candidate plaintexts are UTF-8 text, by the position of their key
/// size in `sizes`.
pub open spec fn readable(cipher: Seq<u8>, sizes: Seq<usize>, table: Seq<u32>) -> spec_fn(
    int,
) -> bool {
    |at: int| valid_utf8(candidate_text(cipher, sizes[at] as int, table))
}

/// The position in `sizes` of the key size that breaks `cipher`: of those
/// whose plaintext is UTF-8 text, the first with the lowest score. `None` if no
/// plaintext is UTF-8 text.
pub open spec fn winning_size(cipher: Seq<u8>, sizes: Seq<usize>, table: Seq<u32>) -> Option<int> {
    first_least(
        candidate_scores(cipher, sizes, table),
        readable(cipher, sizes, table),
        0,
        sizes.len() as int,
    )
}

/// `broken` is what breaking `cipher` with the key sizes `sizes` comes to: the
/// winning key with its plaintext, or the failure to find any.
pub open spec fn is_outcome(
    cipher: Seq<u8>,
    sizes: Seq<usize>,
    table: Seq<u32>,
    broken: Result<(Vec<u8>, Vec<u8>), XorError>,
) -> bool {
    match broken {
        Ok(pair) => {
            &&& winning_size(cipher, sizes, table) matches Some(at)
            &&& pair.1@ == candidate_key(cipher, sizes[at] as int, table)
            &&& pair.0@ == candidate_text(cipher, sizes[at] as int, table)
        },
        Err(failure) => {
            &&& winning_size(cipher, sizes, table) is None
            &&& failure == XorError::NoSolutionFound
        },
    }
}

/// What comes next in the ranking is a key size that ranks after the last one
/// and before every other size still to come; nothing comes next only when all
/// key sizes have been ranked.
proof fn lemma_next_key_size(cipher: Seq<u8>, last: Option<int>)
    ensures
        match next_key_size(cipher, last) {
            Some(next) => {
                &&& is_key_size(cipher.len(), next)
                &&& last is Some ==> ranks_before(cipher, last.unwrap(), next)
                &&& forall|size: int|
                    #[trigger] is_key_size(cipher.len(), size) && size != next && (last is Some
                        ==> ranks_before(cipher, last.unwrap(), size)) ==> ranks_before(
                        cipher,
                        next,
                        size,
                    )
            },
            None => forall|size: int|
                #[trigger] is_key_size(cipher.len(), size) ==> last is Some && !ranks_before(
                    cipher,
                    last.unwrap(),
                    size,
                ),
        },
{
    let scores = key_size_scores(cipher);
    let admits = unranked(cipher, last);
    lemma_first_least(scores, admits, MIN_KEY_SIZE as int, MAX_KEY_SIZE + 1);
    match next_key_size(cipher, last) {
        Some(next) => {
            assert(is_first_least(scores, admits, MIN_KEY_SIZE as int, MAX_KEY_SIZE + 1, next));
            assert(admits(next));
            assert forall|size: int|
                #[trigger] is_key_size(cipher.len(), size) && size != next && (last is Some
                    ==> ranks_before(cipher, last.unwrap(), size)) implies ranks_before(
                cipher,
                next,
                size,
            ) by {
                assert(admits(size));
                assert(scores(next) <= scores(size));
                if size < next {
                    assert(scores(next) < scores(size));
                }
            }
        },
        None => {
            assert forall|size: int| #[trigger] is_key_size(cipher.len(), size) implies last is Some
                && !ranks_before(cipher, last.unwrap(), size) by {
                assert(!admits(size));
            }
        },
    }
}

/// No key size ranks before itself, and of two that differ exactly one ranks
/// before the other.
proof fn lemma_ranks_before_is_strict(cipher: Seq<u8>, a: int, b: int)
    ensures
        !ranks_before(cipher, a, a),
        ranks_before(cipher, a, b) ==> !ranks_before(cipher, b, a),
        a != b ==> ranks_before(cipher, a, b) || ranks_before(cipher, b, a),
{
}

/// The first `n` key sizes in rank are in order, and rank before all others.
/// There are fewer than `n` of them only when there are no others.
proof fn lemma_ranked_key_sizes(cipher: Seq<u8>, n: nat)
    ensures
        is_in_order(cipher, ranked_key_sizes(cipher, n)),
        ranked_key_sizes(cipher, n).len() <= n,
        ranked_key_sizes(cipher, n).len() < n ==> forall|size: int| #[trigger]
            is_key_size(cipher.len(), size) ==> ranked_key_sizes(cipher, n).contains(size as usize),
    decreases n,
{
    let len = cipher.len();
    let ranked = ranked_key_sizes(cipher, n);
    if n > 0 {
        let before = ranked_key_sizes(cipher, (n - 1) as nat);
        lemma_ranked_key_sizes(cipher, (n - 1) as nat);
        if before.len() == n - 1 {
            let last = if n == 1 {
                None
            } else {
                Some(before.last() as int)
            };
            lemma_next_key_size(cipher, last);
            assert forall|size: int| #[trigger]
                is_key_size(len, size) && before.contains(size as usize) implies last is Some
                && !ranks_before(cipher, last.unwrap(), size) by {
                let i = choose|i: int| 0 <= i < before.len() && before[i] == size as usize;
                assert(is_key_size(len, before[i] as int));
                lemma_ranks_before_is_strict(cipher, before[i] as int, before.last() as int);
                if i < before.len() - 1 {
                    assert(ranks_before(cipher, before[i] as int, before[before.len() - 1] as int));
                }
            }
            match next_key_size(cipher, last) {
                Some(next) => {
                    assert(ranked == before.push(next as usize));
                    assert(!before.contains(next as usize));
                    assert forall|i: int| 0 <= i < ranked.len() implies is_key_size(
                        len,
                        #[trigger] ranked[i] as int,
                    ) by {
                        if i < before.len() {
                            assert(ranked[i] == before[i]);
                        }
                    }
                    assert forall|i: int, j: int| 0 <= i < j < ranked.len() implies ranks_before(
                        cipher,
                        #[trigger] ranked[i] as int,
                        #[trigger] ranked[j] as int,
                    ) by {
                        assert(ranked[i] == before[i]);
                        if j < before.len() {
                            assert(ranked[j] == before[j]);
                        } else {
                            assert(ranks_before(cipher, before[i] as int, next));
                        }
                    }
                    assert forall|i: int, size: int|
                        0 <= i < ranked.len() && is_key_size(len, size) && !ranked.contains(
                            size as usize,
                        ) implies #[trigger] ranks_before(cipher, ranked[i] as int, size) by {
                        assert(size != next) by {
                            if size == next {
                                assert(ranked[ranked.len() - 1] == size as usize);
                            }
                        }
                        assert(!before.contains(size as usize)) by {
                            if before.contains(size as usize) {
                                let k = choose|k: int|
                                    0 <= k < before.len() && before[k] == size as usize;
                                assert(ranked[k] == size as usize);
                            }
                        }
                        if i < before.len() {
                            assert(ranked[i] == before[i]);
                            assert(ranks_before(cipher, before[i] as int, size));
                        } else {
                            if last is Some {
                                assert(ranks_before(cipher, before[before.len() - 1] as int, size));
                            }
                        }
                    }
                },
                None => {
                    assert forall|size: int| #[trigger] is_key_size(len, size) implies ranked.contains(
                        size as usize,
                    ) by {
                        if !before.contains(size as usize) {
                            if last is Some {
                                assert(ranks_before(cipher, before[before.len() - 1] as int, size));
                            }
                        }
                    }
                },
            }
        }
    }
}

/// The key sizes that are tried out are the first of all key sizes put in
/// order by score, the smaller first where scores are equal.
pub proof fn lemma_probable_sizes(cipher: Seq<u8>)
    ensures
        is_ranking(cipher, probable_sizes(cipher)),
{
    let len = cipher.len();
    let sizes = probable_sizes(cipher);
    lemma_ranked_key_sizes(cipher, TRIED_KEY_SIZES as nat);
    if sizes.len() == 0 {
        if is_key_size(len, 2) {
            assert(sizes.contains(2usize));
        }
    } else if sizes.len() == 1 {
        assert(is_key_size(len, sizes[0] as int));
        assert(is_key_size(len, 2));
        assert(sizes.contains(2usize));
        if is_key_size(len, 3) {
            assert(sizes.contains(3usize));
        }
    } else if sizes.len() == 2 {
        assert(is_key_size(len, sizes[0] as int));
        assert(is_key_size(len, sizes[1] as int));
        assert(ranks_before(cipher, sizes[0] as int, sizes[1] as int));
        lemma_ranks_before_is_strict(cipher, sizes[0] as int, sizes[0] as int);
        assert(is_key_size(len, 3));
        if is_key_size(len, 4) {
            assert(is_key_size(len, 2));
            assert(sizes.contains(2usize));
            assert(sizes.contains(3usize));
            assert(sizes.contains(4usize));
        }
    } else {
        assert(is_key_size(len, sizes[0] as int));
        assert(is_key_size(len, sizes[1] as int));
        assert(is_key_size(len, sizes[2] as int));
        assert(ranks_before(cipher, sizes[0] as int, sizes[1] as int));
        assert(ranks_before(cipher, sizes[0] as int, sizes[2] as int));
        assert(ranks_before(cipher, sizes[1] as int, sizes[2] as int));
        lemma_ranks_before_is_strict(cipher, sizes[0] as int, sizes[0] as int);
        lemma_ranks_before_is_strict(cipher, sizes[1] as int, sizes[1] as int);
        assert(is_key_size(len, 4));
    }
}

/// Every byte of the ciphertext lies in one column: byte `p` is entry
/// `p / size` of column `p % size`.
pub proof fn lemma_column_covers(cipher: Seq<u8>, size: int, p: int)
    requires
        0 < size,
        0 <= p < cipher.len(),
    ensures
        0 <= p / size < column(cipher, size, p % size).len(),
        column(cipher, size, p % size)[p / size] == cipher[p],
{
    let i = p % size;
    let j = p / size;
    vstd::arithmetic::div_mod::lemma_fundamental_div_mod(p, size);
    vstd::arithmetic::div_mod::lemma_div_pos_is_pos(p, size);
    assert(size * j == j * size) by (nonlinear_arith);
    lemma_column_len(cipher.len(), size, i, j);
}

/// Column `i` has an entry `j` exactly when position `i + j * size` is within
/// the `len` bytes.
proof fn lemma_column_len(len: nat, size: int, i: int, j: int)
    requires
        0 < size,
        0 <= i < size,
        0 <= j,
    ensures
        j < column_len(len, size, i) <==> i + j * size < len,
{
    assert(0 <= j * size) by (nonlinear_arith)
        requires
            0 <= j,
            0 < size,
    ;
    if i < len {
        let whole = len - 1 - i;
        let q = whole / size;
        vstd::arithmetic::div_mod::lemma_fundamental_div_mod(whole, size);
        vstd::arithmetic::div_mod::lemma_div_pos_is_pos(whole, size);
        assert(size * q == q * size) by (nonlinear_arith);
        if j <= q {
            assert(j * size <= q * size) by (nonlinear_arith)
                requires
                    j <= q,
                    0 < size,
            ;
        } else {
            assert((q + 1) * size <= j * size) by (nonlinear_arith)
                requires
                    q + 1 <= j,
                    0 < size,
            ;
            assert((q + 1) * size == q * size + size) by (nonlinear_arith);
        }
    }
}

/// Deciphering with the key found for a size solves every column with its own
/// key byte: column `i` of the candidate plaintext is column `i` of the
/// ciphertext as the single-byte solver deciphers it.
pub proof fn lemma_candidate_solves_columns(cipher: Seq<u8>, size: int, table: Seq<u32>, i: int)
    requires
        0 < size,
        0 <= i < size,
    ensures
        column(candidate_text(cipher, size, table), size, i) == solved_text(
            column(cipher, size, i),
            table,
        ),
{
    let key = candidate_key(cipher, size, table);
    let plain = candidate_text(cipher, size, table);
    let solved = solved_text(column(cipher, size, i), table);
    assert(plain.len() == cipher.len());
    assert(column(plain, size, i).len() == solved.len());
    assert forall|j: int| 0 <= j < solved.len() implies column(plain, size, i)[j] == solved[j] by {
        lemma_column_len(cipher.len(), size, i, j);
        assert(0 <= j * size) by (nonlinear_arith)
            requires
                0 <= j,
                0 < size,
        ;
        vstd::arithmetic::div_mod::lemma_mod_multiples_vanish(j, i, size);
        vstd::arithmetic::div_mod::lemma_small_mod(i as nat, size as nat);
        assert(size * j == j * size) by (nonlinear_arith);
        assert((i + j * size) % size == i);
    }
    assert(column(plain, size, i) =~= solved);
}

/// The plaintext that wins is UTF-8 text and scores lowest among the
/// candidates that are, ahead of every earlier one; there is no winner only
/// when no candidate is UTF-8 text.
pub proof fn lemma_winning_size(cipher: Seq<u8>, sizes: Seq<usize>, table: Seq<u32>)
    ensures
        match winning_size(cipher, sizes, table) {
            Some(at) => is_first_least(
                candidate_scores(cipher, sizes, table),
                readable(cipher, sizes, table),
                0,
                sizes.len() as int,
                at,
            ),
            None => forall|i: int|
                0 <= i < sizes.len() ==> !valid_utf8(
                    #[trigger] candidate_text(cipher, sizes[i] as int, table),
                ),
        },
{
    let admits = readable(cipher, sizes, table);
    lemma_first_least(candidate_scores(cipher, sizes, table), admits, 0, sizes.len() as int);
    if winning_size(cipher, sizes, table) is None {
        assert forall|i: int| 0 <= i < sizes.len() implies !valid_utf8(
            #[trigger] candidate_text(cipher, sizes[i] as int, table),
        ) by {
            assert(!admits(i));
        }
    }
}

/// Scores `size` as the key size of `cipher`: the lower, the likelier.
pub fn score_key_size(cipher: &[u8], size: usize) -> (score: usize)
    requires
        is_key_size(cipher@.len(), size as int),
    ensures
        score == key_size_score(cipher@, size as int),
{
    let first = slice_subrange(cipher, 0, size);
    let second = slice_subrange(cipher, size, 2 * size);
    let third = slice_subrange(cipher, 2 * size, 3 * size);
    let fourth = slice_subrange(cipher, 3 * size, 4 * size);
    let apart: usize = hamming_distance(first, second) + hamming_distance(first, third)
        + hamming_distance(first, fourth);
    100 * apart / (3 * size)
}

/// Finds the key size that ranks next after `last`, with its score.
fn find_next_key_size(cipher: &[u8], last: Option<(usize, usize)>) -> (next: Option<(usize, usize)>)
    requires
        last matches Some(l) ==> l.0 == key_size_score(cipher@, l.1 as int),
    ensures
        match next {
            Some(n) => next_key_size(
                cipher@,
                match last {
                    Some(l) => Some(l.1 as int),
                    None => None,
                },
            ) == Some(n.1 as int) && n.0 == key_size_score(cipher@, n.1 as int)
                && MIN_KEY_SIZE <= n.1 <= MAX_KEY_SIZE,
            None => next_key_size(
                cipher@,
                match last {
                    Some(l) => Some(l.1 as int),
                    None => None,
                },
            ) is None,
        },
{
    let ghost floor: Option<int> = match last {
        Some(l) => Some(l.1 as int),
        None => None,
    };
    let ghost scores = key_size_scores(cipher@);
    let ghost admits = unranked(cipher@, floor);
    let len: usize = cipher.len();
    let mut best: Option<(usize, usize)> = None;
    let mut size: usize = MIN_KEY_SIZE;
    while size <= MAX_KEY_SIZE
        invariant
            MIN_KEY_SIZE <= size <= MAX_KEY_SIZE + 1,
            len == cipher@.len(),
            scores == key_size_scores(cipher@),
            admits == unranked(cipher@, floor),
            floor == match last {
                Some(l) => Some(l.1 as int),
                None => None::<int>,
            },
            last matches Some(l) ==> l.0 == key_size_score(cipher@, l.1 as int),
            match best {
                Some(b) => first_least(scores, admits, MIN_KEY_SIZE as int, size as int) == Some(
                    b.1 as int,
                ) && b.0 == key_size_score(cipher@, b.1 as int) && MIN_KEY_SIZE <= b.1
                    <= MAX_KEY_SIZE,
                None => first_least(scores, admits, MIN_KEY_SIZE as int, size as int) is None,
            },
        decreases MAX_KEY_SIZE + 1 - size,
    {
        if SAMPLED_BLOCKS * size <= len {
            let score: usize = score_key_size(cipher, size);
            let later: bool = match last {
                Some(l) => l.0 < score || (l.0 == score && l.1 < size),
                None => true,
            };
            let better: bool = match best {
                Some(b) => score < b.0,
                None => true,
            };
            proof {
                assert(scores(size as int) == score);
                assert(admits(size as int) == later);
            }
            if later && better {
                best = Some((score, size));
            }
        } else {
            proof {
                assert(!admits(size as int));
            }
        }
        size += 1;
    }
    best
}

/// Ranks the key sizes by their scores and returns the best of them, best
/// first: `TRIED_KEY_SIZES` of them, or all if there are fewer.
///
/// A size with a lower score ranks before one with a higher score, and of two
/// sizes with the same score the smaller ranks first.
pub fn probable_key_sizes(cipher: &[u8]) -> (sizes: Vec<usize>)
    ensures
        sizes@ == probable_sizes(cipher@),
        is_ranking(cipher@, sizes@),
{
    let mut sizes: Vec<usize> = Vec::with_capacity(TRIED_KEY_SIZES);
    let mut last: Option<(usize, usize)> = None;
    let mut round: usize = 0;
    while round < TRIED_KEY_SIZES
        invariant
            round <= TRIED_KEY_SIZES,
            sizes@.len() <= round,
            sizes@ == ranked_key_sizes(cipher@, round as nat),
            forall|i: int|
                0 <= i < sizes@.len() ==> MIN_KEY_SIZE <= #[trigger] sizes@[i] <= MAX_KEY_SIZE,
            sizes@.len() == round ==> match last {
                Some(l) => round > 0 && l.1 == sizes@[round - 1] && l.0 == key_size_score(
                    cipher@,
                    l.1 as int,
                ),
                None => round == 0,
            },
        decreases TRIED_KEY_SIZES - round,
    {
        if sizes.len() == round {
            match find_next_key_size(cipher, last) {
                Some(next) => {
                    sizes.push(next.1);
                    last = Some(next);
                },
                None => {},
            }
        }
        round += 1;
    }
    proof {
        lemma_probable_sizes(cipher@);
    }
    sizes
}

/// Gathers column `i` of `cipher` dealt out into `size` columns.
fn gather_column(cipher: &[u8], size: usize, i: usize) -> (out: Vec<u8>)
    requires
        0 < size,
    ensures
        out@ == column(cipher@, size as int, i as int),
{
    let len: usize = cipher.len();
    let mut out: Vec<u8> = Vec::new();
    let mut pos: usize = i;
    proof {
        assert(out@.len() * size == 0) by (nonlinear_arith)
            requires
                out@.len() == 0,
        ;
    }
    while pos < len
        invariant
            0 < size,
            len == cipher@.len(),
            pos < len ==> pos == i + out@.len() * size,
            pos >= len ==> i + out@.len() * size >= len,
            out@.len() > 0 ==> i + (out@.len() - 1) * size < len,
            forall|j: int| 0 <= j < out@.len() ==> #[trigger] out@[j] == cipher@[i + j * size],
        decreases len - pos,
    {
        let ghost taken: int = out@.len() as int;
        let ghost before = out@;
        out.push(cipher[pos]);
        proof {
            assert((taken + 1) * size == taken * size + size) by (nonlinear_arith);
            assert forall|j: int| 0 <= j < out@.len() implies #[trigger] out@[j] == cipher@[i + j
                * size] by {
                if j < taken {
                    assert(before[j] == cipher@[i + j * size]);
                } else {
                    assert(j * size == taken * size);
                }
            }
        }
        pos = if len - pos <= size {
            len
        } else {
            pos + size
        };
    }
    proof {
        let taken: int = out@.len() as int;
        if i < len {
            assert(taken > 0);
            let rest: int = len - 1 - i - (taken - 1) * size;
            assert(0 <= rest < size) by (nonlinear_arith)
                requires
                    rest == len - 1 - i - (taken - 1) * size,
                    i + (taken - 1) * size < len,
                    i + taken * size >= len,
            ;
            vstd::arithmetic::div_mod::lemma_fundamental_div_mod_converse(
                len - 1 - i,
                size as int,
                taken - 1,
                rest,
            );
        }
        assert(out@ =~= column(cipher@, size as int, i as int));
    }
    out
}

/// Deals `cipher` out into `size` columns: byte `p` goes to column `p % size`.
pub fn transpose(cipher: &[u8], size: usize) -> (columns: Vec<Vec<u8>>)
    requires
        0 < size,
    ensures
        columns@.len() == size,
        forall|i: int| 0 <= i < size ==> (#[trigger] columns@[i])@ == column(cipher@, size as int, i),
{
    let mut columns: Vec<Vec<u8>> = Vec::new();
    let mut i: usize = 0;
    while i < size
        invariant
            0 < size,
            i <= size,
            columns@.len() == i,
            forall|j: int| 0 <= j < i ==> (#[trigger] columns@[j])@ == column(cipher@, size as int, j),
        decreases size - i,
    {
        let gathered: Vec<u8> = gather_column(cipher, size, i);
        columns.push(gathered);
        i += 1;
    }
    columns
}

/// Finds the key of `size` bytes that `cipher` was most likely enciphered
/// with: each byte of it is the key that solves one column.
pub fn find_key(cipher: &[u8], size: usize, table: &FrequencyTable) -> (key: Vec<u8>)
    requires
        0 < size,
    ensures
        key@ == candidate_key(cipher@, size as int, table@),
{
    let columns: Vec<Vec<u8>> = transpose(cipher, size);
    let mut key: Vec<u8> = Vec::new();
    let mut i: usize = 0;
    while i < size
        invariant
            i <= size,
            columns@.len() == size,
            forall|j: int|
                0 <= j < size ==> (#[trigger] columns@[j])@ == column(cipher@, size as int, j),
            key@.len() == i,
            forall|j: int|
                0 <= j < i ==> key@[j] == best_key(column(cipher@, size as int, j), table@),
        decreases size - i,
    {
        let solved = brute_force_single_character_xor(columns[i].as_slice(), table);
        key.push(solved.1);
        i += 1;
    }
    assert(key@ =~= candidate_key(cipher@, size as int, table@));
    key
}

/// Breaks `encrypted_bin` with the key sizes in `sizes`, which are tried in
/// the order given.
///
/// For every size a key is found and the ciphertext deciphered with it. Of the
/// plaintexts that are UTF-8 text the one with the lowest score is returned
/// with its key; where several score the same, the one whose size came first.
/// The result is `NoSolutionFound` exactly when no plaintext is UTF-8 text.
pub fn break_with_key_sizes(encrypted_bin: &[u8], sizes: &[usize], table: &FrequencyTable) -> (broken:
    Result<(Vec<u8>, Vec<u8>), XorError>)
    requires
        forall|i: int| 0 <= i < sizes@.len() ==> 0 < #[trigger] sizes@[i],
    ensures
        is_outcome(encrypted_bin@, sizes@, table@, broken),
        broken matches Ok(pair) ==> valid_utf8(pair.0@) && pair.0@ == xor_with_repeating_key(
            encrypted_bin@,
            pair.1@,
        ),
        broken matches Ok(pair) ==> sizes@.contains(pair.1@.len() as usize),
        broken is Err <==> forall|i: int|
            0 <= i < sizes@.len() ==> !valid_utf8(
                #[trigger] candidate_text(encrypted_bin@, sizes@[i] as int, table@),
            ),
{
    let ghost scores = candidate_scores(encrypted_bin@, sizes@, table@);
    let ghost admits = readable(encrypted_bin@, sizes@, table@);
    let n: usize = sizes.len();
    let mut best: Option<(Vec<u8>, Vec<u8>)> = None;
    let mut best_score: usize = 0;
    let ghost mut best_at: int = 0;
    let mut i: usize = 0;
    while i < n
        invariant
            n == sizes@.len(),
            i <= n,
            forall|j: int| 0 <= j < sizes@.len() ==> 0 < #[trigger] sizes@[j],
            scores == candidate_scores(encrypted_bin@, sizes@, table@),
            admits == readable(encrypted_bin@, sizes@, table@),
            match best {
                Some(pair) => {
                    &&& first_least(scores, admits, 0, i as int) == Some(best_at)
                    &&& 0 <= best_at < i
                    &&& pair.1@ == candidate_key(encrypted_bin@, sizes@[best_at] as int, table@)
                    &&& pair.0@ == candidate_text(encrypted_bin@, sizes@[best_at] as int, table@)
                    &&& best_score == scores(best_at)
                },
                None => first_least(scores, admits, 0, i as int) is None,
            },
        decreases n - i,
    {
        let key: Vec<u8> = find_key(encrypted_bin, sizes[i], table);
        let plain: Vec<u8> = decrypt_with_repeating_key_xor(encrypted_bin, key.as_slice());
        match String::from_utf8(plain.clone()) {
            Ok(text) => {
                let score: usize = distance(text.as_str(), table);
                let better: bool = match &best {
                    Some(_) => score < best_score,
                    None => true,
                };
                proof {
                    assert(admits(i as int));
                    assert(scores(i as int) == score);
                }
                if better {
                    best = Some((plain, key));
                    best_score = score;
                    proof {
                        best_at = i as int;
                    }
                }
            },
            Err(_) => {
                proof {
                    assert(!admits(i as int));
                }
            },
        }
        i += 1;
    }
    proof {
        lemma_winning_size(encrypted_bin@, sizes@, table@);
        if best is Some {
            assert(admits(best_at));
            assert(sizes@[best_at] == best.unwrap().1@.len());
        }
    }
    match best {
        Some(pair) => Ok(pair),
        None => Err(XorError::NoSolutionFound),
    }
}

/// Breaks a repeating-key XOR cipher: finds the key that `encrypted_bin` was
/// most likely enciphered with, and returns the plaintext with the key.
///
/// The key sizes tried are the `TRIED_KEY_SIZES` that rank best among
/// `MIN_KEY_SIZE` to `MAX_KEY_SIZE`, leaving out those too long for the
/// ciphertext to hold `SAMPLED_BLOCKS` blocks of them. The result is
/// `NoSolutionFound` exactly when none of them gives UTF-8 text, which is so
/// for every ciphertext too short for a key size to be left.
pub fn break_repeating_key_xor(encrypted_bin: &Vec<u8>, table: &FrequencyTable) -> (broken: Result<
    (Vec<u8>, Vec<u8>),
    XorError,
>)
    ensures
        is_outcome(encrypted_bin@, probable_sizes(encrypted_bin@), table@, broken),
        is_ranking(encrypted_bin@, probable_sizes(encrypted_bin@)),
        broken matches Ok(pair) ==> valid_utf8(pair.0@) && pair.0@ == xor_with_repeating_key(
            encrypted_bin@,
            pair.1@,
        ),
        broken matches Ok(pair) ==> probable_sizes(encrypted_bin@).contains(pair.1@.len() as usize),
        encrypted_bin@.len() < SAMPLED_BLOCKS * MIN_KEY_SIZE ==> broken is Err,
{
    let sizes: Vec<usize> = probable_key_sizes(encrypted_bin.as_slice());
    break_with_key_sizes(encrypted_bin.as_slice(), sizes.as_slice(), table)
}

} // verus!
