//! How far a text is from English: the score that ranks candidate plaintexts.
//!
//! A score is a whole number, and lower is better. It is one hundred times the
//! sum of two terms, cut down to a whole number:
//!
//! * for each letter `A` to `Z`, the distance between the share of the text that
//!   the letter takes up and the share that the frequency table expects;
//! * one for every distinct character of the text that is neither a capital
//!   letter nor a space, and one for every capital letter that the text lacks.
//!
//! Both terms are read off the upper-case form of the text, and the length of a
//! text is the number of bytes of its UTF-8 encoding. A text with nothing in it,
//! and a byte string that is not UTF-8, get the worst score there is.

use crate::frequency::{
    is_capital, is_frequency_table, letter_at, letter_index, FrequencyTable, FREQUENCY_SCALE,
    LETTERS,
};
use std::collections::HashSet;
use vstd::prelude::*;
use vstd::relations::injective_on;
use vstd::set_lib::{
    lemma_int_range, lemma_len_subset, lemma_map_size, lemma_set_disjoint_lens, set_int_range,
};
use vstd::std_specs::hash::group_hash_axioms;
use vstd::std_specs::iter::IteratorSpec;
use vstd::utf8::{char_is_scalar, char_u32_cast, decode_utf8, encode_utf8, valid_utf8};

verus! {

/// The score of a text that cannot be read at all.
pub const WORST_SCORE: usize = usize::MAX;

/// No score of a text that can be read reaches this.
pub const SCORE_LIMIT: usize = 111_420_000;

/// The upper-case form of `text` as `str::to_uppercase` gives it.
pub uninterp spec fn uppercase_of(text: Seq<char>) -> Seq<char>;

/// `str::to_uppercase` of the standard library: the result is the upper-case
/// form of the argument, which depends on the characters of the argument alone.
/// Nothing more is claimed of it.
pub assume_specification[ str::to_uppercase ](text: &str) -> (upper: String)
    ensures
        upper@ == uppercase_of(text@),
;

/// `FromUtf8Error` of the standard library, which `String::from_utf8` returns
/// for bytes that it refuses. Nothing is read out of it.
#[verifier::external_type_specification]
#[verifier::external_body]
pub struct ExFromUtf8Error(std::string::FromUtf8Error);

/// `String::from_utf8` of the standard library: the bytes are accepted exactly
/// when they are well-formed UTF-8, and the string then holds the characters
/// that they encode.
pub assume_specification[ String::from_utf8 ](bytes: Vec<u8>) -> (text: Result<
    String,
    std::string::FromUtf8Error,
>)
    ensures
        text is Ok <==> valid_utf8(bytes@),
        text matches Ok(s) ==> s@ == decode_utf8(bytes@),
;

/// How many times `c` occurs in `text`.
pub open spec fn occurrences(text: Seq<char>, c: char) -> nat
    decreases text.len(),
{
    if text.len() == 0 {
        0
    } else {
        occurrences(text.drop_last(), c) + if text.last() == c {
            1nat
        } else {
            0nat
        }
    }
}

/// The length of `text` in bytes of UTF-8.
pub open spec fn utf8_len(text: Seq<char>) -> nat {
    encode_utf8(text).len()
}

/// How far letter `i` is from its expected frequency in `text`: the distance
/// between the share it has and the share it should have, multiplied by the
/// text's length and by `FREQUENCY_SCALE` so that it is a whole number.
pub open spec fn deviation(text: Seq<char>, table: Seq<u32>, i: int) -> int
    recommends
        0 <= i < LETTERS,
        is_frequency_table(table),
{
    let observed = occurrences(text, letter_at(i)) * FREQUENCY_SCALE;
    let expected = table[i] * utf8_len(text);
    if observed >= expected {
        observed - expected
    } else {
        expected - observed
    }
}

/// The deviations of the first `n` letters, added up.
pub open spec fn total_deviation(text: Seq<char>, table: Seq<u32>, n: nat) -> int
    recommends
        n <= LETTERS,
        is_frequency_table(table),
    decreases n,
{
    if n == 0 {
        0
    } else {
        total_deviation(text, table, (n - 1) as nat) + deviation(text, table, n - 1)
    }
}

/// The capital letters `A` to `Z`.
pub open spec fn alphabet() -> Set<char> {
    Set::new(|c: char| is_capital(c))
}

/// The characters that `text` uses, the space left out.
pub open spec fn characters(text: Seq<char>) -> Set<char> {
    text.to_set().remove(' ')
}

/// The number of characters that are in `text` or in the alphabet but not in
/// both, the space not counted: every distinct character of `text` that is no
/// capital letter, and every capital letter that `text` lacks.
pub open spec fn penalty(text: Seq<char>) -> nat {
    (characters(text).difference(alphabet()) + alphabet().difference(characters(text))).len()
}

/// The score of a text that is already in upper case.
pub open spec fn uppercase_score(upper: Seq<char>, table: Seq<u32>) -> int
    recommends
        is_frequency_table(table),
{
    if upper.len() == 0 {
        WORST_SCORE as int
    } else {
        100 * penalty(upper) + (100 * total_deviation(upper, table, LETTERS as nat)) / (
        FREQUENCY_SCALE * utf8_len(upper))
    }
}

/// The score of `text`: that of its upper-case form.
pub open spec fn text_score(text: Seq<char>, table: Seq<u32>) -> int
    recommends
        is_frequency_table(table),
{
    uppercase_score(uppercase_of(text), table)
}

/// The score of a byte string read as UTF-8 text, the worst there is if it
/// cannot be read so.
pub open spec fn bytes_score(bytes: Seq<u8>, table: Seq<u32>) -> int
    recommends
        is_frequency_table(table),
{
    if valid_utf8(bytes) {
        text_score(decode_utf8(bytes), table)
    } else {
        WORST_SCORE as int
    }
}

/// A text has at least as many bytes as characters.
pub proof fn lemma_utf8_len_bounds(text: Seq<char>)
    ensures
        text.len() <= utf8_len(text),
    decreases text.len(),
{
    if text.len() > 0 {
        lemma_utf8_len_bounds(text.drop_first());
    }
}

/// A character occurs in a text at most as often as the text is long, and at
/// least once exactly when the text holds it.
pub proof fn lemma_occurrences_bounds(text: Seq<char>, c: char)
    ensures
        occurrences(text, c) <= text.len(),
        occurrences(text, c) > 0 <==> text.contains(c),
    decreases text.len(),
{
    if text.len() > 0 {
        let rest = text.drop_last();
        lemma_occurrences_bounds(rest, c);
        if text.last() == c {
            assert(text[text.len() - 1] == c);
        } else if rest.contains(c) {
            let i = choose|i: int| 0 <= i < rest.len() && rest[i] == c;
            assert(text[i] == c);
        } else if text.contains(c) {
            let i = choose|i: int| 0 <= i < text.len() && text[i] == c;
            assert(rest[i] == c);
        }
    }
}

/// No letter deviates by more than the whole text, so the deviations of the
/// first `n` letters add up to at most `n` times that.
proof fn lemma_total_deviation_bounds(text: Seq<char>, table: Seq<u32>, n: nat)
    requires
        is_frequency_table(table),
        n <= LETTERS,
    ensures
        0 <= total_deviation(text, table, n) <= n * (FREQUENCY_SCALE * utf8_len(text)),
    decreases n,
{
    if n > 0 {
        lemma_total_deviation_bounds(text, table, (n - 1) as nat);
        lemma_deviation_bounds(text, table, n - 1);
        let whole: int = FREQUENCY_SCALE * utf8_len(text);
        assert((n - 1) * whole + whole == n * whole) by (nonlinear_arith);
    }
}

/// No letter deviates by more than the whole text.
proof fn lemma_deviation_bounds(text: Seq<char>, table: Seq<u32>, i: int)
    requires
        is_frequency_table(table),
        0 <= i < LETTERS,
    ensures
        0 <= deviation(text, table, i) <= FREQUENCY_SCALE * utf8_len(text),
{
    let count = occurrences(text, letter_at(i));
    let len = utf8_len(text);
    let part = table[i];
    lemma_occurrences_bounds(text, letter_at(i));
    lemma_utf8_len_bounds(text);
    assert(0 <= part * len <= FREQUENCY_SCALE * len) by (nonlinear_arith)
        requires
            0 <= part <= FREQUENCY_SCALE,
            0 <= len,
    ;
}

/// The capital letters among the first `n` of the alphabet that `text` lacks.
spec fn absent_below(text: Seq<char>, n: int) -> Set<char> {
    Set::new(|c: char| is_capital(c) && letter_index(c) < n && !text.contains(c))
}

/// Going one letter further adds that letter to the absent ones, or nothing.
proof fn lemma_absent_step(text: Seq<char>, n: int)
    requires
        0 <= n < LETTERS,
    ensures
        absent_below(text, n + 1) == if text.contains(letter_at(n)) {
            absent_below(text, n)
        } else {
            absent_below(text, n).insert(letter_at(n))
        },
        !absent_below(text, n).contains(letter_at(n)),
{
    let next = letter_at(n);
    assert(next as u32 == n + 'A' as u32);
    let grown = if text.contains(next) {
        absent_below(text, n)
    } else {
        absent_below(text, n).insert(next)
    };
    assert forall|c: char| absent_below(text, n + 1).contains(c) <==> grown.contains(c) by {
        if is_capital(c) && letter_index(c) == n {
            char_u32_cast(c, next as u32);
        }
    }
    assert(absent_below(text, n + 1) =~= grown);
}

/// The absent letters below the end of the alphabet are the letters that the
/// text's characters lack.
proof fn lemma_absent_all(text: Seq<char>)
    ensures
        absent_below(text, LETTERS as int) == alphabet().difference(characters(text)),
{
    assert forall|c: char|
        absent_below(text, LETTERS as int).contains(c) <==> alphabet().difference(
            characters(text),
        ).contains(c) by {
        if is_capital(c) {
            assert(c != ' ');
        }
    }
    assert(absent_below(text, LETTERS as int) =~= alphabet().difference(characters(text)));
}

/// The letters among the first `n` that a text lacks are finitely many, and
/// `n` at most.
proof fn lemma_absent_len(text: Seq<char>, n: int)
    requires
        0 <= n <= LETTERS,
    ensures
        absent_below(text, n).finite(),
        absent_below(text, n).len() <= n,
    decreases n,
{
    if n == 0 {
        assert(absent_below(text, 0) =~= Set::<char>::empty());
    } else {
        lemma_absent_len(text, n - 1);
        lemma_absent_step(text, n - 1);
    }
}

/// The code point of a character.
spec fn code_of() -> spec_fn(char) -> u32 {
    |c: char| c as u32
}

/// The code points of the characters in `chars`.
spec fn codes(chars: Set<char>) -> Set<u32> {
    chars.map(code_of())
}

/// One more character gives one more code point.
proof fn lemma_codes_insert(chars: Set<char>, c: char)
    ensures
        codes(chars.insert(c)) == codes(chars).insert(c as u32),
{
    assert forall|v: u32| codes(chars.insert(c)).contains(v) <==> codes(chars).insert(
        c as u32,
    ).contains(v) by {
        if codes(chars.insert(c)).contains(v) {
            let a = choose|a: char| chars.insert(c).contains(a) && code_of()(a) == v;
            if a != c {
                assert(chars.contains(a) && code_of()(a) == v);
            }
        }
        if codes(chars).contains(v) {
            let a = choose|a: char| chars.contains(a) && code_of()(a) == v;
            assert(chars.insert(c).contains(a) && code_of()(a) == v);
        }
        if v == c as u32 {
            assert(chars.insert(c).contains(c) && code_of()(c) == v);
        }
    }
    assert(codes(chars.insert(c)) =~= codes(chars).insert(c as u32));
}

/// There are as many code points as characters, and never more than
/// 1,114,112, because there are no more characters than that.
proof fn lemma_codes_len(chars: Set<char>)
    requires
        chars.finite(),
    ensures
        codes(chars).finite(),
        codes(chars).len() == chars.len(),
        chars.len() <= 0x110000,
{
    assert(injective_on(code_of(), chars)) by {
        assert forall|a: char, b: char|
            chars.contains(a) && chars.contains(b) && #[trigger] code_of()(a) == #[trigger] code_of()(
                b,
            ) implies a == b by {
            char_u32_cast(a, a as u32);
            char_u32_cast(b, a as u32);
        }
    }
    lemma_map_size(chars, codes(chars), code_of());
    let widen = |v: u32| v as int;
    let wide = codes(chars).map(widen);
    assert(injective_on(widen, codes(chars)));
    lemma_map_size(codes(chars), wide, widen);
    lemma_int_range(0, 0x110000);
    assert(wide.subset_of(set_int_range(0, 0x110000))) by {
        assert forall|i: int| wide.contains(i) implies set_int_range(0, 0x110000).contains(i) by {
            let v = choose|v: u32| codes(chars).contains(v) && widen(v) == i;
            let a = choose|a: char| chars.contains(a) && code_of()(a) == v;
            char_is_scalar(a);
        }
    }
    lemma_len_subset(wide, set_int_range(0, 0x110000));
}

/// The characters of a text that are neither capital letters nor the space
/// are finitely many.
proof fn lemma_strays_finite(text: Seq<char>)
    ensures
        characters(text).difference(alphabet()).finite(),
{
    vstd::seq_lib::seq_to_set_is_finite(text);
}

/// What one pass over a text gathers: how often each letter occurs, and the
/// code points of the other characters that occur.
struct Tally {
    counts: Vec<usize>,
    others: HashSet<u32>,
}

/// `tally` is the tally of `text`.
spec fn is_tally_of(tally: Tally, text: Seq<char>) -> bool {
    &&& tally.counts@.len() == LETTERS
    &&& forall|i: int|
        0 <= i < LETTERS ==> #[trigger] tally.counts@[i] == occurrences(text, letter_at(i))
    &&& tally.others@ == codes(characters(text).difference(alphabet()))
}

/// Goes through `text` once and counts.
fn tally_text(text: &str) -> (tally: Tally)
    requires
        utf8_len(text@) <= usize::MAX,
    ensures
        is_tally_of(tally, text@),
{
    broadcast use {vstd::string::group_string_axioms, group_hash_axioms};

    let mut counts: Vec<usize> = Vec::with_capacity(LETTERS);
    while counts.len() < LETTERS
        invariant
            counts@.len() <= LETTERS,
            forall|i: int| 0 <= i < counts@.len() ==> #[trigger] counts@[i] == 0,
        decreases LETTERS - counts@.len(),
    {
        counts.push(0);
    }
    let mut others: HashSet<u32> = HashSet::new();
    let mut chars = text.chars();
    let ghost mut done: int = 0;
    proof {
        lemma_utf8_len_bounds(text@);
        assert(text@.take(0) =~= Seq::<char>::empty());
        assert(characters(text@.take(0)).difference(alphabet()) =~= Set::<char>::empty());
        assert(codes(Set::<char>::empty()) =~= Set::<u32>::empty());
    }
    loop
        invariant
            chars.obeys_prophetic_iter_laws(),
            0 <= done <= text@.len(),
            text@.len() <= usize::MAX,
            chars.remaining() == text@.skip(done),
            counts@.len() == LETTERS,
            forall|i: int|
                0 <= i < LETTERS ==> #[trigger] counts@[i] == occurrences(
                    text@.take(done),
                    letter_at(i),
                ),
            others@ == codes(characters(text@.take(done)).difference(alphabet())),
        ensures
            done == text@.len(),
        decreases text@.len() - done,
    {
        let next = chars.next();
        match next {
            None => {
                break ;
            },
            Some(c) => {
                let code: u32 = c as u32;
                let ghost before = text@.take(done);
                let ghost after = text@.take(done + 1);
                let ghost counts_before = counts@;
                let ghost strays_before = characters(before).difference(alphabet());
                proof {
                    assert(c == text@[done]);
                    assert(after.drop_last() =~= before);
                    assert(after.last() == c);
                    assert(after.to_set() =~= before.to_set().insert(c));
                    char_u32_cast(c, code);
                }
                if 65 <= code && code <= 90 {
                    let at: usize = (code - 65) as usize;
                    proof {
                        lemma_occurrences_bounds(before, letter_at(at as int));
                    }
                    let count: usize = counts[at] + 1;
                    counts.set(at, count);
                    proof {
                        assert(is_capital(c));
                        assert(c == letter_at(at as int));
                        assert(characters(after).difference(alphabet()) =~= strays_before);
                    }
                } else if code != 32 {
                    others.insert(code);
                    proof {
                        assert(characters(after).difference(alphabet()) =~= strays_before.insert(
                            c,
                        ));
                        lemma_codes_insert(strays_before, c);
                    }
                } else {
                    proof {
                        assert(c == ' ');
                        assert(characters(after).difference(alphabet()) =~= strays_before);
                    }
                }
                proof {
                    assert forall|i: int| 0 <= i < LETTERS implies #[trigger] counts@[i]
                        == occurrences(after, letter_at(i)) by {
                        assert(counts_before[i] == occurrences(before, letter_at(i)));
                        assert(letter_at(i) as u32 == i + 65);
                    }
                    done = done + 1;
                }
            },
        }
    }
    proof {
        assert(text@.take(done) =~= text@);
    }
    Tally { counts, others }
}

/// The number of letters that never occur, going by their counts.
fn count_absent(counts: &Vec<usize>, Ghost(text): Ghost<Seq<char>>) -> (absent: usize)
    requires
        counts@.len() == LETTERS,
        forall|i: int| 0 <= i < LETTERS ==> #[trigger] counts@[i] == occurrences(text, letter_at(i)),
    ensures
        absent == alphabet().difference(characters(text)).len(),
        alphabet().difference(characters(text)).finite(),
        absent <= LETTERS,
{
    let mut absent: usize = 0;
    let mut i: usize = 0;
    proof {
        assert(absent_below(text, 0) =~= Set::<char>::empty());
    }
    while i < LETTERS
        invariant
            i <= LETTERS,
            counts@.len() == LETTERS,
            forall|j: int|
                0 <= j < LETTERS ==> #[trigger] counts@[j] == occurrences(text, letter_at(j)),
            absent_below(text, i as int).finite(),
            absent == absent_below(text, i as int).len(),
            absent <= i,
        decreases LETTERS - i,
    {
        proof {
            lemma_absent_step(text, i as int);
            lemma_occurrences_bounds(text, letter_at(i as int));
        }
        if counts[i] == 0 {
            absent += 1;
        }
        i += 1;
    }
    proof {
        lemma_absent_all(text);
    }
    absent
}

/// The deviations of all letters, added up.
fn sum_deviations(counts: &Vec<usize>, len: usize, table: &FrequencyTable, Ghost(text): Ghost<
    Seq<char>,
>) -> (total: u128)
    requires
        counts@.len() == LETTERS,
        forall|i: int| 0 <= i < LETTERS ==> #[trigger] counts@[i] == occurrences(text, letter_at(i)),
        len == utf8_len(text),
    ensures
        total == total_deviation(text, table@, LETTERS as nat),
        total <= LETTERS * (FREQUENCY_SCALE * len),
        is_frequency_table(table@),
{
    let parts = table.parts();
    let mut total: u128 = 0;
    let mut i: usize = 0;
    while i < LETTERS
        invariant
            i <= LETTERS,
            counts@.len() == LETTERS,
            forall|j: int|
                0 <= j < LETTERS ==> #[trigger] counts@[j] == occurrences(text, letter_at(j)),
            len == utf8_len(text),
            parts@ == table@,
            is_frequency_table(table@),
            total == total_deviation(text, table@, i as nat),
        decreases LETTERS - i,
    {
        proof {
            lemma_total_deviation_bounds(text, table@, i as nat);
            lemma_deviation_bounds(text, table@, i as int);
            lemma_occurrences_bounds(text, letter_at(i as int));
            lemma_utf8_len_bounds(text);
            assert(parts@[i as int] <= FREQUENCY_SCALE);
            let whole: int = FREQUENCY_SCALE * len;
            assert(i * whole <= LETTERS * whole) by (nonlinear_arith)
                requires
                    0 <= i <= LETTERS,
                    0 <= whole,
            ;
        }
        let part: u128 = parts[i] as u128;
        assert(part * len <= FREQUENCY_SCALE * len) by (nonlinear_arith)
            requires
                0 <= part <= FREQUENCY_SCALE,
                0 <= len,
        ;
        let observed: u128 = counts[i] as u128 * (FREQUENCY_SCALE as u128);
        let expected: u128 = part * (len as u128);
        let apart: u128 = if observed >= expected {
            observed - expected
        } else {
            expected - observed
        };
        total = total + apart;
        i += 1;
    }
    proof {
        lemma_total_deviation_bounds(text, table@, LETTERS as nat);
    }
    total
}

/// Scores a text that is already in upper case against `table`.
///
/// The result is `WORST_SCORE` for the empty text and stays below
/// `SCORE_LIMIT` for every other.
pub fn score_uppercased(upper: &str, table: &FrequencyTable) -> (score: usize)
    ensures
        score == uppercase_score(upper@, table@),
        upper@.len() > 0 ==> score < SCORE_LIMIT,
{
    broadcast use group_hash_axioms;

    let len: usize = upper.as_bytes().len();
    proof {
        lemma_utf8_len_bounds(upper@);
    }
    if len == 0 {
        return WORST_SCORE;
    }
    let tally = tally_text(upper);
    let absent: usize = count_absent(&tally.counts, Ghost(upper@));
    let total: u128 = sum_deviations(&tally.counts, len, table, Ghost(upper@));
    proof {
        lemma_penalty_bounds(upper@);
        lemma_codes_len(characters(upper@).difference(alphabet()));
        lemma_score_below_limit(upper@, table@);
    }
    let whole: u128 = (FREQUENCY_SCALE as u128) * (len as u128);
    let strays: u128 = (tally.others.len() + absent) as u128;
    let apart: u128 = (100 * total) / whole;
    (100 * strays + apart) as usize
}

/// Scores `text` against `table`: the lower, the closer to English.
///
/// Letter case does not count. The result is `WORST_SCORE` when the upper-case
/// form of `text` is empty.
pub fn distance(text: &str, table: &FrequencyTable) -> (score: usize)
    ensures
        score == text_score(text@, table@),
        score == WORST_SCORE || score < SCORE_LIMIT,
        uppercase_of(text@).len() > 0 ==> score < SCORE_LIMIT,
{
    let upper: String = text.to_uppercase();
    score_uppercased(upper.as_str(), table)
}

/// Scores `bytes`, read as UTF-8 text, against `table`. Bytes that are not
/// UTF-8 get `WORST_SCORE`.
pub fn score_bytes(bytes: Vec<u8>, table: &FrequencyTable) -> (score: usize)
    ensures
        score == bytes_score(bytes@, table@),
        score == WORST_SCORE || score < SCORE_LIMIT,
        !valid_utf8(bytes@) ==> score == WORST_SCORE,
{
    match String::from_utf8(bytes) {
        Ok(text) => distance(text.as_str(), table),
        Err(_) => WORST_SCORE,
    }
}

/// The penalty of a text is the number of its distinct characters that are
/// neither capital letters nor the space, and the number of capital letters
/// that it lacks. There are at most 1,114,112 of the first and 26 of the
/// second.
pub proof fn lemma_penalty_bounds(text: Seq<char>)
    ensures
        characters(text).difference(alphabet()).finite(),
        alphabet().difference(characters(text)).finite(),
        penalty(text) == characters(text).difference(alphabet()).len() + alphabet().difference(
            characters(text),
        ).len(),
        characters(text).difference(alphabet()).len() <= 0x110000,
        alphabet().difference(characters(text)).len() <= LETTERS,
{
    let strays = characters(text).difference(alphabet());
    let absent = alphabet().difference(characters(text));
    lemma_strays_finite(text);
    lemma_codes_len(strays);
    lemma_absent_len(text, LETTERS as int);
    lemma_absent_all(text);
    lemma_set_disjoint_lens(strays, absent);
    assert(strays.disjoint(absent));
}

/// Every text that is not empty scores below `SCORE_LIMIT`, and so below the
/// worst score: a text that can be read always beats one that cannot.
pub proof fn lemma_score_below_limit(upper: Seq<char>, table: Seq<u32>)
    requires
        is_frequency_table(table),
        upper.len() > 0,
    ensures
        0 <= uppercase_score(upper, table) < SCORE_LIMIT,
        SCORE_LIMIT < WORST_SCORE,
{
    lemma_penalty_bounds(upper);
    lemma_utf8_len_bounds(upper);
    lemma_total_deviation_bounds(upper, table, LETTERS as nat);
    let whole: int = FREQUENCY_SCALE * utf8_len(upper);
    let total: int = total_deviation(upper, table, LETTERS as nat);
    let bound: int = 100 * LETTERS * whole;
    assert(100 * total <= bound);
    vstd::arithmetic::div_mod::lemma_div_is_ordered(100 * total, bound, whole);
    vstd::arithmetic::div_mod::lemma_div_by_multiple(100 * LETTERS, whole);
    vstd::arithmetic::div_mod::lemma_div_pos_is_pos(100 * total, whole);
}

/// A score is the worst there is or stays below `SCORE_LIMIT`. It is the
/// worst for bytes that are not UTF-8 text, and below the limit for every text
/// whose upper-case form is not empty.
pub proof fn lemma_score_range(bytes: Seq<u8>, table: Seq<u32>)
    requires
        is_frequency_table(table),
    ensures
        bytes_score(bytes, table) == WORST_SCORE || 0 <= bytes_score(bytes, table) < SCORE_LIMIT,
        !valid_utf8(bytes) ==> bytes_score(bytes, table) == WORST_SCORE,
        valid_utf8(bytes) && uppercase_of(decode_utf8(bytes)).len() > 0 ==> bytes_score(
            bytes,
            table,
        ) < SCORE_LIMIT,
        forall|text: Seq<char>|
            uppercase_of(text).len() > 0 ==> 0 <= #[trigger] text_score(text, table) < SCORE_LIMIT,
{
    assert forall|text: Seq<char>| uppercase_of(text).len() > 0 implies 0 <= #[trigger] text_score(
        text,
        table,
    ) < SCORE_LIMIT by {
        lemma_score_below_limit(uppercase_of(text), table);
    }
    if valid_utf8(bytes) && uppercase_of(decode_utf8(bytes)).len() > 0 {
        lemma_score_below_limit(uppercase_of(decode_utf8(bytes)), table);
    }
}

/// Whether upper-casing has settled on `text`: whether the upper-case form of
/// `text` is its own upper-case form.
pub fn is_settled(text: &str) -> (yes: bool)
    ensures
        yes == (uppercase_of(uppercase_of(text@)) == uppercase_of(text@)),
{
    let once: String = text.to_uppercase();
    let twice: String = once.as_str().to_uppercase();
    once == twice
}

/// Two texts with the same upper-case form have the same score: the score does
/// not tell a letter from its capital.
pub proof fn lemma_score_ignores_case(a: Seq<char>, b: Seq<char>, table: Seq<u32>)
    requires
        uppercase_of(a) == uppercase_of(b),
    ensures
        text_score(a, table) == text_score(b, table),
{
}

/// A text scores as its upper-case form does, wherever upper-casing that form
/// once more leaves it as it is.
pub proof fn lemma_score_of_uppercase(text: Seq<char>, table: Seq<u32>)
    requires
        uppercase_of(uppercase_of(text)) == uppercase_of(text),
    ensures
        text_score(text, table) == text_score(uppercase_of(text), table),
{
}

} // verus!
