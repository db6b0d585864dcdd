//! Conversions between the ways a byte string is written down: hexadecimal
//! digits, Base64, and text taken one character to the byte.

use vstd::prelude::*;
use vstd::std_specs::iter::IteratorSpec;
use vstd::string::StringExecFns;

verus! {

/// `c` is a hexadecimal digit, in either case.
pub open spec fn is_hex_digit(c: char) -> bool {
    let code = c as u32;
    ('0' as u32 <= code <= '9' as u32) || ('a' as u32 <= code <= 'f' as u32) || ('A' as u32 <= code
        <= 'F' as u32)
}

/// The number from 0 to 15 that the hexadecimal digit `c` stands for.
pub open spec fn hex_value(c: char) -> int
    recommends
        is_hex_digit(c),
{
    let code = c as u32;
    if code <= '9' as u32 {
        code - '0' as u32
    } else if code >= 'a' as u32 {
        code - 'a' as u32 + 10
    } else {
        code - 'A' as u32 + 10
    }
}

/// `text` is made of hexadecimal digits, two for each byte.
pub open spec fn is_hex(text: Seq<char>) -> bool {
    &&& text.len() % 2 == 0
    &&& forall|i: int| 0 <= i < text.len() ==> is_hex_digit(#[trigger] text[i])
}

/// The bytes that the hexadecimal digits of `text` spell, two digits to the
/// byte, the high one first.
pub open spec fn hex_decoded(text: Seq<char>) -> Seq<u8>
    recommends
        is_hex(text),
{
    Seq::new(
        text.len() / 2,
        |i: int| (16 * hex_value(text[2 * i]) + hex_value(text[2 * i + 1])) as u8,
    )
}

/// The lower-case hexadecimal digit for `value`, a number from 0 to 15.
pub open spec fn hex_digit(value: int) -> char
    recommends
        0 <= value < 16,
{
    if value < 10 {
        (value + '0' as u32) as u32 as char
    } else {
        (value - 10 + 'a' as u32) as u32 as char
    }
}

/// `c` is a hexadecimal digit as this crate writes them: `0` to `9` or `a` to
/// `f`.
pub open spec fn is_lower_hex_digit(c: char) -> bool {
    let code = c as u32;
    ('0' as u32 <= code <= '9' as u32) || ('a' as u32 <= code <= 'f' as u32)
}

/// `text` is made of hexadecimal digits as this crate writes them, two for
/// each byte.
pub open spec fn is_lower_hex(text: Seq<char>) -> bool {
    &&& text.len() % 2 == 0
    &&& forall|i: int| 0 <= i < text.len() ==> is_lower_hex_digit(#[trigger] text[i])
}

/// The two hexadecimal digits of one byte, in lower case, the high one first.
/// A byte below 16 starts with the digit `0`.
pub open spec fn byte_hex(byte: u8) -> Seq<char> {
    seq![hex_digit(byte as int / 16), hex_digit(byte as int % 16)]
}

/// The hexadecimal digits of every byte of `bytes`, one byte after the other,
/// two digits for each.
pub open spec fn hex_encoded(bytes: Seq<u8>) -> Seq<char>
    decreases bytes.len(),
{
    if bytes.len() == 0 {
        Seq::empty()
    } else {
        hex_encoded(bytes.drop_last()) + byte_hex(bytes.last())
    }
}

/// The byte that stands for the character `c`: the lowest eight bits of its
/// code point, which is the character itself for ASCII and Latin-1.
pub open spec fn char_byte(c: char) -> u8 {
    (c as u32 % 256) as u8
}

/// The bytes of `text` taken one character to the byte.
pub open spec fn text_bytes(text: Seq<char>) -> Seq<u8> {
    Seq::new(text.len(), |i: int| char_byte(text[i]))
}

/// The Base64 text for `bytes` in the standard alphabet, without padding, as
/// the `base64` crate writes it.
pub uninterp spec fn base64_of(bytes: Seq<u8>) -> Seq<char>;

/// The Base64 text for `bytes` when they are encoded three at a time: the
/// pieces for each group of three bytes, and for the one or two bytes left
/// over at the end, put together.
pub open spec fn base64_in_threes(bytes: Seq<u8>) -> Seq<char>
    decreases bytes.len(),
{
    if bytes.len() == 0 {
        Seq::empty()
    } else if bytes.len() <= 3 {
        base64_of(bytes)
    } else {
        base64_of(bytes.take(3)) + base64_in_threes(bytes.skip(3))
    }
}

/// The texts of `pieces` put together in order.
pub open spec fn joined(pieces: Seq<String>) -> Seq<char>
    decreases pieces.len(),
{
    if pieces.len() == 0 {
        Seq::empty()
    } else {
        joined(pieces.drop_last()) + pieces.last()@
    }
}

/// `Engine::encode` of the `base64` crate, on its engine `STANDARD_NO_PAD`:
/// the result is the unpadded Base64 text for `bytes`, which depends on the
/// bytes alone. The call fails where the length of that text does not fit a
/// `usize`, so the bytes are to be few enough for four thirds of them to fit.
#[verifier::external_body]
fn base64_encode(bytes: &[u8]) -> (text: String)
    requires
        bytes@.len() <= usize::MAX / 4 * 3,
    ensures
        text@ == base64_of(bytes@),
{
    base64::Engine::encode(&base64::engine::general_purpose::STANDARD_NO_PAD, bytes)
}

/// The value of a hexadecimal digit.
fn digit_value(c: char) -> (value: u8)
    requires
        is_hex_digit(c),
    ensures
        value == hex_value(c),
        value < 16,
{
    let code: u32 = c as u32;
    if code <= 57 {
        (code - 48) as u8
    } else if code >= 97 {
        (code - 87) as u8
    } else {
        (code - 55) as u8
    }
}

/// Whether `text` is made of hexadecimal digits, two for each byte.
pub fn is_hex_text(text: &str) -> (yes: bool)
    ensures
        yes == is_hex(text@),
{
    broadcast use vstd::string::group_string_axioms;

    let mut chars = text.chars();
    let mut even: bool = true;
    let ghost mut done: int = 0;
    loop
        invariant
            chars.obeys_prophetic_iter_laws(),
            0 <= done <= text@.len(),
            chars.remaining() == text@.skip(done),
            even == (done % 2 == 0),
            forall|i: int| 0 <= i < done ==> is_hex_digit(#[trigger] text@[i]),
        ensures
            done == text@.len(),
            even == (done % 2 == 0),
            forall|i: int| 0 <= i < done ==> is_hex_digit(#[trigger] text@[i]),
        decreases text@.len() - done,
    {
        match chars.next() {
            None => {
                break ;
            },
            Some(c) => {
                let code: u32 = c as u32;
                let digit: bool = (48 <= code && code <= 57) || (97 <= code && code <= 102) || (65
                    <= code && code <= 70);
                proof {
                    assert(c == text@[done]);
                }
                if !digit {
                    return false;
                }
                even = !even;
                proof {
                    done = done + 1;
                }
            },
        }
    }
    even
}

/// Reads hexadecimal digits, two to the byte, into bytes.
pub fn hex_to_bin(s_hex: &str) -> (bytes: Vec<u8>)
    requires
        is_hex(s_hex@),
    ensures
        bytes@ == hex_decoded(s_hex@),
        2 * bytes@.len() == s_hex@.len(),
{
    broadcast use vstd::string::group_string_axioms;

    let mut bytes: Vec<u8> = Vec::new();
    let mut chars = s_hex.chars();
    loop
        invariant
            is_hex(s_hex@),
            chars.obeys_prophetic_iter_laws(),
            2 * bytes@.len() <= s_hex@.len(),
            chars.remaining() == s_hex@.skip(2 * bytes@.len() as int),
            forall|i: int| 0 <= i < bytes@.len() ==> #[trigger] bytes@[i] == hex_decoded(s_hex@)[i],
        ensures
            2 * bytes@.len() == s_hex@.len(),
            forall|i: int| 0 <= i < bytes@.len() ==> #[trigger] bytes@[i] == hex_decoded(s_hex@)[i],
        decreases s_hex@.len() - 2 * bytes@.len(),
    {
        let ghost at: int = 2 * bytes@.len() as int;
        match chars.next() {
            None => {
                break ;
            },
            Some(high) => {
                proof {
                    assert(high == s_hex@[at]);
                    assert(at + 1 < s_hex@.len());
                    assert(s_hex@.skip(at).drop_first() =~= s_hex@.skip(at + 1));
                }
                match chars.next() {
                    None => {
                        // The digits come in pairs, so a second one follows.
                        proof {
                            assert(false);
                        }
                        break ;
                    },
                    Some(low) => {
                        proof {
                            assert(low == s_hex@[at + 1]);
                            assert(s_hex@.skip(at + 1).drop_first() =~= s_hex@.skip(at + 2));
                        }
                        let byte: u8 = 16 * digit_value(high) + digit_value(low);
                        bytes.push(byte);
                    },
                }
            },
        }
    }
    assert(bytes@ =~= hex_decoded(s_hex@));
    bytes
}

/// The text of one lower-case hexadecimal digit.
fn digit_text(value: u8) -> (text: &'static str)
    requires
        value < 16,
    ensures
        text@ == seq![hex_digit(value as int)],
{
    proof {
        reveal_strlit("0");
        reveal_strlit("1");
        reveal_strlit("2");
        reveal_strlit("3");
        reveal_strlit("4");
        reveal_strlit("5");
        reveal_strlit("6");
        reveal_strlit("7");
        reveal_strlit("8");
        reveal_strlit("9");
        reveal_strlit("a");
        reveal_strlit("b");
        reveal_strlit("c");
        reveal_strlit("d");
        reveal_strlit("e");
        reveal_strlit("f");
    }
    let text: &'static str = if value == 0 {
        "0"
    } else if value == 1 {
        "1"
    } else if value == 2 {
        "2"
    } else if value == 3 {
        "3"
    } else if value == 4 {
        "4"
    } else if value == 5 {
        "5"
    } else if value == 6 {
        "6"
    } else if value == 7 {
        "7"
    } else if value == 8 {
        "8"
    } else if value == 9 {
        "9"
    } else if value == 10 {
        "a"
    } else if value == 11 {
        "b"
    } else if value == 12 {
        "c"
    } else if value == 13 {
        "d"
    } else if value == 14 {
        "e"
    } else {
        "f"
    };
    assert(text@ =~= seq![hex_digit(value as int)]);
    text
}

/// Writes bytes as lower-case hexadecimal digits, two for each byte, the high
/// one first.
///
/// The text reads back with `hex_to_bin` to the same bytes.
pub fn bin_to_hex(s_bin: &[u8]) -> (text: String)
    ensures
        text@ == hex_encoded(s_bin@),
        text@.len() == 2 * s_bin@.len(),
        forall|i: int|
            0 <= i < s_bin@.len() ==> text@[2 * i] == hex_digit(#[trigger] s_bin@[i] as int / 16)
                && text@[2 * i + 1] == hex_digit(s_bin@[i] as int % 16),
        is_hex(text@),
        hex_decoded(text@) == s_bin@,
{
    let mut text: String = String::new();
    let n: usize = s_bin.len();
    let mut i: usize = 0;
    while i < n
        invariant
            n == s_bin@.len(),
            i <= n,
            text@ == hex_encoded(s_bin@.take(i as int)),
        decreases n - i,
    {
        let byte: u8 = s_bin[i];
        let ghost before = text@;
        text.append(digit_text(byte / 16));
        text.append(digit_text(byte % 16));
        proof {
            assert(s_bin@.take(i + 1).drop_last() =~= s_bin@.take(i as int));
            assert(s_bin@.take(i + 1).last() == byte);
            assert(text@ =~= before + byte_hex(byte));
        }
        i += 1;
    }
    proof {
        assert(s_bin@.take(n as int) =~= s_bin@);
        lemma_hex_encoded_digits(s_bin@);
        lemma_hex_encoded_is_hex(s_bin@);
        lemma_hex_reads_back(s_bin@);
    }
    text
}

/// What stands for a number from 0 to 15 is a digit of that value.
proof fn lemma_hex_digit_value(value: int)
    requires
        0 <= value < 16,
    ensures
        is_lower_hex_digit(hex_digit(value)),
        is_hex_digit(hex_digit(value)),
        hex_value(hex_digit(value)) == value,
{
    if value < 10 {
        assert(hex_digit(value) as u32 == value + 48);
    } else {
        assert(hex_digit(value) as u32 == value + 87);
    }
}

/// A digit as this crate writes them is what stands for its own value.
proof fn lemma_hex_value_digit(c: char)
    requires
        is_lower_hex_digit(c),
    ensures
        0 <= hex_value(c) < 16,
        hex_digit(hex_value(c)) == c,
{
    lemma_hex_digit_value(hex_value(c));
    vstd::utf8::char_u32_cast(c, hex_digit(hex_value(c)) as u32);
}

/// Digits `2 * i` and `2 * i + 1` of the text written for `bytes` are the high
/// and the low digit of byte `i`.
pub proof fn lemma_hex_encoded_digits(bytes: Seq<u8>)
    ensures
        hex_encoded(bytes).len() == 2 * bytes.len(),
        forall|i: int|
            0 <= i < bytes.len() ==> hex_encoded(bytes)[2 * i] == hex_digit(
                #[trigger] bytes[i] as int / 16,
            ) && hex_encoded(bytes)[2 * i + 1] == hex_digit(bytes[i] as int % 16),
    decreases bytes.len(),
{
    if bytes.len() > 0 {
        let rest = bytes.drop_last();
        lemma_hex_encoded_digits(rest);
        assert forall|i: int| 0 <= i < bytes.len() implies hex_encoded(bytes)[2 * i] == hex_digit(
            #[trigger] bytes[i] as int / 16,
        ) && hex_encoded(bytes)[2 * i + 1] == hex_digit(bytes[i] as int % 16) by {
            if i < rest.len() {
                assert(rest[i] == bytes[i]);
            }
        }
    }
}

/// Bytes are written as hexadecimal text of two digits a byte.
pub proof fn lemma_hex_encoded_is_hex(bytes: Seq<u8>)
    ensures
        hex_encoded(bytes).len() == 2 * bytes.len(),
        is_lower_hex(hex_encoded(bytes)),
        is_hex(hex_encoded(bytes)),
{
    let text = hex_encoded(bytes);
    lemma_hex_encoded_digits(bytes);
    assert forall|k: int| 0 <= k < text.len() implies is_lower_hex_digit(#[trigger] text[k])
        && is_hex_digit(text[k]) by {
        let i = k / 2;
        let byte: u8 = bytes[i];
        lemma_hex_digit_value(byte as int / 16);
        lemma_hex_digit_value(byte as int % 16);
        assert(k == 2 * i || k == 2 * i + 1);
    }
}

/// Writing bytes as hexadecimal digits and reading the digits gives the bytes
/// again.
pub proof fn lemma_hex_reads_back(bytes: Seq<u8>)
    ensures
        hex_decoded(hex_encoded(bytes)) == bytes,
{
    let text = hex_encoded(bytes);
    lemma_hex_encoded_digits(bytes);
    assert forall|i: int| 0 <= i < bytes.len() implies hex_decoded(text)[i] == bytes[i] by {
        let byte: u8 = bytes[i];
        lemma_hex_digit_value(byte as int / 16);
        lemma_hex_digit_value(byte as int % 16);
    }
    assert(hex_decoded(text) =~= bytes);
}

/// Reading lower-case hexadecimal digits and writing the bytes gives the
/// digits again.
pub proof fn lemma_hex_writes_back(text: Seq<char>)
    requires
        is_lower_hex(text),
    ensures
        hex_encoded(hex_decoded(text)) == text,
{
    let bytes = hex_decoded(text);
    lemma_hex_encoded_digits(bytes);
    assert forall|k: int| 0 <= k < text.len() implies hex_encoded(bytes)[k] == text[k] by {
        let i = k / 2;
        lemma_hex_value_digit(text[2 * i]);
        lemma_hex_value_digit(text[2 * i + 1]);
        let high = hex_value(text[2 * i]);
        let low = hex_value(text[2 * i + 1]);
        assert(bytes[i] == (16 * high + low) as u8);
        assert(k == 2 * i || k == 2 * i + 1);
    }
    assert(hex_encoded(bytes) =~= text);
}

/// Takes text one character to the byte: each character gives the lowest eight
/// bits of its code point.
pub fn plaintext_to_bin(s_bin: &str) -> (bytes: Vec<u8>)
    ensures
        bytes@ == text_bytes(s_bin@),
{
    broadcast use vstd::string::group_string_axioms;

    let mut bytes: Vec<u8> = Vec::new();
    let mut chars = s_bin.chars();
    loop
        invariant
            chars.obeys_prophetic_iter_laws(),
            bytes@.len() <= s_bin@.len(),
            chars.remaining() == s_bin@.skip(bytes@.len() as int),
            forall|i: int| 0 <= i < bytes@.len() ==> #[trigger] bytes@[i] == char_byte(s_bin@[i]),
        ensures
            bytes@.len() == s_bin@.len(),
            forall|i: int| 0 <= i < bytes@.len() ==> #[trigger] bytes@[i] == char_byte(s_bin@[i]),
        decreases s_bin@.len() - bytes@.len(),
    {
        let ghost at: int = bytes@.len() as int;
        match chars.next() {
            None => {
                break ;
            },
            Some(c) => {
                proof {
                    assert(c == s_bin@[at]);
                    assert(s_bin@.skip(at).drop_first() =~= s_bin@.skip(at + 1));
                }
                let code: u32 = c as u32;
                bytes.push((code % 256) as u8);
            },
        }
    }
    assert(bytes@ =~= text_bytes(s_bin@));
    bytes
}

/// Puts the texts of `pieces` together in order.
pub fn join_texts(pieces: &Vec<String>) -> (text: String)
    ensures
        text@ == joined(pieces@),
{
    let mut text: String = String::new();
    let n: usize = pieces.len();
    let mut i: usize = 0;
    while i < n
        invariant
            n == pieces@.len(),
            i <= n,
            text@ == joined(pieces@.take(i as int)),
        decreases n - i,
    {
        text.append(pieces[i].as_str());
        proof {
            assert(pieces@.take(i + 1).drop_last() =~= pieces@.take(i as int));
        }
        i += 1;
    }
    assert(pieces@.take(n as int) =~= pieces@);
    text
}

/// Turns hexadecimal digits into Base64 text, three bytes at a time.
///
/// The digits are read into bytes, every three bytes are encoded without
/// padding, and so are the one or two bytes that may be left at the end.
pub fn hex_to_base64(s_hex: &str) -> (text: String)
    requires
        is_hex(s_hex@),
    ensures
        text@ == base64_in_threes(hex_decoded(s_hex@)),
{
    let bytes: Vec<u8> = hex_to_bin(s_hex);
    let n: usize = bytes.len();
    let mut pieces: Vec<String> = Vec::new();
    let mut i: usize = 0;
    proof {
        assert(bytes@.skip(0) =~= bytes@);
        assert(joined(pieces@) + base64_in_threes(bytes@) =~= base64_in_threes(bytes@));
    }
    while i < n
        invariant
            n == bytes@.len(),
            i <= n,
            joined(pieces@) + base64_in_threes(bytes@.skip(i as int)) == base64_in_threes(bytes@),
        decreases n - i,
    {
        let end: usize = if n - i <= 3 {
            n
        } else {
            i + 3
        };
        let group = vstd::slice::slice_subrange(bytes.as_slice(), i, end);
        let piece: String = base64_encode(group);
        let ghost before = pieces@;
        let ghost rest = bytes@.skip(i as int);
        pieces.push(piece);
        proof {
            assert(pieces@.drop_last() =~= before);
            assert(joined(pieces@) == joined(before) + base64_of(group@));
            if n - i <= 3 {
                assert(group@ =~= rest);
                assert(bytes@.skip(end as int) =~= Seq::<u8>::empty());
                assert(joined(pieces@) + base64_in_threes(bytes@.skip(end as int)) =~= joined(
                    before,
                ) + base64_in_threes(rest));
            } else {
                assert(group@ =~= rest.take(3));
                assert(bytes@.skip(end as int) =~= rest.skip(3));
                assert(joined(pieces@) + base64_in_threes(bytes@.skip(end as int)) =~= joined(
                    before,
                ) + base64_in_threes(rest));
            }
        }
        i = end;
    }
    proof {
        assert(bytes@.skip(n as int) =~= Seq::<u8>::empty());
        assert(joined(pieces@) + Seq::<char>::empty() =~= joined(pieces@));
    }
    join_texts(&pieces)
}

} // verus!
