//! The table of expected letter frequencies that candidate plaintexts are
//! measured against.
//!
//! Frequencies are fixed-point numbers: a letter's entry counts how many
//! letters in a million are that letter.

use vstd::prelude::*;
use vstd::std_specs::iter::IteratorSpec;
use vstd::string::StrSliceExecFns;

verus! {

/// The denominator of every entry of a table: entries are parts per million.
pub const FREQUENCY_SCALE: u32 = 1_000_000;

/// The number of letters, `A` to `Z`.
pub const LETTERS: usize = 26;

/// `c` is one of the capital letters `A` to `Z`.
pub open spec fn is_capital(c: char) -> bool {
    'A' as u32 <= c as u32 <= 'Z' as u32
}

/// The position of a capital letter in the alphabet, `A` being 0.
pub open spec fn letter_index(c: char) -> int
    recommends
        is_capital(c),
{
    c as u32 - 'A' as u32
}

/// The capital letter at position `i` of the alphabet, for `i` from 0 to 25.
pub open spec fn letter_at(i: int) -> char
    recommends
        0 <= i < LETTERS,
{
    (i + 'A' as u32) as u32 as char
}

/// `parts` holds one frequency for each letter, none above the whole.
pub open spec fn is_frequency_table(parts: Seq<u32>) -> bool {
    &&& parts.len() == LETTERS
    &&& forall|i: int| 0 <= i < LETTERS ==> #[trigger] parts[i] <= FREQUENCY_SCALE
}

/// `text` without the whitespace at its start and at its end, as `str::trim`
/// gives it.
pub uninterp spec fn trimmed_of(text: Seq<char>) -> Seq<char>;

/// `str::trim` of the standard library: the result is the argument without
/// its leading and trailing whitespace, which depends on the characters of the
/// argument alone. Nothing more is claimed of it.
pub assume_specification[ str::trim ](text: &str) -> (trimmed: &str)
    ensures
        trimmed@ == trimmed_of(text@),
;

/// Position `at` of `line` holds a colon, and no other position does.
pub open spec fn is_only_colon(line: Seq<char>, at: int) -> bool {
    &&& 0 <= at < line.len()
    &&& line[at] == ':'
    &&& forall|i: int| 0 <= i < line.len() && #[trigger] line[i] == ':' ==> i == at
}

/// What is written before the colon at `at`, trimmed: where the letter stands.
pub open spec fn entry_name(line: Seq<char>, at: int) -> Seq<char> {
    trimmed_of(line.take(at))
}

/// What is written after the colon at `at`, trimmed: where the frequency
/// stands.
pub open spec fn entry_value(line: Seq<char>, at: int) -> Seq<char> {
    trimmed_of(line.skip(at + 1))
}

/// What the last entry for `letter` among the first `n` of `entries` gives, if
/// there is one.
pub open spec fn last_entry(entries: Seq<(char, u32)>, letter: char, n: nat) -> Option<u32>
    recommends
        n <= entries.len(),
    decreases n,
{
    if n == 0 {
        None
    } else if entries[n - 1].0 == letter {
        Some(entries[n - 1].1)
    } else {
        last_entry(entries, letter, (n - 1) as nat)
    }
}

/// `entries` gives every letter a frequency, and its last word on each letter
/// is no more than the whole.
pub open spec fn entries_cover_alphabet(entries: Seq<(char, u32)>) -> bool {
    forall|i: int|
        0 <= i < LETTERS ==> (#[trigger] last_entry(entries, letter_at(i), entries.len())
            matches Some(p) && p <= FREQUENCY_SCALE)
}

/// Expected relative frequencies of the letters `A` to `Z`, in parts per million.
///
/// A table is immutable once made, and always holds exactly one frequency for
/// each letter, none of them more than `FREQUENCY_SCALE`.
#[derive(Debug)]
pub struct FrequencyTable {
    parts: Vec<u32>,
}

impl FrequencyTable {
    #[verifier::type_invariant]
    closed spec fn well_formed(&self) -> bool {
        is_frequency_table(self.parts@)
    }

    /// The frequencies of `A` to `Z` in order, in parts per million.
    pub closed spec fn view(&self) -> Seq<u32> {
        self.parts@
    }

    /// Makes a table from the frequencies of `A` to `Z`, given in that order in
    /// parts per million. The result is `None` unless there are exactly 26 of
    /// them, none above `FREQUENCY_SCALE`.
    pub fn new(parts: &[u32]) -> (table: Option<FrequencyTable>)
        ensures
            table is Some <==> is_frequency_table(parts@),
            table matches Some(t) ==> t@ == parts@,
    {
        if parts.len() != LETTERS {
            return None;
        }
        let mut kept: Vec<u32> = Vec::with_capacity(LETTERS);
        let mut i: usize = 0;
        while i < LETTERS
            invariant
                parts@.len() == LETTERS,
                i <= LETTERS,
                kept@ == parts@.take(i as int),
                forall|j: int| 0 <= j < i ==> #[trigger] parts@[j] <= FREQUENCY_SCALE,
            decreases LETTERS - i,
        {
            if parts[i] > FREQUENCY_SCALE {
                return None;
            }
            kept.push(parts[i]);
            assert(kept@ =~= parts@.take(i + 1));
            i += 1;
        }
        assert(kept@ =~= parts@);
        Some(FrequencyTable { parts: kept })
    }

    /// Makes a table from `(letter, frequency)` entries in any order, as a data
    /// file lists them. Where a letter comes twice its last entry counts, and
    /// entries for anything but `A` to `Z` are passed over. The result is
    /// `None` when a letter has no entry or its frequency is above
    /// `FREQUENCY_SCALE`.
    pub fn from_entries(entries: &[(char, u32)]) -> (table: Option<FrequencyTable>)
        ensures
            table is Some <==> entries_cover_alphabet(entries@),
            table matches Some(t) ==> forall|i: int|
                0 <= i < LETTERS ==> last_entry(entries@, letter_at(i), entries@.len()) == Some(
                    #[trigger] t@[i],
                ),
    {
        let mut parts: Vec<u32> = Vec::with_capacity(LETTERS);
        let mut found: Vec<bool> = Vec::with_capacity(LETTERS);
        while parts.len() < LETTERS
            invariant
                parts@.len() == found@.len(),
                parts@.len() <= LETTERS,
                forall|i: int| 0 <= i < found@.len() ==> !#[trigger] found@[i],
            decreases LETTERS - parts@.len(),
        {
            parts.push(0);
            found.push(false);
        }
        let n: usize = entries.len();
        let mut k: usize = 0;
        while k < n
            invariant
                n == entries@.len(),
                k <= n,
                parts@.len() == LETTERS,
                found@.len() == LETTERS,
                forall|i: int|
                    0 <= i < LETTERS ==> #[trigger] last_entry(entries@, letter_at(i), k as nat)
                        == if found@[i] {
                        Some(parts@[i])
                    } else {
                        None::<u32>
                    },
            decreases n - k,
        {
            let letter: u32 = entries[k].0 as u32;
            let value: u32 = entries[k].1;
            let ghost parts_before = parts@;
            let ghost found_before = found@;
            if 65 <= letter && letter <= 90 {
                let at: usize = (letter - 65) as usize;
                parts.set(at, value);
                found.set(at, true);
            }
            proof {
                assert forall|i: int| 0 <= i < LETTERS implies #[trigger] last_entry(
                    entries@,
                    letter_at(i),
                    (k + 1) as nat,
                ) == if found@[i] {
                    Some(parts@[i])
                } else {
                    None::<u32>
                } by {
                    assert(last_entry(entries@, letter_at(i), k as nat) == if found_before[i] {
                        Some(parts_before[i])
                    } else {
                        None::<u32>
                    });
                    assert(letter_at(i) as u32 == i + 65);
                    vstd::utf8::char_u32_cast(entries@[k as int].0, letter);
                }
            }
            k += 1;
        }
        let mut i: usize = 0;
        while i < LETTERS
            invariant
                i <= LETTERS,
                n == entries@.len(),
                parts@.len() == LETTERS,
                found@.len() == LETTERS,
                forall|j: int|
                    0 <= j < LETTERS ==> #[trigger] last_entry(entries@, letter_at(j), n as nat)
                        == if found@[j] {
                        Some(parts@[j])
                    } else {
                        None::<u32>
                    },
                forall|j: int| 0 <= j < i ==> #[trigger] found@[j],
                forall|j: int| 0 <= j < i ==> #[trigger] parts@[j] <= FREQUENCY_SCALE,
            decreases LETTERS - i,
        {
            if !found[i] || parts[i] > FREQUENCY_SCALE {
                assert(!(last_entry(entries@, letter_at(i as int), n as nat) matches Some(p) && p
                    <= FREQUENCY_SCALE));
                return None;
            }
            i += 1;
        }
        Some(FrequencyTable { parts })
    }

    /// The frequencies of `A` to `Z` in order, in parts per million.
    pub fn parts(&self) -> (parts: &Vec<u32>)
        ensures
            parts@ == self@,
            is_frequency_table(self@),
    {
        proof {
            use_type_invariant(self);
        }
        &self.parts
    }
}

impl Clone for FrequencyTable {
    /// A table with the same frequencies.
    fn clone(&self) -> (copy: Self)
        ensures
            copy@ == self@,
    {
        proof {
            use_type_invariant(self);
        }
        let parts: Vec<u32> = self.parts.clone();
        assert(parts@ =~= self.parts@);
        FrequencyTable { parts }
    }
}

/// Takes one line of a frequency data file apart: the letter that it is about,
/// and the text of the frequency that it gives.
///
/// A line is `<letter>:<frequency>`, with whitespace allowed around both. It
/// yields an entry when it holds exactly one colon and something stands
/// before the colon: the entry's letter is the first character there, and its
/// frequency text is all that stands after the colon. Any other line yields
/// `None`, and is to be passed over.
pub fn split_entry(line: &str) -> (entry: Option<(char, String)>)
    ensures
        match entry {
            Some(pair) => exists|at: int|
                {
                    &&& #[trigger] is_only_colon(line@, at)
                    &&& entry_name(line@, at).len() > 0
                    &&& pair.0 == entry_name(line@, at)[0]
                    &&& pair.1@ == entry_value(line@, at)
                },
            None => forall|at: int| #[trigger]
                is_only_colon(line@, at) ==> entry_name(line@, at).len() == 0,
        },
{
    broadcast use vstd::string::group_string_axioms;

    let n: usize = line.unicode_len();
    let mut colon: usize = 0;
    let mut colons: u8 = 0;
    let mut chars = line.chars();
    let mut i: usize = 0;
    loop
        invariant
            chars.obeys_prophetic_iter_laws(),
            n == line@.len(),
            i <= n,
            chars.remaining() == line@.skip(i as int),
            colons <= 2,
            colons == 0 ==> forall|j: int| 0 <= j < i ==> #[trigger] line@[j] != ':',
            colons == 1 ==> colon < i && line@[colon as int] == ':' && forall|j: int|
                0 <= j < i && #[trigger] line@[j] == ':' ==> j == colon,
            colons == 2 ==> exists|j: int, k: int|
                0 <= j < k < i && #[trigger] line@[j] == ':' && #[trigger] line@[k] == ':',
        ensures
            i == n,
            colons <= 2,
            colons == 0 ==> forall|j: int| 0 <= j < n ==> #[trigger] line@[j] != ':',
            colons == 1 ==> colon < n && line@[colon as int] == ':' && forall|j: int|
                0 <= j < n && #[trigger] line@[j] == ':' ==> j == colon,
            colons == 2 ==> exists|j: int, k: int|
                0 <= j < k < n && #[trigger] line@[j] == ':' && #[trigger] line@[k] == ':',
        decreases n - i,
    {
        match chars.next() {
            None => {
                break ;
            },
            Some(c) => {
                assert(c == line@[i as int]);
                if c == ':' {
                    if colons == 0 {
                        colon = i;
                        colons = 1;
                    } else if colons == 1 {
                        assert(line@[colon as int] == ':' && line@[i as int] == ':');
                        colons = 2;
                    }
                }
                i += 1;
            },
        }
    }
    if colons != 1 {
        return None;
    }
    assert(is_only_colon(line@, colon as int));
    let name: &str = line.substring_char(0, colon).trim();
    let value: &str = line.substring_char(colon + 1, n).trim();
    proof {
        assert(line@.subrange(0, colon as int) =~= line@.take(colon as int));
        assert(line@.subrange(colon + 1, n as int) =~= line@.skip(colon + 1));
    }
    if name.unicode_len() == 0 {
        return None;
    }
    Some((name.get_char(0), value.to_owned()))
}

/// The expected frequency of the capital letter `letter`, in parts per million.
pub fn english_monogram_frequency(letter: char, table: &FrequencyTable) -> (frequency: u32)
    requires
        is_capital(letter),
    ensures
        frequency == table@[letter_index(letter)],
        frequency <= FREQUENCY_SCALE,
{
    let parts = table.parts();
    let at: usize = (letter as u32 - 65) as usize;
    parts[at]
}

} // verus!
