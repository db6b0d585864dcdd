use xor_breaker::frequency::{split_entry, FREQUENCY_SCALE, LETTERS};
use xor_breaker::{english_monogram_frequency, FrequencyTable};

fn english_parts() -> Vec<u32> {
    vec![
        81670, 14920, 27820, 42530, 127020, 22280, 20150, 60940, 69660, 1530, 7720, 40250, 24060,
        67490, 75070, 19290, 950, 59870, 63270, 90560, 27580, 9780, 23600, 1500, 19740, 740,
    ]
}

#[test]
fn table_holds_the_frequencies_it_was_made_from() {
    let table = FrequencyTable::new(&english_parts()).unwrap();
    assert_eq!(table.parts(), &english_parts());
    assert_eq!(english_monogram_frequency('A', &table), 81670);
    assert_eq!(english_monogram_frequency('E', &table), 127020);
    assert_eq!(english_monogram_frequency('Q', &table), 950);
    assert_eq!(english_monogram_frequency('Z', &table), 740);
}

#[test]
fn table_needs_one_frequency_for_each_letter() {
    assert_eq!(LETTERS, 26);
    assert!(FrequencyTable::new(&[]).is_none());
    assert!(FrequencyTable::new(&english_parts()[..25]).is_none());
    let mut longer = english_parts();
    longer.push(0);
    assert!(FrequencyTable::new(&longer).is_none());
}

#[test]
fn table_refuses_a_frequency_above_the_whole() {
    assert_eq!(FREQUENCY_SCALE, 1_000_000);
    let mut parts = english_parts();
    parts[25] = FREQUENCY_SCALE;
    assert!(FrequencyTable::new(&parts).is_some());
    parts[25] = FREQUENCY_SCALE + 1;
    assert!(FrequencyTable::new(&parts).is_none());
    parts[25] = 740;
    parts[0] = u32::MAX;
    assert!(FrequencyTable::new(&parts).is_none());
}

#[test]
fn table_from_entries_in_any_order() {
    let mut entries: Vec<(char, u32)> = Vec::new();
    for (at, part) in english_parts().iter().enumerate().rev() {
        entries.push(((b'A' + at as u8) as char, *part));
    }
    let table = FrequencyTable::from_entries(&entries).unwrap();
    assert_eq!(table.parts(), &english_parts());
}

#[test]
fn table_from_entries_takes_the_last_word_on_a_letter() {
    let mut entries: Vec<(char, u32)> = Vec::new();
    entries.push(('E', 5));
    for (at, part) in english_parts().iter().enumerate() {
        entries.push(((b'A' + at as u8) as char, *part));
    }
    entries.push(('Z', 1234));
    let table = FrequencyTable::from_entries(&entries).unwrap();
    assert_eq!(english_monogram_frequency('E', &table), 127020);
    assert_eq!(english_monogram_frequency('Z', &table), 1234);
}

#[test]
fn table_from_entries_passes_over_other_characters() {
    let mut entries: Vec<(char, u32)> = vec![('a', 7), ('#', 2_000_000), (' ', 1), ('\u{c9}', 3)];
    for (at, part) in english_parts().iter().enumerate() {
        entries.push(((b'A' + at as u8) as char, *part));
    }
    entries.push(('[', 9));
    entries.push(('@', 9));
    let table = FrequencyTable::from_entries(&entries).unwrap();
    assert_eq!(table.parts(), &english_parts());
}

#[test]
fn table_from_entries_needs_every_letter() {
    assert!(FrequencyTable::from_entries(&[]).is_none());
    for missing in 0..26usize {
        let mut entries: Vec<(char, u32)> = Vec::new();
        for (at, part) in english_parts().iter().enumerate() {
            if at != missing {
                entries.push(((b'A' + at as u8) as char, *part));
            }
        }
        assert!(FrequencyTable::from_entries(&entries).is_none());
    }
}

#[test]
fn table_from_entries_refuses_a_frequency_above_the_whole() {
    let mut entries: Vec<(char, u32)> = Vec::new();
    for (at, part) in english_parts().iter().enumerate() {
        entries.push(((b'A' + at as u8) as char, *part));
    }
    entries.push(('M', 1_000_001));
    assert!(FrequencyTable::from_entries(&entries).is_none());
    entries.push(('M', 1_000_000));
    let table = FrequencyTable::from_entries(&entries).unwrap();
    assert_eq!(english_monogram_frequency('M', &table), 1_000_000);
}

#[test]
fn entry_is_a_letter_and_a_frequency_around_a_colon() {
    assert_eq!(split_entry("A:0.08167"), Some(('A', "0.08167".to_string())));
    assert_eq!(split_entry("Z:7.4e-4"), Some(('Z', "7.4e-4".to_string())));
}

#[test]
fn entry_is_trimmed_on_both_sides_of_the_colon() {
    assert_eq!(split_entry("  E : 0.12702  "), Some(('E', "0.12702".to_string())));
    assert_eq!(split_entry("\tQ:\t0.00095\r"), Some(('Q', "0.00095".to_string())));
    assert_eq!(split_entry("\u{a0}T\u{2003}:\u{3000}0.09056"), Some(('T', "0.09056".to_string())));
}

#[test]
fn entry_takes_the_first_character_before_the_colon() {
    assert_eq!(split_entry("AB: 1"), Some(('A', "1".to_string())));
    assert_eq!(split_entry("e:0.1"), Some(('e', "0.1".to_string())));
    assert_eq!(split_entry("\u{e9} x:0.1"), Some(('\u{e9}', "0.1".to_string())));
}

#[test]
fn entry_may_have_nothing_after_the_colon() {
    assert_eq!(split_entry("A:"), Some(('A', String::new())));
    assert_eq!(split_entry("A:   "), Some(('A', String::new())));
    assert_eq!(split_entry("A: not a number"), Some(('A', "not a number".to_string())));
}

#[test]
fn line_without_exactly_one_colon_is_no_entry() {
    assert_eq!(split_entry(""), None);
    assert_eq!(split_entry("A"), None);
    assert_eq!(split_entry("A 0.08167"), None);
    assert_eq!(split_entry("A:0.1:0.2"), None);
    assert_eq!(split_entry("::"), None);
    assert_eq!(split_entry("A::0.1"), None);
}

#[test]
fn line_with_nothing_before_the_colon_is_no_entry() {
    assert_eq!(split_entry(":0.1"), None);
    assert_eq!(split_entry("   :0.1"), None);
    assert_eq!(split_entry(":"), None);
    assert_eq!(split_entry(" \t : "), None);
}
