use xor_breaker::score::{SCORE_LIMIT, WORST_SCORE};
use xor_breaker::{distance, is_settled, score_bytes, score_uppercased, FrequencyTable};

fn english() -> FrequencyTable {
    FrequencyTable::new(&[
        81670, 14920, 27820, 42530, 127020, 22280, 20150, 60940, 69660, 1530, 7720, 40250, 24060,
        67490, 75070, 19290, 950, 59870, 63270, 90560, 27580, 9780, 23600, 1500, 19740, 740,
    ])
    .unwrap()
}

/// A table in which `A` and `B` make up half of all letters each.
fn halves() -> FrequencyTable {
    let mut parts: Vec<u32> = vec![0; 26];
    parts[0] = 500_000;
    parts[1] = 500_000;
    FrequencyTable::new(&parts).unwrap()
}

#[test]
fn score_of_a_text_that_fits_the_table() {
    // Both letters have the share expected; 24 letters are missing.
    assert_eq!(distance("AB", &halves()), 2400);
    assert_eq!(distance("ABBA", &halves()), 2400);
}

#[test]
fn score_adds_the_distances_of_all_letters() {
    // A is half a text too much, B half a text too little: 100 * (0.5 + 0.5);
    // 25 letters are missing.
    assert_eq!(distance("A", &halves()), 2600);
}

#[test]
fn score_is_cut_down_to_a_whole_number() {
    // A has 2/3 for 1/2, B has 0 for 1/2: 100 * (1/6 + 1/2) = 66.67.
    assert_eq!(distance("A A", &halves()), 2566);
    // Length 3: A and B have 1/3 for 1/2 each: 100 * (1/6 + 1/6) = 33.33; the
    // line feed counts 100, the 24 missing letters 2400.
    assert_eq!(distance("AB\n", &halves()), 2533);
}

#[test]
fn score_counts_each_other_character_once() {
    assert_eq!(distance("a!", &halves()), 2650);
    assert_eq!(distance("a!!!", &halves()), 2600 + 75);
    assert_eq!(distance("AB!?", &halves()), 2400 + 200 + 50);
    assert_eq!(distance("AB!?!?", &halves()), 2400 + 200 + 66);
}

#[test]
fn score_does_not_count_the_space_as_a_character() {
    assert_eq!(distance(" ", &halves()), 2600 + 100);
    assert_eq!(distance(" ", &english()), 2699);
}

#[test]
fn score_counts_letters_that_the_table_does_not_expect() {
    // STRASSE: seven bytes; S, T, R and E are not expected at all.
    assert_eq!(distance("stra\u{df}e", &halves()), 2271);
}

#[test]
fn score_takes_the_length_in_bytes() {
    // The upper-case form has one character of two bytes.
    assert_eq!(distance("\u{e9}", &halves()), 2800);
    assert_eq!(distance("\u{e9}", &english()), 2799);
}

#[test]
fn score_against_english() {
    let table = english();
    assert_eq!(distance("this is a test", &table), 2093);
    assert_eq!(distance("Hello, World!", &table), 2201);
    assert_eq!(distance("Cooking MC's like a pound of bacon", &table), 1171);
    assert_eq!(distance("E", &table), 2674);
    assert_eq!(distance("etaoin shrdlu", &table), 1444);
    assert_eq!(distance("\u{0}\u{1}\u{2}", &table), 2999);
}

#[test]
fn score_is_the_same_in_either_case() {
    let table = english();
    for text in [
        "this is a test",
        "The Quick Brown Fox",
        "Cooking MC's like a pound of bacon",
        "na\u{ef}ve caf\u{e9}",
        "stra\u{df}e",
        "x",
        "",
    ] {
        assert_eq!(distance(text, &table), distance(&text.to_uppercase(), &table));
        assert_eq!(distance(text, &table), distance(&text.to_lowercase().to_uppercase(), &table));
    }
    assert_eq!(distance("the quick brown fox", &table), 1180);
    assert_eq!(distance("THE QUICK BROWN FOX", &table), 1180);
    assert_eq!(distance("tHe qUiCk bRoWn fOx", &table), 1180);
}

#[test]
fn score_of_the_empty_text_is_the_worst() {
    assert_eq!(WORST_SCORE, usize::MAX);
    assert_eq!(distance("", &english()), WORST_SCORE);
    assert_eq!(score_uppercased("", &english()), WORST_SCORE);
    assert_eq!(score_bytes(Vec::new(), &english()), WORST_SCORE);
}

#[test]
fn score_of_bytes_that_are_not_text_is_the_worst() {
    let table = english();
    assert_eq!(score_bytes(vec![0xff, 0xfe], &table), WORST_SCORE);
    assert_eq!(score_bytes(vec![b'a', 0x80], &table), WORST_SCORE);
    assert_eq!(score_bytes(vec![0xc3], &table), WORST_SCORE);
    assert_eq!(score_bytes(vec![0xed, 0xa0, 0x80], &table), WORST_SCORE);
}

#[test]
fn score_of_bytes_that_are_text_is_the_score_of_the_text() {
    let table = english();
    assert_eq!(score_bytes(b"this is a test".to_vec(), &table), 2093);
    assert_eq!(score_bytes(vec![0xc3, 0xa9], &table), 2799);
    assert_eq!(score_bytes(b"AB".to_vec(), &halves()), 2400);
}

#[test]
fn score_uppercased_takes_the_text_as_it_is() {
    assert_eq!(score_uppercased("AB", &halves()), 2400);
    // Small letters are characters like any other here.
    assert_eq!(score_uppercased("ab", &halves()), 2600 + 200 + 100);
    assert_eq!(score_uppercased("THIS IS A TEST", &english()), 2093);
}

#[test]
fn score_of_a_text_stays_below_the_limit() {
    assert!(SCORE_LIMIT < WORST_SCORE);
    let mut text = String::new();
    for code in 0x100u32..0x400 {
        text.push(char::from_u32(code).unwrap());
    }
    let score = distance(&text, &english());
    assert!(score < SCORE_LIMIT);
    assert!(score > 30_000);
}

/// The score as the formula gives it when it is worked out in floating point.
fn score_in_floating_point(text: &str, parts: &[u32]) -> usize {
    let upper = text.to_uppercase();
    let letters: Vec<char> = ('A'..='Z').collect();
    let mut sum = 0.0f64;
    for (at, letter) in letters.iter().enumerate() {
        let expected = f64::from(parts[at]) / 1_000_000.0;
        let observed = upper.matches(*letter).count() as f64 / upper.len() as f64;
        sum += (expected - observed).abs();
    }
    let mut others: Vec<char> = upper
        .chars()
        .filter(|c| *c != ' ' && !letters.contains(c))
        .collect();
    others.sort();
    others.dedup();
    let missing = letters.iter().filter(|c| !upper.contains(**c)).count();
    ((sum + (others.len() + missing) as f64) * 100.0) as usize
}

#[test]
fn score_agrees_with_the_formula_in_floating_point() {
    let parts: Vec<u32> = vec![
        81670, 14920, 27820, 42530, 127020, 22280, 20150, 60940, 69660, 1530, 7720, 40250, 24060,
        67490, 75070, 19290, 950, 59870, 63270, 90560, 27580, 9780, 23600, 1500, 19740, 740,
    ];
    let table = english();
    for text in [
        "this is a test",
        "Hello, World!",
        "Cooking MC's like a pound of bacon",
        "Now that the party is jumping\n",
        "etaoin shrdlu",
        "The quick brown fox jumps over the lazy dog",
        "It was the best of times, it was the worst of times",
        "zzzz qqqq xxxx jjjj",
        "1234567890",
        "na\u{ef}ve caf\u{e9}",
        "\u{0}\u{1}\u{2}\u{3}",
        "e",
        "q",
    ] {
        assert_eq!(distance(text, &table), score_in_floating_point(text, &parts));
    }
}

#[test]
fn uppercasing_settles_on_every_character() {
    let mut text = String::new();
    for code in 0..=0x10ffffu32 {
        if let Some(c) = char::from_u32(code) {
            text.clear();
            text.push(c);
            assert!(is_settled(&text));
        }
    }
}

#[test]
fn uppercasing_settles_on_texts() {
    for text in ["", "a", "A", "stra\u{df}e", "\u{149}", "\u{1f0}", "\u{390}", "\u{fb03}", "i\u{307}"] {
        assert!(is_settled(text));
    }
}

#[test]
fn score_of_a_text_beats_the_score_of_bytes_that_are_no_text() {
    let table = english();
    let unreadable = score_bytes(vec![0xff], &table);
    for text in ["a", " ", "\u{0}", "zzzz", "Hello, World!", "\u{10ffff}"] {
        let score = score_bytes(text.as_bytes().to_vec(), &table);
        assert!(score < SCORE_LIMIT);
        assert!(score < unreadable);
    }
}
