use base64::prelude::{Engine, BASE64_STANDARD};
use xor_breaker::repeating_key::{
    find_key, score_key_size, transpose, MAX_KEY_SIZE, MIN_KEY_SIZE, SAMPLED_BLOCKS,
    TRIED_KEY_SIZES,
};
use xor_breaker::{
    break_repeating_key_xor, break_with_key_sizes, decrypt_with_repeating_key_xor, distance,
    probable_key_sizes, XorError, FrequencyTable,
};

fn english() -> FrequencyTable {
    FrequencyTable::new(&[
        81670, 14920, 27820, 42530, 127020, 22280, 20150, 60940, 69660, 1530, 7720, 40250, 24060,
        67490, 75070, 19290, 950, 59870, 63270, 90560, 27580, 9780, 23600, 1500, 19740, 740,
    ])
    .unwrap()
}

const OPENING: &str = "It is a truth universally acknowledged, that a single man in possession\n\
of a good fortune, must be in want of a wife.\n\
However little known the feelings or views of such a man may be on his\n\
first entering a neighbourhood, this truth is so well fixed in the minds\n\
of the surrounding families, that he is considered as belonging by right\n\
to some one or other of their daughters.\n";

const ADDRESS: &str = "Four score and seven years ago our fathers brought forth on this continent\n\
a new nation, conceived in Liberty, and dedicated to the proposition\n\
that all men are created equal.\n\
Now we are engaged in a great civil war, testing whether that nation,\n\
or any nation so conceived and so dedicated, can long endure.\n\
We are met on a great battle-field of that war.\n";

/// `OPENING` enciphered with the repeating key `ICE`, in Base64.
fn opening_in_base64() -> String {
    [
        "ADdlIDBlKGMxOzYxIWMwJyozLDE2KC8pMGMkKigrJjQpLCciLCdpaTctKDdlKGM2IC0iJSZlJCIr",
        "aSoraTMqOjAgOjAsJi1PJiVlKGMiJiwhaSUqOzcwJyZpaS4wOjdlKyZlIC1lPiIrPWMqL2MkaTQs",
        "LyZrQwsqPiYzLDFlJSoxPS8gaSgrJjQraTctLGMjLCYpIC0iOmMqO2MzICYyOmMqL2M2PCAtaSJl",
        "JCIraS4kMGMnLGMqJ2MtIDBPLyo3OjdlLC0xLDEsJyRlKGMrLCoiISEqPDEtJiwhZWMxISo2aTc3",
        "PDctaSo2aTAqaTQgJS9lLyo9LCdlIC1lPSsgaS4sJyc2QywjaTctLGM2PDE3JjYrLSorLmMjKC4s",
        "JSogOm9lPSskPWMtLGMsOmMmJi02ICcgOyYhaSI2aSEgJSwrLiorLmMnMGM3ICQtPUkxJmM2Ji4g",
        "aSwrLGMqO2MqPSsgO2MqL2MxISYsO2MhKDYiITcgOzBrQw==",
    ]
    .concat()
}

#[test]
fn breaker_ranks_the_true_key_size_among_the_first_three() {
    let cipher = BASE64_STANDARD.decode(opening_in_base64()).unwrap();
    assert_eq!(cipher, decrypt_with_repeating_key_xor(OPENING.as_bytes(), b"ICE"));
    let sizes = probable_key_sizes(&cipher);
    assert_eq!(sizes.len(), 3);
    assert!(sizes.contains(&3));
    assert_eq!(sizes, vec![3, 10, 31]);
}

#[test]
fn breaker_recovers_key_and_plaintext() {
    let cipher = BASE64_STANDARD.decode(opening_in_base64()).unwrap();
    let (plain, key) = break_repeating_key_xor(&cipher, &english()).unwrap();
    assert_eq!(key, b"ICE".to_vec());
    assert_eq!(String::from_utf8(plain).unwrap(), OPENING);
}

#[test]
fn breaker_recovers_a_longer_key() {
    let cipher = decrypt_with_repeating_key_xor(ADDRESS.as_bytes(), b"Terminator");
    assert_eq!(probable_key_sizes(&cipher), vec![10, 20, 30]);
    let (plain, key) = break_repeating_key_xor(&cipher, &english()).unwrap();
    assert_eq!(key, b"Terminator".to_vec());
    assert_eq!(plain, ADDRESS.as_bytes().to_vec());
}

#[test]
fn breaker_result_deciphers_the_ciphertext() {
    let table = english();
    let cipher = decrypt_with_repeating_key_xor(ADDRESS.as_bytes(), b"XOR!?");
    let (plain, key) = break_repeating_key_xor(&cipher, &table).unwrap();
    assert_eq!(plain, decrypt_with_repeating_key_xor(&cipher, &key));
    assert!(probable_key_sizes(&cipher).contains(&key.len()));
    assert!(String::from_utf8(plain).is_ok());
}

#[test]
fn breaker_finds_nothing_in_a_short_ciphertext() {
    let table = english();
    assert_eq!(SAMPLED_BLOCKS * MIN_KEY_SIZE, 8);
    for len in 0..8 {
        let cipher: Vec<u8> = vec![b'a'; len];
        assert_eq!(probable_key_sizes(&cipher), Vec::<usize>::new());
        assert_eq!(
            break_repeating_key_xor(&cipher, &table),
            Err(XorError::NoSolutionFound)
        );
    }
}

#[test]
fn breaker_finds_nothing_where_no_key_gives_text() {
    let table = english();
    let cipher: Vec<u8> = vec![0xff; 16];
    assert_eq!(probable_key_sizes(&cipher), vec![2, 3, 4]);
    assert_eq!(
        break_repeating_key_xor(&cipher, &table),
        Err(XorError::NoSolutionFound)
    );
    assert_eq!(
        break_with_key_sizes(&cipher, &[1, 2, 3, 4, 5, 16, 17], &table),
        Err(XorError::NoSolutionFound)
    );
}

#[test]
fn key_size_score_is_the_scaled_average_distance() {
    // Distances from the first block: 16, 0 and 4 bits. Their average over
    // the block size is 20 / 3 / 2 = 3.33.
    let cipher: Vec<u8> = vec![0, 0, 0xff, 0xff, 0, 0, 0x0f, 0];
    assert_eq!(score_key_size(&cipher, 2), 333);
    let counting: Vec<u8> = (0..16).collect();
    assert_eq!(score_key_size(&counting, 2), 133);
    assert_eq!(score_key_size(&counting, 3), 222);
    assert_eq!(score_key_size(&counting, 4), 133);
    assert_eq!(score_key_size(&[7; 200], 40), 0);
}

#[test]
fn key_sizes_are_ranked_by_score_and_then_by_size() {
    assert_eq!(TRIED_KEY_SIZES, 3);
    let counting: Vec<u8> = (0..16).collect();
    assert_eq!(probable_key_sizes(&counting), vec![2, 4, 3]);
    assert_eq!(probable_key_sizes(&[7; 200]), vec![2, 3, 4]);
    let mixed: Vec<u8> = (0..200u32).map(|i| ((i * 37 + 11) % 256) as u8).collect();
    assert_eq!(probable_key_sizes(&mixed), vec![32, 16, 24]);
}

#[test]
fn key_sizes_need_room_for_the_sampled_blocks() {
    assert_eq!(MIN_KEY_SIZE, 2);
    assert_eq!(MAX_KEY_SIZE, 40);
    assert_eq!(SAMPLED_BLOCKS, 4);
    assert_eq!(probable_key_sizes(&[7; 7]), Vec::<usize>::new());
    assert_eq!(probable_key_sizes(&[7; 8]), vec![2]);
    assert_eq!(probable_key_sizes(&[7; 11]), vec![2]);
    assert_eq!(probable_key_sizes(&[7; 12]), vec![2, 3]);
    assert_eq!(probable_key_sizes(&[7; 15]), vec![2, 3]);
    assert_eq!(probable_key_sizes(&[7; 16]), vec![2, 3, 4]);
}

#[test]
fn transpose_deals_bytes_out_in_turn() {
    let cipher: Vec<u8> = (0..11).collect();
    assert_eq!(
        transpose(&cipher, 3),
        vec![vec![0, 3, 6, 9], vec![1, 4, 7, 10], vec![2, 5, 8]]
    );
    assert_eq!(transpose(&cipher, 1), vec![cipher.clone()]);
    assert_eq!(
        transpose(&[1, 2, 3], 5),
        vec![vec![1], vec![2], vec![3], vec![], vec![]]
    );
    assert_eq!(transpose(&[], 2), vec![Vec::<u8>::new(), Vec::<u8>::new()]);
    assert_eq!(
        transpose(&[1, 2, 3, 4], 2),
        vec![vec![1, 3], vec![2, 4]]
    );
}

#[test]
fn find_key_solves_every_column() {
    let table = english();
    let cipher = decrypt_with_repeating_key_xor(OPENING.as_bytes(), b"ICE");
    assert_eq!(find_key(&cipher, 3, &table), b"ICE".to_vec());
    assert_eq!(find_key(&cipher, 6, &table), b"ICEICE".to_vec());
    assert_eq!(find_key(&cipher, 1, &table), b"D".to_vec());
    // Columns past the end of the ciphertext are empty and get the first key.
    assert_eq!(find_key(&[], 4, &table), vec![32, 32, 32, 32]);
}

#[test]
fn break_with_key_sizes_takes_the_best_plaintext() {
    let table = english();
    let cipher = decrypt_with_repeating_key_xor(OPENING.as_bytes(), b"ICE");
    let (plain, key) = break_with_key_sizes(&cipher, &[2, 5, 3, 10], &table).unwrap();
    assert_eq!(key, b"ICE".to_vec());
    assert_eq!(plain, OPENING.as_bytes().to_vec());
    assert_eq!(distance(OPENING, &table), 624);
}

#[test]
fn break_with_key_sizes_takes_the_first_of_equal_plaintexts() {
    let table = english();
    let cipher = decrypt_with_repeating_key_xor(OPENING.as_bytes(), b"ICE");
    let (_, key) = break_with_key_sizes(&cipher, &[6, 3], &table).unwrap();
    assert_eq!(key, b"ICEICE".to_vec());
    let (_, key) = break_with_key_sizes(&cipher, &[3, 6], &table).unwrap();
    assert_eq!(key, b"ICE".to_vec());
}

#[test]
fn break_with_key_sizes_returns_what_the_sizes_allow() {
    let table = english();
    let cipher = decrypt_with_repeating_key_xor(OPENING.as_bytes(), b"ICE");
    let (plain, key) = break_with_key_sizes(&cipher, &[2, 5], &table).unwrap();
    assert_eq!(key, b"CC".to_vec());
    assert_eq!(plain, decrypt_with_repeating_key_xor(&cipher, b"CC"));
    assert_eq!(distance(&String::from_utf8(plain).unwrap(), &table), 1344);
}

#[test]
fn break_with_no_key_sizes_finds_nothing() {
    let cipher = decrypt_with_repeating_key_xor(OPENING.as_bytes(), b"ICE");
    assert_eq!(
        break_with_key_sizes(&cipher, &[], &english()),
        Err(XorError::NoSolutionFound)
    );
}
