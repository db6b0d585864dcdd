use xor_breaker::{bin_to_hex, hex_to_base64, hex_to_bin, is_hex_text, plaintext_to_bin};

#[test]
fn hex_to_bin_reads_two_digits_to_the_byte() {
    assert_eq!(hex_to_bin("00ff10a5"), vec![0x00, 0xff, 0x10, 0xa5]);
    assert_eq!(hex_to_bin("746865"), b"the".to_vec());
}

#[test]
fn hex_to_bin_takes_digits_in_either_case() {
    assert_eq!(hex_to_bin("aBcDeF"), vec![0xab, 0xcd, 0xef]);
    assert_eq!(hex_to_bin("ABCDEF"), hex_to_bin("abcdef"));
}

#[test]
fn hex_to_bin_of_nothing_is_nothing() {
    assert_eq!(hex_to_bin(""), Vec::<u8>::new());
}

#[test]
fn is_hex_text_accepts_pairs_of_digits_only() {
    assert!(is_hex_text(""));
    assert!(is_hex_text("00"));
    assert!(is_hex_text("1c0111001f010100061a024b53535009181c"));
    assert!(is_hex_text("AbCdEf0123456789"));
    assert!(!is_hex_text("0"));
    assert!(!is_hex_text("abc"));
    assert!(!is_hex_text("0g"));
    assert!(!is_hex_text("+f"));
    assert!(!is_hex_text(" 0"));
    assert!(!is_hex_text("0x10"));
    assert!(!is_hex_text("éé"));
}

#[test]
fn bin_to_hex_writes_lower_case_digits() {
    assert_eq!(bin_to_hex(&[0x74, 0x68, 0x65, 0xff, 0xab]), "746865ffab");
    assert_eq!(bin_to_hex(&[0x10]), "10");
}

#[test]
fn bin_to_hex_writes_two_digits_for_every_byte() {
    assert_eq!(bin_to_hex(&[0x00]), "00");
    assert_eq!(bin_to_hex(&[0x0a]), "0a");
    assert_eq!(bin_to_hex(&[0x0a, 0x00, 0xff]), "0a00ff");
    assert_eq!(bin_to_hex(&[0x74, 0x0a, 0x65]), "740a65");
    assert_eq!(bin_to_hex(&[0x0f, 0x10]), "0f10");
    assert_eq!(bin_to_hex(&[0x0a, 0x0b]), "0a0b");
    let all: Vec<u8> = (0..=255).collect();
    assert_eq!(bin_to_hex(&all).len(), 512);
}

#[test]
fn bin_to_hex_of_nothing_is_nothing() {
    assert_eq!(bin_to_hex(&[]), "");
}

#[test]
fn bin_to_hex_gives_back_the_digits_that_were_read() {
    for hex in [
        "",
        "0a",
        "00",
        "0a00ff",
        "000102030405060708090a0b0c0d0e0f10",
        "746865206b696420646f6e277420706c6179",
    ] {
        assert_eq!(bin_to_hex(&hex_to_bin(hex)), hex);
    }
    assert_eq!(bin_to_hex(&hex_to_bin("0A0B0C")), "0a0b0c");
}

#[test]
fn hex_to_bin_gives_back_the_bytes_that_were_written() {
    let all: Vec<u8> = (0..=255).collect();
    assert!(is_hex_text(&bin_to_hex(&all)));
    assert_eq!(hex_to_bin(&bin_to_hex(&all)), all);
    for bytes in [vec![], vec![0x0a], vec![0x0a, 0x0b], vec![0x00, 0x00], vec![0xab]] {
        assert!(is_hex_text(&bin_to_hex(&bytes)));
        assert_eq!(hex_to_bin(&bin_to_hex(&bytes)), bytes);
    }
}

#[test]
fn plaintext_to_bin_takes_ascii_as_it_is() {
    assert_eq!(plaintext_to_bin("ICE"), vec![73, 67, 69]);
    assert_eq!(plaintext_to_bin("this is a test"), b"this is a test".to_vec());
    assert_eq!(plaintext_to_bin(""), Vec::<u8>::new());
}

#[test]
fn plaintext_to_bin_keeps_the_low_byte_of_a_character() {
    assert_eq!(plaintext_to_bin("\u{e9}"), vec![0xe9]);
    assert_eq!(plaintext_to_bin("\u{100}"), vec![0x00]);
    assert_eq!(plaintext_to_bin("a\u{20ac}b"), vec![0x61, 0xac, 0x62]);
    assert_eq!(plaintext_to_bin("\u{1f600}"), vec![0x00]);
}

#[test]
fn hex_to_base64_of_a_whole_number_of_groups() {
    assert_eq!(
        hex_to_base64(
            "49276d206b696c6c696e6720796f757220627261696e206c696b65206120706f69736f6e6f7573206d757368726f6f6d"
        ),
        "SSdtIGtpbGxpbmcgeW91ciBicmFpbiBsaWtlIGEgcG9pc29ub3VzIG11c2hyb29t"
    );
    assert_eq!(hex_to_base64("4d616e"), "TWFu");
}

#[test]
fn hex_to_base64_leaves_the_last_group_unpadded() {
    assert_eq!(hex_to_base64("4d"), "TQ");
    assert_eq!(hex_to_base64("4d61"), "TWE");
    assert_eq!(hex_to_base64("4d616e4d"), "TWFuTQ");
    assert_eq!(hex_to_base64("4d616e4d61"), "TWFuTWE");
}

#[test]
fn hex_to_base64_of_nothing_is_nothing() {
    assert_eq!(hex_to_base64(""), "");
}

#[test]
fn hex_to_base64_uses_the_standard_alphabet() {
    assert_eq!(hex_to_base64("fbff"), "+/8");
    assert_eq!(hex_to_base64("000000"), "AAAA");
    assert_eq!(hex_to_base64("ffffff"), "////");
}
