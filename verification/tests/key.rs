use ps3dec::key::{
    check_digits, decode_digits, decode_key, key_validation, strip_whitespace, KeyError,
};

#[test]
fn thirty_two_digits_are_a_key() {
    assert!(key_validation("000102030405060708090a0b0c0d0e0f"));
    assert!(key_validation("ffffffffffffffffffffffffffffffff"));
}

#[test]
fn digits_of_either_case_are_taken() {
    assert!(key_validation("DEADBEEF00112233445566778899AABB"));
    assert!(key_validation("DeadBeef00112233445566778899aAbB"));
}

#[test]
fn whitespace_is_passed_over() {
    assert!(key_validation("  deadbeef00112233445566778899aabb"));
    assert!(key_validation("deadbeef 00112233 44556677 8899aabb\r\n"));
    assert!(key_validation("\tdeadbeef00112233\u{A0}445566778899aabb\u{3000}"));
}

#[test]
fn a_wrong_length_is_no_key() {
    assert!(!key_validation(""));
    assert!(!key_validation("   "));
    assert!(!key_validation("deadbeef00112233445566778899aab"));
    assert!(!key_validation("deadbeef00112233445566778899aabbc"));
    assert!(!key_validation("  deadbeef00112233445566778899aa"));
}

#[test]
fn a_character_that_is_no_digit_is_no_key() {
    assert!(!key_validation("deadbeef00112233445566778899aabg"));
    assert!(!key_validation("deadbeef-0112233445566778899aabb"));
    assert!(!key_validation("0x0102030405060708090a0b0c0d0e0f"));
    assert!(!key_validation("deadbeef00112233445566778899aab\u{661}"));
}

#[test]
fn a_key_with_whitespace_is_decoded() {
    assert_eq!(
        decode_key("  deadbeef00112233445566778899aabb"),
        Ok([
            0xde, 0xad, 0xbe, 0xef, 0x00, 0x11, 0x22, 0x33, 0x44, 0x55, 0x66, 0x77, 0x88, 0x99,
            0xaa, 0xbb
        ])
    );
    assert_eq!(
        decode_key("de ad be ef 00 11 22 33 44 55 66 77 88 99 aa bb\n"),
        Ok([
            0xde, 0xad, 0xbe, 0xef, 0x00, 0x11, 0x22, 0x33, 0x44, 0x55, 0x66, 0x77, 0x88, 0x99,
            0xaa, 0xbb
        ])
    );
}

#[test]
fn thirty_digits_behind_whitespace_are_too_few() {
    assert_eq!(decode_key("  deadbeef00112233445566778899aa"), Err(KeyError::InvalidLength));
    assert!(!key_validation("  deadbeef00112233445566778899aa"));
}

#[test]
fn thirty_one_digits_are_refused() {
    assert_eq!(decode_key("deadbeef00112233445566778899aab"), Err(KeyError::InvalidLength));
    assert!(!key_validation("deadbeef00112233445566778899aab"));
}

#[test]
fn digits_decode_two_to_a_byte_higher_digit_first() {
    assert_eq!(
        decode_key("000102030405060708090a0b0c0d0e0f"),
        Ok([0, 1, 2, 3, 4, 5, 6, 7, 8, 9, 10, 11, 12, 13, 14, 15])
    );
    assert_eq!(
        decode_key("102030405060708090A0B0C0D0E0F0ff"),
        Ok([
            0x10, 0x20, 0x30, 0x40, 0x50, 0x60, 0x70, 0x80, 0x90, 0xA0, 0xB0, 0xC0, 0xD0, 0xE0,
            0xF0, 0xFF
        ])
    );
}

#[test]
fn upper_and_lower_case_decode_alike() {
    assert_eq!(
        decode_key("ABCDEFabcdef0123456789ABCDEFabcd"),
        decode_key("abcdefABCDEF0123456789abcdefABCD")
    );
    assert_eq!(
        decode_key("ABCDEFabcdef0123456789ABCDEFabcd"),
        Ok([
            0xab, 0xcd, 0xef, 0xab, 0xcd, 0xef, 0x01, 0x23, 0x45, 0x67, 0x89, 0xab, 0xcd, 0xef,
            0xab, 0xcd
        ])
    );
}

#[test]
fn the_length_is_looked_at_before_the_characters() {
    assert_eq!(decode_key("xyz"), Err(KeyError::InvalidLength));
    assert_eq!(decode_key(""), Err(KeyError::InvalidLength));
    assert_eq!(
        decode_key("deadbeef00112233445566778899aabbcc"),
        Err(KeyError::InvalidLength)
    );
}

#[test]
fn a_character_that_is_no_digit_is_refused() {
    assert_eq!(
        decode_key("deadbeef00112233445566778899aabz"),
        Err(KeyError::InvalidCharacter)
    );
    assert_eq!(
        decode_key("g0000000000000000000000000000000"),
        Err(KeyError::InvalidCharacter)
    );
    assert_eq!(
        decode_key("0000000000000000000000000000000\u{e9}"),
        Err(KeyError::InvalidCharacter)
    );
}

#[test]
fn validation_says_whether_decoding_succeeds() {
    let keys = [
        "000102030405060708090a0b0c0d0e0f",
        " 000102030405060708090a0b0c0d0e0f ",
        "000102030405060708090a0b0c0d0e0",
        "000102030405060708090a0b0c0d0e0g",
        "",
    ];
    for key in keys {
        assert_eq!(key_validation(key), decode_key(key).is_ok());
    }
}

#[test]
fn whitespace_is_taken_out_and_nothing_else() {
    assert_eq!(strip_whitespace(" a\tb\nc\r d\u{A0}e\u{2003}f\u{3000}"), vec!['a', 'b', 'c', 'd', 'e', 'f']);
    assert_eq!(strip_whitespace("a-b_c\u{0}d"), vec!['a', '-', 'b', '_', 'c', '\u{0}', 'd']);
    assert_eq!(strip_whitespace(" \t\r\n"), Vec::<char>::new());
    assert_eq!(strip_whitespace(""), Vec::<char>::new());
}

#[test]
fn digits_are_checked_as_they_stand() {
    let good: Vec<char> = "0123456789abcdefABCDEF0123456789".chars().collect();
    assert_eq!(check_digits(&good), Ok(()));
    let spaced: Vec<char> = " 123456789abcdefABCDEF0123456789".chars().collect();
    assert_eq!(check_digits(&spaced), Err(KeyError::InvalidCharacter));
    let short: Vec<char> = "0123456789abcdef".chars().collect();
    assert_eq!(check_digits(&short), Err(KeyError::InvalidLength));
    assert_eq!(check_digits(&[]), Err(KeyError::InvalidLength));
    let edges: Vec<char> = "/:@G`g0000000000000000000000000a".chars().collect();
    assert_eq!(check_digits(&edges), Err(KeyError::InvalidCharacter));
    for bad in ['/', ':', '@', 'G', '`', 'g', ' ', '\u{ff10}'] {
        let mut digits = good.clone();
        digits[31] = bad;
        assert_eq!(check_digits(&digits), Err(KeyError::InvalidCharacter));
    }
}

#[test]
fn digits_are_decoded_as_they_stand() {
    let digits: Vec<char> = "0123456789abcdefFEDCBA9876543210".chars().collect();
    assert_eq!(
        decode_digits(&digits),
        Ok([
            0x01, 0x23, 0x45, 0x67, 0x89, 0xab, 0xcd, 0xef, 0xfe, 0xdc, 0xba, 0x98, 0x76, 0x54,
            0x32, 0x10
        ])
    );
    let short: Vec<char> = "0123".chars().collect();
    assert_eq!(decode_digits(&short), Err(KeyError::InvalidLength));
    let bad: Vec<char> = "0123456789abcdefFEDCBA987654321x".chars().collect();
    assert_eq!(decode_digits(&bad), Err(KeyError::InvalidCharacter));
}
