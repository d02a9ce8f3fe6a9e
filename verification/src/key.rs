//! The decryption key: checking its text and decoding it to 16 bytes.

use crate::text::{chars_of, has_white_space};
use hex::FromHexError;
use vstd::prelude::*;

verus! {

/// Length in bytes of a key.
pub const KEY_SIZE: usize = 16;

/// Number of hexadecimal digits that spell a key.
pub const KEY_DIGITS: usize = 32;

/// Why a text is no key.
#[derive(Debug, Clone, Copy, PartialEq, Eq, Structural)]
pub enum KeyError {
    /// Without its whitespace the text is not 32 characters long.
    InvalidLength,
    /// The text has the right length and holds a character that is no
    /// hexadecimal digit.
    InvalidCharacter,
}

/// `key` without its whitespace.
pub open spec fn stripped(key: Seq<char>) -> Seq<char> {
    key.filter(|c: char| !has_white_space(c))
}

/// Whether `c` is one of `0` to `9`, `a` to `f`, `A` to `F`.
pub open spec fn is_hex_digit(c: char) -> bool {
    ('0' <= c && c <= '9') || ('a' <= c && c <= 'f') || ('A' <= c && c <= 'F')
}

/// Whether every character of `text` is a hexadecimal digit.
pub open spec fn all_hex_digits(text: Seq<char>) -> bool {
    forall|i: int| 0 <= i < text.len() ==> is_hex_digit(#[trigger] text[i])
}

/// What is wrong with the characters of a key, whitespace taken out, if
/// anything. The length is looked at first.
pub open spec fn digits_error(digits: Seq<char>) -> Option<KeyError> {
    if digits.len() != 32 {
        Some(KeyError::InvalidLength)
    } else if !all_hex_digits(digits) {
        Some(KeyError::InvalidCharacter)
    } else {
        None
    }
}

/// What is wrong with a key text, if anything.
pub open spec fn key_error(key: Seq<char>) -> Option<KeyError> {
    digits_error(stripped(key))
}

/// The value of the hexadecimal digit with character code `code`, if it is
/// one.
pub open spec fn hex_digit_value(code: u8) -> Option<int> {
    if 0x30 <= code <= 0x39 {
        Some(code - 0x30)
    } else if 0x61 <= code <= 0x66 {
        Some(code - 0x61 + 10)
    } else if 0x41 <= code <= 0x46 {
        Some(code - 0x41 + 10)
    } else {
        None
    }
}

/// Whether `text` is an even number of hexadecimal digits.
pub open spec fn is_hex_text(text: Seq<u8>) -> bool {
    text.len() % 2 == 0 && forall|i: int|
        0 <= i < text.len() ==> hex_digit_value(#[trigger] text[i]) is Some
}

/// The bytes that the digits of `text` spell, two digits to a byte, the
/// higher digit first.
pub open spec fn hex_decoded(text: Seq<u8>) -> Seq<u8> {
    Seq::new(
        text.len() / 2,
        |i: int|
            (hex_digit_value(text[2 * i])->0 * 16 + hex_digit_value(text[2 * i + 1])->0) as u8,
    )
}

/// `hex::FromHexError`, with the variants that the crate gives it.
#[verifier::external_type_specification]
pub struct ExFromHexError(FromHexError);

/// Calls `hex::decode`. It succeeds on an even number of hexadecimal digits,
/// of either case, and then gives the bytes they spell. On an odd number of
/// characters it fails with `OddLength`; otherwise on the first character that
/// is no digit, with that character and its place.
#[verifier::external_body]
fn hex_decode(text: &[u8]) -> (result: Result<Vec<u8>, FromHexError>)
    ensures
        match result {
            Ok(bytes) => is_hex_text(text@) && bytes@ == hex_decoded(text@),
            Err(FromHexError::OddLength) => text@.len() % 2 == 1,
            Err(FromHexError::InvalidHexCharacter { c, index }) => {
                &&& text@.len() % 2 == 0
                &&& index < text@.len()
                &&& hex_digit_value(text@[index as int]) is None
                &&& forall|i: int| 0 <= i < index ==> hex_digit_value(#[trigger] text@[i]) is Some
                &&& c == text@[index as int] as char
            },
            Err(FromHexError::InvalidStringLength) => false,
        },
{
    hex::decode(text)
}

/// The character codes of `text`.
pub open spec fn char_codes(text: Seq<char>) -> Seq<u8> {
    Seq::new(text.len(), |i: int| text[i] as u8)
}

/// The 16 bytes that a valid key text spells.
pub open spec fn key_bytes(key: Seq<char>) -> Seq<u8> {
    hex_decoded(char_codes(stripped(key)))
}

proof fn lemma_stripped_push(text: Seq<char>, c: char)
    ensures
        stripped(text.push(c)) == if has_white_space(c) {
            stripped(text)
        } else {
            stripped(text).push(c)
        },
{
    reveal_with_fuel(Seq::filter, 2);
    assert(text.push(c).drop_last() =~= text);
    assert(text.push(c).last() == c);
}

/// The characters of `text` that are no whitespace, in order.
pub fn strip_whitespace(text: &str) -> (digits: Vec<char>)
    ensures
        digits@ == stripped(text@),
{
    let chars = chars_of(text);
    let mut digits: Vec<char> = Vec::new();
    let mut i: usize = 0;
    while i < chars.len()
        invariant
            i <= chars@.len(),
            chars@ == text@,
            digits@ == stripped(chars@.take(i as int)),
        decreases chars@.len() - i,
    {
        let c = chars[i];
        proof {
            lemma_stripped_push(chars@.take(i as int), c);
            assert(chars@.take(i + 1) =~= chars@.take(i as int).push(c));
        }
        if !c.is_whitespace() {
            digits.push(c);
        }
        i = i + 1;
    }
    assert(chars@.take(chars@.len() as int) =~= chars@);
    digits
}

fn hex_digit(c: char) -> (hex: bool)
    ensures
        hex == is_hex_digit(c),
{
    ('0' <= c && c <= '9') || ('a' <= c && c <= 'f') || ('A' <= c && c <= 'F')
}

fn only_hex_digits(text: &[char]) -> (all: bool)
    ensures
        all == all_hex_digits(text@),
{
    let mut i: usize = 0;
    while i < text.len()
        invariant
            i <= text@.len(),
            forall|j: int| 0 <= j < i ==> is_hex_digit(#[trigger] text@[j]),
        decreases text@.len() - i,
    {
        if !hex_digit(text[i]) {
            return false;
        }
        i = i + 1;
    }
    true
}

fn codes_of(text: &[char]) -> (codes: Vec<u8>)
    requires
        all_hex_digits(text@),
    ensures
        codes@ == char_codes(text@),
{
    let mut codes: Vec<u8> = Vec::with_capacity(text.len());
    let mut i: usize = 0;
    while i < text.len()
        invariant
            i <= text@.len(),
            all_hex_digits(text@),
            codes@.len() == i,
            forall|j: int| 0 <= j < i ==> codes@[j] == text@[j] as u8,
        decreases text@.len() - i,
    {
        let c = text[i];
        assert(is_hex_digit(text@[i as int]));
        codes.push(c as u8);
        i = i + 1;
    }
    assert(codes@ =~= char_codes(text@));
    codes
}

/// Checks the characters of a key, whitespace taken out: they must be 32
/// hexadecimal digits, of either case.
pub fn check_digits(digits: &[char]) -> (result: Result<(), KeyError>)
    ensures
        match result {
            Ok(()) => digits_error(digits@) is None,
            Err(e) => digits_error(digits@) == Some(e),
        },
{
    if digits.len() != KEY_DIGITS {
        return Err(KeyError::InvalidLength);
    }
    if !only_hex_digits(digits) {
        return Err(KeyError::InvalidCharacter);
    }
    Ok(())
}

/// Decodes the characters of a key, whitespace taken out, to its 16 bytes:
/// two digits to a byte, the higher digit first.
pub fn decode_digits(digits: &[char]) -> (result: Result<[u8; 16], KeyError>)
    ensures
        match result {
            Ok(bytes) => digits_error(digits@) is None && bytes@ == hex_decoded(
                char_codes(digits@),
            ),
            Err(e) => digits_error(digits@) == Some(e),
        },
{
    match check_digits(digits) {
        Ok(()) => {},
        Err(e) => {
            return Err(e);
        },
    }
    let codes = codes_of(digits);
    assert(is_hex_text(codes@)) by {
        assert forall|i: int| 0 <= i < codes@.len() implies hex_digit_value(
            #[trigger] codes@[i],
        ) is Some by {
            assert(is_hex_digit(digits@[i]));
        }
    }
    match hex_decode(codes.as_slice()) {
        Ok(decoded) => {
            let mut bytes = [0u8; 16];
            let mut i: usize = 0;
            while i < KEY_SIZE
                invariant
                    i <= 16,
                    decoded@.len() == 16,
                    forall|j: int| 0 <= j < i ==> bytes@[j] == decoded@[j],
                decreases 16 - i,
            {
                bytes[i] = decoded[i];
                i = i + 1;
            }
            assert(bytes@ =~= decoded@);
            Ok(bytes)
        },
        Err(_) => Err(KeyError::InvalidCharacter),
    }
}

/// Checks a key text: without its whitespace it must be 32 hexadecimal digits,
/// of either case.
pub fn key_validation(key: &str) -> (valid: bool)
    ensures
        valid == (key_error(key@) is None),
{
    let digits = strip_whitespace(key);
    check_digits(digits.as_slice()).is_ok()
}

/// Decodes a key text to its 16 bytes.
///
/// Whitespace anywhere in the text is passed over. What is left must be 32
/// hexadecimal digits, of either case.
pub fn decode_key(key: &str) -> (result: Result<[u8; 16], KeyError>)
    ensures
        match result {
            Ok(bytes) => key_error(key@) is None && bytes@ == key_bytes(key@),
            Err(e) => key_error(key@) == Some(e),
        },
{
    let digits = strip_whitespace(key);
    decode_digits(digits.as_slice())
}

} // verus!
