//! Finding the key of an image among key files, by the image's name.

use crate::text::{chars_of, contains_text, find_text, in_control_category, occurs_at, string_of};
use vstd::prelude::*;
use vstd::utf8::{decode_utf8, valid_utf8};

verus! {

/// Picks the key file of a game: the first of `file_names`, in the order
/// given, whose name holds `game_name`.
pub fn detect_key(file_names: &[String], game_name: &str) -> (found: Option<usize>)
    ensures
        match found {
            Some(i) => {
                &&& i < file_names@.len()
                &&& contains_text(file_names@[i as int]@, game_name@)
                &&& forall|j: int| 0 <= j < i ==> !contains_text(file_names@[j]@, game_name@)
            },
            None => forall|j: int|
                0 <= j < file_names@.len() ==> !contains_text(file_names@[j]@, game_name@),
        },
{
    let needle = chars_of(game_name);
    let mut i: usize = 0;
    while i < file_names.len()
        invariant
            i <= file_names@.len(),
            needle@ == game_name@,
            forall|j: int| 0 <= j < i ==> !contains_text(file_names@[j]@, game_name@),
        decreases file_names@.len() - i,
    {
        let name = chars_of(file_names[i].as_str());
        if find_text(name.as_slice(), needle.as_slice()).is_some() {
            return Some(i);
        }
        i = i + 1;
    }
    None
}

/// Why the content of a key file is no text.
#[derive(Debug, Clone, Copy, PartialEq, Eq, Structural)]
pub enum KeyFileError {
    /// The bytes are not valid UTF-8.
    InvalidUtf8,
}

/// Whether a character of a key file is dropped: line ends and control codes
/// are.
pub open spec fn is_dropped(c: char) -> bool {
    c == '\r' || c == '\n' || in_control_category(c)
}

/// `text` without the characters that are dropped.
pub open spec fn cleaned(text: Seq<char>) -> Seq<char> {
    text.filter(|c: char| !is_dropped(c))
}

proof fn lemma_cleaned_push(text: Seq<char>, c: char)
    ensures
        cleaned(text.push(c)) == if is_dropped(c) {
            cleaned(text)
        } else {
            cleaned(text).push(c)
        },
{
    reveal_with_fuel(Seq::filter, 2);
    assert(text.push(c).drop_last() =~= text);
    assert(text.push(c).last() == c);
}

/// Turns the content of a key file into key text: the bytes are read as
/// UTF-8, and line ends and control codes are dropped.
pub fn clean_key(data: Vec<u8>) -> (result: Result<String, KeyFileError>)
    ensures
        match result {
            Ok(key) => valid_utf8(data@) && key@ == cleaned(decode_utf8(data@)),
            Err(_) => !valid_utf8(data@),
        },
{
    let text = match String::from_utf8(data) {
        Ok(text) => text,
        Err(_) => {
            return Err(KeyFileError::InvalidUtf8);
        },
    };
    let chars = chars_of(text.as_str());
    let mut kept: Vec<char> = Vec::new();
    let mut i: usize = 0;
    while i < chars.len()
        invariant
            i <= chars@.len(),
            kept@ == cleaned(chars@.take(i as int)),
        decreases chars@.len() - i,
    {
        let c = chars[i];
        proof {
            lemma_cleaned_push(chars@.take(i as int), c);
            assert(chars@.take(i + 1) =~= chars@.take(i as int).push(c));
        }
        if !(c == '\r' || c == '\n' || c.is_control()) {
            kept.push(c);
        }
        i = i + 1;
    }
    assert(chars@.take(chars@.len() as int) =~= chars@);
    Ok(string_of(kept.as_slice()))
}

/// The name of the game that an image holds, as far as the image's path
/// tells: the path up to the first `.iso` in it, or all of it where there is
/// none.
pub fn game_name(iso: &str) -> (name: String)
    ensures
        name@ == iso@.take(name@.len() as int),
        forall|i: int| 0 <= i < name@.len() ==> !occurs_at(iso@, ".iso"@, i),
        occurs_at(iso@, ".iso"@, name@.len() as int) || (name@ == iso@ && !contains_text(
            iso@,
            ".iso"@,
        )),
{
    let path = chars_of(iso);
    let mark = chars_of(".iso");
    match find_text(path.as_slice(), mark.as_slice()) {
        Some(at) => {
            let name = string_of(vstd::slice::slice_subrange(path.as_slice(), 0, at));
            assert(iso@.subrange(0, at as int) =~= iso@.take(at as int));
            name
        },
        None => {
            let name = string_of(path.as_slice());
            assert(iso@.take(iso@.len() as int) =~= iso@);
            assert forall|i: int| 0 <= i < name@.len() implies !occurs_at(iso@, ".iso"@, i) by {
                if occurs_at(iso@, ".iso"@, i) {
                    assert(contains_text(iso@, ".iso"@));
                }
            }
            name
        },
    }
}

} // verus!
