//! What the command line asks for, and what follows from it.

use crate::autodetect::game_name;
use crate::key::{key_error, key_validation};
use crate::text::{contains_text, occurs_at};
use vstd::prelude::*;

verus! {

/// The number of worker threads where the command line names none.
pub const DEFAULT_THREADS: usize = 32;

/// The number of worker threads for an image that is given alone, without
/// any other argument.
pub const DROP_THREADS: usize = 64;

/// The arguments of one run.
#[derive(Debug, Clone, PartialEq, Eq)]
pub struct Ps3decargs {
    /// The path of the image to decrypt.
    pub iso: String,
    /// The decryption key, as hexadecimal text.
    pub dk: Option<String>,
    /// The number of worker threads.
    pub tc: usize,
    /// Whether to look the key up by the image's name.
    pub auto: bool,
    /// Whether to leave without waiting for a key press.
    pub skip: bool,
}

/// Where the key of a run comes from.
#[derive(Debug, Clone, PartialEq, Eq)]
pub enum KeyChoice {
    /// It is looked up among the key files by this name.
    Detect { game_name: String },
    /// It is this text, which is a valid key.
    Given { key: String },
    /// A key was given and is not valid.
    Invalid,
    /// No key was given and none is to be looked up.
    Missing,
}

impl Ps3decargs {
    /// Decides where the key comes from. Looking it up goes before a key
    /// that was given; a key that was given is checked.
    pub fn key_choice(&self) -> (choice: KeyChoice)
        ensures
            self.auto ==> choice is Detect && ({
                let name = choice->game_name@;
                &&& name == self.iso@.take(name.len() as int)
                &&& forall|i: int| 0 <= i < name.len() ==> !occurs_at(self.iso@, ".iso"@, i)
                &&& occurs_at(self.iso@, ".iso"@, name.len() as int) || (name == self.iso@
                    && !contains_text(self.iso@, ".iso"@))
            }),
            !self.auto && self.dk is None ==> choice is Missing,
            !self.auto && self.dk is Some && key_error(self.dk->0@) is None ==> choice is Given
                && choice->key@ == self.dk->0@,
            !self.auto && self.dk is Some && key_error(self.dk->0@) is Some ==> choice is Invalid,
    {
        if self.auto {
            return KeyChoice::Detect { game_name: game_name(self.iso.as_str()) };
        }
        match &self.dk {
            Some(key) => {
                if key_validation(key.as_str()) {
                    KeyChoice::Given { key: key.clone() }
                } else {
                    KeyChoice::Invalid
                }
            },
            None => KeyChoice::Missing,
        }
    }
}

} // verus!
