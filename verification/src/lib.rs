//! Decryption engine for optical-disc images whose sectors are partly
//! AES-128-CBC encrypted.
//!
//! An image is a run of 2048-byte sectors. Its first 4096 bytes carry a table
//! of sector ranges; a sector inside one of them that is not all zero is
//! decrypted with an initialization vector derived from its index.
//!
//! - [`region`] reads the table, [`classify`] decides which sectors are
//!   decrypted, [`iv`] derives the vectors and [`cipher`] decrypts a sector.
//! - [`pipeline`] cuts an image into batches and decrypts runs of sectors and
//!   whole images; what it gives does not depend on the size of the batches.
//! - [`key`] checks and decodes the key text; [`autodetect`] finds a key by
//!   the name of an image; [`args`] holds the arguments of a run.
//! - [`endian`] and [`text`] hold what the others share.

pub mod args;
pub mod autodetect;
pub mod cipher;
pub mod classify;
pub mod endian;
pub mod iv;
pub mod key;
pub mod pipeline;
pub mod region;
pub mod text;

pub use crate::args::Ps3decargs;
pub use crate::autodetect::detect_key;
pub use crate::cipher::decrypt_sector;
pub use crate::classify::is_encrypted;
pub use crate::iv::generate_iv;
pub use crate::key::key_validation;
pub use crate::pipeline::decrypt;
pub use crate::region::{extract_regions, Region};
