//! Initialization vectors: one per sector, derived from the sector's index.

use crate::endian::{be32_at, be32_bytes};
use vstd::prelude::*;

verus! {

/// Length in bytes of an initialization vector and of a cipher block.
pub const BLOCK_SIZE: usize = 16;

/// The initialization vector of a sector: twelve zero bytes, then the low 32
/// bits of the sector's index, most significant byte first.
pub open spec fn iv_bytes(sector: u64) -> Seq<u8> {
    Seq::new(12, |i: int| 0u8) + be32_bytes(sector as int % 0x1_0000_0000)
}

/// Derives the initialization vector of `sector`.
///
/// The result depends on nothing but `sector`. Only the low 32 bits of the
/// index enter it; the image format has no index beyond them.
pub fn generate_iv(sector: u64) -> (iv: [u8; 16])
    ensures
        iv@ == iv_bytes(sector),
        forall|i: int| 0 <= i < 12 ==> iv@[i] == 0,
        be32_at(iv@, 12) == sector % 0x1_0000_0000,
{
    let mut iv = [0u8; 16];
    let b0: u64 = (sector & 0xFF000000) >> 24;
    let b1: u64 = (sector & 0x00FF0000) >> 16;
    let b2: u64 = (sector & 0x0000FF00) >> 8;
    let b3: u64 = sector & 0x000000FF;
    assert({
        let low = sector % 0x1_0000_0000;
        &&& b0 == (low / 0x100_0000) % 0x100
        &&& b1 == (low / 0x1_0000) % 0x100
        &&& b2 == (low / 0x100) % 0x100
        &&& b3 == low % 0x100
        &&& b0 * 0x100_0000 + b1 * 0x1_0000 + b2 * 0x100 + b3 == low
    }) by (bit_vector)
        requires
            b0 == (sector & 0xFF000000) >> 24,
            b1 == (sector & 0x00FF0000) >> 16,
            b2 == (sector & 0x0000FF00) >> 8,
            b3 == sector & 0x000000FF,
    ;
    iv[12] = b0 as u8;
    iv[13] = b1 as u8;
    iv[14] = b2 as u8;
    iv[15] = b3 as u8;
    assert(iv@ =~= iv_bytes(sector));
    iv
}

} // verus!
