//! 32-bit numbers as four bytes, most significant byte first.

use vstd::prelude::*;

verus! {

/// The 32-bit number that the four bytes of `bytes` from `at` on encode, most
/// significant byte first.
pub open spec fn be32_at(bytes: Seq<u8>, at: int) -> int {
    bytes[at] * 0x100_0000 + bytes[at + 1] * 0x1_0000 + bytes[at + 2] * 0x100 + bytes[at + 3]
}

/// The four bytes that encode `value`, most significant byte first.
pub open spec fn be32_bytes(value: int) -> Seq<u8> {
    seq![
        ((value / 0x100_0000) % 0x100) as u8,
        ((value / 0x1_0000) % 0x100) as u8,
        ((value / 0x100) % 0x100) as u8,
        (value % 0x100) as u8,
    ]
}

/// Reads the number that the four bytes of `bytes` from `at` on encode.
pub fn read_be32(bytes: &[u8], at: usize) -> (value: u32)
    requires
        at + 4 <= bytes@.len(),
    ensures
        value == be32_at(bytes@, at as int),
{
    let b0: u32 = bytes[at] as u32;
    let b1: u32 = bytes[at + 1] as u32;
    let b2: u32 = bytes[at + 2] as u32;
    let b3: u32 = bytes[at + 3] as u32;
    b0 * 0x100_0000 + b1 * 0x1_0000 + b2 * 0x100 + b3
}

/// Puts the four bytes that encode `value` behind `out`.
pub fn push_be32(out: &mut Vec<u8>, value: u32)
    ensures
        final(out)@ == old(out)@ + be32_bytes(value as int),
{
    out.push((value / 0x100_0000 % 0x100) as u8);
    out.push((value / 0x1_0000 % 0x100) as u8);
    out.push((value / 0x100 % 0x100) as u8);
    out.push((value % 0x100) as u8);
    assert(out@ =~= old(out)@ + be32_bytes(value as int));
}

proof fn lemma_be32_recomposed(v: u32)
    by (bit_vector)
    ensures
        (v / 0x100_0000 % 0x100) * 0x100_0000 + (v / 0x1_0000 % 0x100) * 0x1_0000 + (v / 0x100
            % 0x100) * 0x100 + v % 0x100 == v,
{
}

/// Encoding a 32-bit number and reading the bytes gives the number back.
pub proof fn lemma_be32_bytes_then_value(value: int)
    requires
        0 <= value <= 0xFFFF_FFFF,
    ensures
        be32_bytes(value).len() == 4,
        be32_at(be32_bytes(value), 0) == value,
{
    lemma_be32_recomposed(value as u32);
}

proof fn lemma_be32_digits(b0: u8, b1: u8, b2: u8, b3: u8)
    by (bit_vector)
    ensures
        (b0 * 0x100_0000 + b1 * 0x1_0000 + b2 * 0x100 + b3) / 0x100_0000 % 0x100 == b0,
        (b0 * 0x100_0000 + b1 * 0x1_0000 + b2 * 0x100 + b3) / 0x1_0000 % 0x100 == b1,
        (b0 * 0x100_0000 + b1 * 0x1_0000 + b2 * 0x100 + b3) / 0x100 % 0x100 == b2,
        (b0 * 0x100_0000 + b1 * 0x1_0000 + b2 * 0x100 + b3) % 0x100 == b3,
        (b0 * 0x100_0000 + b1 * 0x1_0000 + b2 * 0x100 + b3) <= 0xFFFF_FFFF,
{
}

/// Reading four bytes and encoding the number gives the bytes back.
pub proof fn lemma_be32_value_then_bytes(bytes: Seq<u8>, at: int)
    requires
        0 <= at,
        at + 4 <= bytes.len(),
    ensures
        0 <= be32_at(bytes, at) <= 0xFFFF_FFFF,
        be32_bytes(be32_at(bytes, at)) =~= bytes.subrange(at, at + 4),
{
    lemma_be32_digits(bytes[at], bytes[at + 1], bytes[at + 2], bytes[at + 3]);
}

} // verus!
