//! Fields of bytes and words, each with the arithmetic that it stands for.
use vstd::prelude::*;

verus! {

/// The low four bits of a byte.
pub fn lo_nibble(b: u8) -> (r: u8)
    ensures
        r == b % 16,
{
    assert(b & 0xF == b % 16) by (bit_vector);
    b & 0xF
}

/// The high four bits of a byte.
pub fn hi_nibble(b: u8) -> (r: u8)
    ensures
        r == b / 16,
        r < 16,
{
    assert(b >> 4 == b / 16 && b >> 4 < 16) by (bit_vector);
    b >> 4
}

/// The byte with `lo` in its low and `hi` in its high four bits.
pub fn join_nibbles(lo: u8, hi: u8) -> (r: u8)
    requires
        lo < 16,
        hi < 16,
    ensures
        r == lo + 16 * hi,
        r % 16 == lo,
        r / 16 == hi,
{
    assert((hi << 4) | (lo & 0xF) == lo + 16 * hi) by (bit_vector)
        requires
            lo < 16,
            hi < 16,
    ;
    (hi << 4) | (lo & 0xF)
}

/// The two bytes, least significant first, as one number.
pub fn u16_le(b0: u8, b1: u8) -> (r: u16)
    ensures
        r == b0 + 256 * b1,
{
    let (x, y): (u16, u16) = (b0 as u16, b1 as u16);
    assert(x | (y << 8) == x + 256 * y) by (bit_vector)
        requires
            x < 256,
            y < 256,
    ;
    x | (y << 8)
}

/// The four bytes, least significant first, as one number.
pub fn u32_le(b0: u8, b1: u8, b2: u8, b3: u8) -> (r: u32)
    ensures
        r == b0 + 0x100 * b1 + 0x1_0000 * b2 + 0x100_0000 * b3,
{
    let (x, y, z, w): (u32, u32, u32, u32) = (b0 as u32, b1 as u32, b2 as u32, b3 as u32);
    assert(x | (y << 8) | (z << 16) | (w << 24) == x + 0x100 * y + 0x1_0000 * z + 0x100_0000 * w)
        by (bit_vector)
        requires
            x < 256,
            y < 256,
            z < 256,
            w < 256,
    ;
    x | (y << 8) | (z << 16) | (w << 24)
}

/// The two's complement value of a byte.
pub open spec fn signed(b: int) -> int {
    if b < 128 {
        b
    } else {
        b - 256
    }
}

/// A byte read as a signed number.
pub fn as_signed(b: u8) -> (r: i8)
    ensures
        r == signed(b as int),
{
    assert(b < 128 ==> b as i8 == b) by (bit_vector);
    assert(b >= 128 ==> b as i8 == b - 256) by (bit_vector);
    b as i8
}

} // verus!
