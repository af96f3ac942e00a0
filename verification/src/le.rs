//! Little-endian integers read from byte buffers.

use vstd::prelude::*;

verus! {

/// The unsigned 16-bit little-endian integer at byte `pos` of `s`.
pub open spec fn le_u16(s: Seq<u8>, pos: int) -> int {
    s[pos] + 256 * s[pos + 1]
}

/// The signed (two's complement) 16-bit little-endian integer at byte `pos`.
pub open spec fn le_i16(s: Seq<u8>, pos: int) -> int {
    if le_u16(s, pos) >= 0x8000 {
        le_u16(s, pos) - 0x1_0000
    } else {
        le_u16(s, pos)
    }
}

/// The unsigned 32-bit little-endian integer at byte `pos` of `s`.
pub open spec fn le_u32(s: Seq<u8>, pos: int) -> int {
    s[pos] + 256 * s[pos + 1] + 65536 * s[pos + 2] + 16777216 * s[pos + 3]
}

/// Reads the unsigned 16-bit little-endian integer at `pos`.
pub fn read_u16(buf: &[u8], pos: usize) -> (res: u16)
    requires
        pos + 2 <= buf@.len(),
    ensures
        res as int == le_u16(buf@, pos as int),
{
    let b0 = buf[pos] as u16;
    let b1 = buf[pos + 1] as u16;
    assert(b0 | (b1 << 8) == b0 + 256 * b1) by (bit_vector)
        requires
            b0 < 256,
            b1 < 256,
    ;
    b0 | (b1 << 8)
}

/// Reads the signed 16-bit little-endian integer at `pos`.
pub fn read_i16(buf: &[u8], pos: usize) -> (res: i16)
    requires
        pos + 2 <= buf@.len(),
    ensures
        res as int == le_i16(buf@, pos as int),
{
    let u = read_u16(buf, pos);
    assert((u as i16) as int == if u >= 0x8000 { u - 0x1_0000 } else { u as int }) by (bit_vector);
    u as i16
}

/// Reads the unsigned 32-bit little-endian integer at `pos`.
pub fn read_u32(buf: &[u8], pos: usize) -> (res: u32)
    requires
        pos + 4 <= buf@.len(),
    ensures
        res as int == le_u32(buf@, pos as int),
{
    let b0 = buf[pos] as u32;
    let b1 = buf[pos + 1] as u32;
    let b2 = buf[pos + 2] as u32;
    let b3 = buf[pos + 3] as u32;
    assert(b0 | (b1 << 8) | (b2 << 16) | (b3 << 24) == b0 + 256 * b1 + 65536 * b2 + 16777216 * b3)
        by (bit_vector)
        requires
            b0 < 256,
            b1 < 256,
            b2 < 256,
            b3 < 256,
    ;
    b0 | (b1 << 8) | (b2 << 16) | (b3 << 24)
}

} // verus!
