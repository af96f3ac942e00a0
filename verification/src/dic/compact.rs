//! Compact encoding primitives: VByte, ZigZag, and bit-packing.
//!
//! Used by the connection matrix (bit-packed blocks) and word infos
//! (VByte-encoded records) for space-efficient dictionary storage
//! that can be decoded without heavy decompression libraries.

use vstd::prelude::*;
use vstd::arithmetic::power2::*;
use vstd::bits::*;
use vstd::std_specs::bits::*;

verus! {

// ── VByte ───────────────────────────────────────────────────────────────────

/// The VByte (LEB128-style) encoding of `v`: seven data bits per byte, least
/// significant group first, bit 7 set on every byte except the last one.
pub open spec fn vbyte_encoding(v: nat) -> Seq<u8>
    decreases v,
{
    if v < 128 {
        seq![v as u8]
    } else {
        seq![(v % 128 + 128) as u8] + vbyte_encoding(v / 128)
    }
}

/// Reading a VByte stream from position `i`, where `acc` is the value gathered
/// so far and `w` the weight of the next 7-bit group: the value read (without
/// any width limit) and the position just past the last byte read. Reading
/// stops after the first byte whose bit 7 is clear, or at the end of `data`.
pub open spec fn vbyte_scan(data: Seq<u8>, i: nat, acc: int, w: int) -> (int, nat)
    decreases data.len() - i,
{
    if i >= data.len() {
        (acc, data.len())
    } else if data[i as int] < 128 {
        (acc + data[i as int] * w, i + 1)
    } else {
        vbyte_scan(data, i + 1, acc + (data[i as int] - 128) * w, w * 128)
    }
}

/// The value and byte count of the VByte number at the start of `data`.
pub open spec fn vbyte_decoding(data: Seq<u8>) -> (int, nat) {
    vbyte_scan(data, 0, 0, 1)
}

/// A VByte number fits the 32-bit decoder unless its first five bytes all
/// announce a continuation and a sixth byte follows.
pub open spec fn vbyte_decodable(data: Seq<u8>) -> bool {
    !(data.len() > 5 && forall|j: int| 0 <= j < 5 ==> data[j] >= 128)
}

/// Encode a u32 as VByte (LEB128-style), appending the bytes to `out`.
///
/// Each byte stores 7 data bits; bit 7 = 1 means more bytes follow.
pub fn encode_vbyte(value: u32, out: &mut Vec<u8>)
    ensures
        final(out)@ == old(out)@ + vbyte_encoding(value as nat),
{
    let mut rest = value;
    loop
        invariant
            out@ + vbyte_encoding(rest as nat) == old(out)@ + vbyte_encoding(value as nat),
        decreases rest,
    {
        assert(rest & 0x7F == rest % 128) by (bit_vector);
        let byte = (rest & 0x7F) as u8;
        assert(rest >> 7 == rest / 128) by (bit_vector);
        let ghost prev = rest;
        rest = rest >> 7;
        if rest == 0 {
            let ghost before = out@;
            out.push(byte);
            assert(out@ == before.push(byte));
            assert(before + vbyte_encoding(prev as nat) == old(out)@ + vbyte_encoding(value as nat));
            assert(vbyte_encoding(prev as nat) == seq![byte]);
            assert(out@ =~= old(out)@ + vbyte_encoding(value as nat));
            return ;
        }
        assert((byte | 0x80) == byte + 128) by (bit_vector)
            requires
                byte < 128,
        ;
        out.push(byte | 0x80);
        assert(vbyte_encoding(prev as nat) == seq![(byte | 0x80) as u8] + vbyte_encoding(
            rest as nat,
        ));
        assert(out@ + vbyte_encoding(rest as nat) =~= old(out)@ + vbyte_encoding(value as nat));
    }
}

proof fn lemma_or_shifted_group(r: u32, x: u32, i: nat)
    requires
        i <= 4,
        x < 128,
        r < pow128(i),
    ensures
        (r | (x << (7 * i) as u32)) as int == (r + x * pow128(i)) % 0x1_0000_0000,
{
    reveal_with_fuel(pow128, 5);
    if i == 0 {
        assert(r | (x << 0u32) == r + x) by (bit_vector)
            requires
                r < 1,
                x < 128,
        ;
    } else if i == 1 {
        assert(r | (x << 7u32) == r + x * 128) by (bit_vector)
            requires
                r < 128,
                x < 128,
        ;
    } else if i == 2 {
        assert(r | (x << 14u32) == r + x * 16384) by (bit_vector)
            requires
                r < 16384,
                x < 128,
        ;
    } else if i == 3 {
        assert(r | (x << 21u32) == r + x * 2097152) by (bit_vector)
            requires
                r < 2097152,
                x < 128,
        ;
    } else {
        assert((r | (x << 28u32)) as int == (r + x * 268435456) % 0x1_0000_0000) by (bit_vector)
            requires
                r < 268435456,
                x < 128,
        ;
    }
}

/// 128 to the power `i`.
pub open spec fn pow128(i: nat) -> int
    decreases i,
{
    if i == 0 {
        1
    } else {
        128 * pow128((i - 1) as nat)
    }
}

/// Decode a VByte-encoded u32 from `data`.
///
/// Returns `(value, bytes_consumed)`. Bits above the 32nd are dropped.
pub fn decode_vbyte(data: &[u8]) -> (res: (u32, usize))
    requires
        vbyte_decodable(data@),
    ensures
        res.0 as int == vbyte_decoding(data@).0 % 0x1_0000_0000,
        res.1 as nat == vbyte_decoding(data@).1,
{
    let mut result: u32 = 0;
    let mut shift: u32 = 0;
    let mut i: usize = 0;
    let ghost mut acc: int = 0;
    let ghost mut w: int = 1;
    while i < data.len()
        invariant
            i <= data.len(),
            i <= 5,
            vbyte_decodable(data@),
            forall|j: int| 0 <= j < i ==> data@[j] >= 128,
            shift == 7 * i,
            w == pow128(i as nat),
            0 <= acc < w,
            result as int == acc % 0x1_0000_0000,
            vbyte_decoding(data@) == vbyte_scan(data@, i as nat, acc, w),
        decreases data.len() - i,
    {
        let byte = data[i];
        if i == 5 {
            assert(false);
        }
        assert(i <= 4);
        reveal_with_fuel(pow128, 5);
        assert(w <= 268435456);
        assert(result == acc);
        let x = (byte & 0x7F) as u32;
        proof {
            assert(byte & 0x7F < 128) by (bit_vector);
            lemma_or_shifted_group(result, x, i as nat);
            if byte < 128 {
                assert(byte & 0x7F == byte) by (bit_vector)
                    requires
                        byte < 128,
                ;
            } else {
                assert(byte & 0x7F == byte - 128) by (bit_vector)
                    requires
                        byte >= 128,
                ;
            }
        }
        result = result | (x << shift);
        if byte & 0x80 == 0 {
            assert(byte < 128) by (bit_vector)
                requires
                    byte & 0x80 == 0,
            ;
            return (result, i + 1);
        }
        assert(byte >= 128) by (bit_vector)
            requires
                byte & 0x80 != 0,
        ;
        proof {
            acc = acc + x * w;
            w = w * 128;
            assert(acc < w) by (nonlinear_arith)
                requires
                    acc < w / 128 + x * (w / 128),
                    x < 128,
                    w / 128 > 0,
                    w == (w / 128) * 128,
            ;
        }
        shift = shift + 7;
        i = i + 1;
    }
    (result, data.len())
}

proof fn lemma_vbyte_scan_encoding(v: nat, pre: Seq<u8>, rest: Seq<u8>, acc: int, w: int)
    ensures
        vbyte_scan(pre + vbyte_encoding(v) + rest, pre.len(), acc, w) == (
            acc + v * w,
            pre.len() + vbyte_encoding(v).len(),
        ),
    decreases v,
{
    let data = pre + vbyte_encoding(v) + rest;
    if v < 128 {
        assert(data[pre.len() as int] == v as u8);
    } else {
        let b = (v % 128 + 128) as u8;
        let pre2 = pre.push(b);
        assert(data[pre.len() as int] == b);
        assert(data =~= pre2 + vbyte_encoding(v / 128) + rest);
        lemma_vbyte_scan_encoding(v / 128, pre2, rest, acc + (b - 128) * w, w * 128);
        assert(acc + (b - 128) * w + (v / 128) * (w * 128) == acc + v * w) by (nonlinear_arith)
            requires
                b - 128 == v % 128,
                v == (v / 128) * 128 + v % 128,
        ;
    }
}

proof fn lemma_vbyte_encoding_shape(v: nat, k: nat)
    requires
        k >= 1,
        v < pow128(k),
    ensures
        vbyte_encoding(v).len() <= k,
        vbyte_encoding(v).len() >= 1,
        vbyte_encoding(v).last() < 128,
        forall|j: int| 0 <= j < vbyte_encoding(v).len() - 1 ==> vbyte_encoding(v)[j] >= 128,
    decreases v,
{
    if v >= 128 {
        let km = (k - 1) as nat;
        assert(km >= 1) by {
            if km == 0 {
                assert(pow128(1) == 128 * pow128(0));
            }
        }
        assert(v / 128 < pow128(km)) by (nonlinear_arith)
            requires
                v < 128 * pow128(km),
                v >= 0,
        ;
        lemma_vbyte_encoding_shape(v / 128, km);
        let e = vbyte_encoding(v);
        let t = vbyte_encoding(v / 128);
        assert(e == seq![(v % 128 + 128) as u8] + t);
        assert forall|j: int| 0 <= j < e.len() - 1 implies e[j] >= 128 by {
            if j > 0 {
                assert(e[j] == t[j - 1]);
            }
        }
    }
}

/// VByte round trip: decoding the encoding of `v`, whatever follows it,
/// gives back `v` and consumes exactly the encoded bytes, which number at
/// most five.
pub proof fn lemma_vbyte_roundtrip(v: u32, rest: Seq<u8>)
    ensures
        vbyte_encoding(v as nat).len() <= 5,
        vbyte_decodable(vbyte_encoding(v as nat) + rest),
        vbyte_decoding(vbyte_encoding(v as nat) + rest) == (
            v as int,
            vbyte_encoding(v as nat).len(),
        ),
{
    reveal_with_fuel(pow128, 6);
    lemma_vbyte_encoding_shape(v as nat, 5);
    let e = vbyte_encoding(v as nat);
    let data = e + rest;
    let empty = Seq::<u8>::empty();
    assert(empty + e + rest =~= data);
    lemma_vbyte_scan_encoding(v as nat, empty, rest, 0, 1);
    if data.len() > 5 {
        assert(data[e.len() - 1] == e.last());
    }
}

// ── ZigZag ──────────────────────────────────────────────────────────────────

/// ZigZag mapping of a signed integer: 0 → 0, -1 → 1, 1 → 2, -2 → 3, ...
pub open spec fn zigzag_encoding(v: int) -> int {
    if v >= 0 {
        2 * v
    } else {
        -2 * v - 1
    }
}

/// Inverse ZigZag mapping: even numbers to the non-negative integers, odd
/// numbers to the negative ones.
pub open spec fn zigzag_decoding(u: int) -> int {
    if u % 2 == 0 {
        u / 2
    } else {
        -(u / 2) - 1
    }
}

/// ZigZag encode: maps signed integers to unsigned so that small-magnitude
/// values (positive or negative) produce small unsigned values.
///
/// 0 → 0, -1 → 1, 1 → 2, -2 → 3, 2 → 4, ...
pub fn encode_zigzag(value: i32) -> (res: u32)
    ensures
        res as int == zigzag_encoding(value as int),
{
    let r = ((value << 1) ^ (value >> 31)) as u32;
    assert(value >= 0 ==> ((value << 1) ^ (value >> 31)) as u32 == (2 * value) as u32)
        by (bit_vector);
    assert(value < 0 ==> ((value << 1) ^ (value >> 31)) as u32 == (-2 * value - 1) as u32)
        by (bit_vector);
    r
}

/// ZigZag decode: inverse of `encode_zigzag`.
pub fn decode_zigzag(value: u32) -> (res: i32)
    ensures
        res as int == zigzag_decoding(value as int),
{
    assert(value & 1 == value % 2) by (bit_vector);
    assert(value >> 1 == value / 2) by (bit_vector);
    let half = (value >> 1) as i32;
    let bit = (value & 1) as i32;
    let sign = -bit;
    assert((half ^ sign) as int == (if value % 2 == 0 { half as int } else { -half - 1 })) by (bit_vector)
        requires
            half == (value >> 1) as i32,
            sign == -((value & 1) as i32),
            0 <= half,
    ;
    half ^ sign
}

/// ZigZag round trip on signed values: decoding the encoding of any `i32`
/// gives it back, and the encoding fits in a `u32`.
pub proof fn lemma_zigzag_roundtrip(v: i32)
    ensures
        0 <= zigzag_encoding(v as int) <= u32::MAX,
        zigzag_decoding(zigzag_encoding(v as int)) == v,
{
}

/// ZigZag round trip on unsigned values: every `u32` is the encoding of the
/// `i32` it decodes to.
pub proof fn lemma_zigzag_inverse(u: u32)
    ensures
        i32::MIN <= zigzag_decoding(u as int) <= i32::MAX,
        zigzag_encoding(zigzag_decoding(u as int)) == u,
{
}

// ── Bit packing ─────────────────────────────────────────────────────────────

/// Byte `i` of `data`, or zero outside of it.
pub open spec fn byte_or_zero(data: Seq<u8>, i: int) -> int {
    if 0 <= i < data.len() {
        data[i] as int
    } else {
        0
    }
}

/// The 24 bits of `data` that start at byte `p`, read little-endian.
pub open spec fn window24(data: Seq<u8>, p: int) -> int {
    byte_or_zero(data, p) + 256 * byte_or_zero(data, p + 1) + 65536 * byte_or_zero(data, p + 2)
}

/// The unsigned field of `bit_width` bits (at most 16) that starts at bit
/// `bit_offset` of `data`, where the bytes of `data` form one little-endian
/// bit stream.
pub open spec fn bit_field(data: Seq<u8>, bit_offset: nat, bit_width: nat) -> int {
    (window24(data, (bit_offset / 8) as int) / pow2(bit_offset % 8) as int) % pow2(
        bit_width,
    ) as int
}

/// The bytes that a field of `bit_width` bits at `bit_offset` touches all lie
/// within a buffer of `len` bytes.
pub open spec fn bits_in_bounds(len: nat, bit_offset: nat, bit_width: nat) -> bool {
    bit_width == 0 || {
        let p = bit_offset / 8;
        let bp = bit_offset % 8;
        &&& p < len
        &&& bp + bit_width > 8 ==> p + 1 < len
        &&& bp + bit_width > 16 ==> p + 2 < len
    }
}

/// `data` after OR-ing `value`, shifted to bit `bit_offset`, into the bytes
/// that a field of `bit_width` bits at that offset touches.
pub open spec fn packed(data: Seq<u8>, bit_offset: nat, value: nat, bit_width: nat) -> Seq<u8> {
    if bit_width == 0 {
        data
    } else {
        let p = (bit_offset / 8) as int;
        let bp = bit_offset % 8;
        let shifted = value * pow2(bp);
        let d1 = data.update(p, data[p] | (shifted % 256) as u8);
        let d2 = if bp + bit_width > 8 {
            d1.update(p + 1, d1[p + 1] | ((shifted / 256) % 256) as u8)
        } else {
            d1
        };
        if bp + bit_width > 16 {
            d2.update(p + 2, d2[p + 2] | ((shifted / 65536) % 256) as u8)
        } else {
            d2
        }
    }
}

/// The mask of the `w` low bits of a 32-bit word.
pub open spec fn low_mask(w: u32) -> u32 {
    ((1u32 << w) - 1) as u32
}

proof fn lemma_pow2_small(n: nat)
    requires
        n <= 31,
    ensures
        (1u32 << n as u32) as int == pow2(n),
        low_bits_mask(n) as u32 == low_mask(n as u32),
        pow2(n) <= 0x8000_0000,
{
    lemma2_to64();
    lemma_u32_pow2_no_overflow(n);
    lemma_u32_shl_is_mul(1, n as u32);
    if n < 31 {
        lemma_pow2_strictly_increases(n, 31);
    }
}

/// The field of `w` bits at bit `bp` of the 24-bit word made of `b0`, `b1`
/// and `b2`, read with the shift-and-mask of the code.
proof fn lemma_field_of_word(b0: u32, b1: u32, b2: u32, bp: u32, w: u32)
    requires
        b0 < 256,
        b1 < 256,
        b2 < 256,
        bp < 8,
        w <= 16,
    ensures
        (((b0 | (b1 << 8) | (b2 << 16)) >> bp) & low_mask(w)) as int == ((b0 + 256 * b1
            + 65536 * b2) / pow2(bp as nat) as int) % pow2(w as nat) as int,
{
    let word = b0 | (b1 << 8) | (b2 << 16);
    assert(word == b0 + 256 * b1 + 65536 * b2) by (bit_vector)
        requires
            b0 < 256,
            b1 < 256,
            b2 < 256,
            word == b0 | (b1 << 8) | (b2 << 16),
    ;
    lemma_u32_shr_is_div(word, bp);
    lemma_pow2_small(w as nat);
    lemma_u32_low_bits_mask_is_mod(word >> bp, w as nat);
    lemma_pow2_pos(bp as nat);
    lemma_pow2_pos(w as nat);
}

/// Extract `bit_width` bits from a packed buffer at the given bit offset.
///
/// Supports bit_width 0..=16. Returns the extracted value as u16.
pub fn extract_bits(data: &[u8], bit_offset: usize, bit_width: u8) -> (res: u16)
    requires
        bit_width <= 16,
        bits_in_bounds(data@.len(), bit_offset as nat, bit_width as nat),
    ensures
        res as int == bit_field(data@, bit_offset as nat, bit_width as nat),
{
    if bit_width == 0 {
        proof {
            lemma2_to64();
        }
        return 0;
    }
    let byte_pos = bit_offset / 8;
    let bit_pos = (bit_offset % 8) as u32;
    let w = bit_width as u32;
    let b0 = data[byte_pos] as u32;
    let ghost b1 = byte_or_zero(data@, byte_pos + 1) as u32;
    let ghost b2 = byte_or_zero(data@, byte_pos + 2) as u32;
    let mut val: u32 = b0;
    if bit_pos + w > 8 {
        val = val | ((data[byte_pos + 1] as u32) << 8);
    }
    if bit_pos + w > 16 {
        val = val | ((data[byte_pos + 2] as u32) << 16);
    }
    assert(1u32 << w >= 1) by (bit_vector)
        requires
            w <= 16,
    ;
    let mask = (1u32 << w) - 1;
    assert(mask == low_mask(w));
    let res32 = (val >> bit_pos) & mask;
    proof {
        assert(((val >> bit_pos) & low_mask(w)) == (((b0 | (b1 << 8) | (b2 << 16))
            >> bit_pos) & low_mask(w))) by (bit_vector)
            requires
                b0 < 256,
                b1 < 256,
                b2 < 256,
                bit_pos < 8,
                1 <= w <= 16,
                bit_pos + w > 8 ==> bit_pos + w > 16 ==> val == b0 | (b1 << 8) | (b2 << 16),
                bit_pos + w > 8 ==> bit_pos + w <= 16 ==> val == b0 | (b1 << 8),
                bit_pos + w <= 8 ==> val == b0,
        ;
        lemma_field_of_word(b0, b1, b2, bit_pos, w);
        lemma_pow2_small(w as nat);
        assert(res32 < 65536) by (bit_vector)
            requires
                res32 == (val >> bit_pos) & low_mask(w),
                w <= 16,
        ;
    }
    res32 as u16
}

/// Pack `bit_width` bits of `value` into the buffer at the given bit offset.
///
/// Assumes the target bits in `data` are already zeroed.
pub fn pack_bits(data: &mut [u8], bit_offset: usize, value: u16, bit_width: u8)
    requires
        bit_width <= 16,
        bits_in_bounds(old(data)@.len(), bit_offset as nat, bit_width as nat),
    ensures
        final(data)@ == packed(old(data)@, bit_offset as nat, value as nat, bit_width as nat),
{
    if bit_width == 0 {
        return ;
    }
    let byte_pos = bit_offset / 8;
    let bit_pos = (bit_offset % 8) as u32;
    let w = bit_width as u32;
    proof {
        lemma_pow2_small(bit_pos as nat);
        assert((value as u32) << bit_pos == value * pow2(bit_pos as nat)) by {
            lemma2_to64();
            assert(value * pow2(bit_pos as nat) <= u32::MAX) by (nonlinear_arith)
                requires
                    value < 65536,
                    pow2(bit_pos as nat) <= 128,
            ;
            lemma_u32_shl_is_mul(value as u32, bit_pos);
        }
    }
    let val = (value as u32) << bit_pos;
    assert(val as u8 == (val % 256) as u8) by (bit_vector);
    assert((val >> 8) as u8 == ((val / 256) % 256) as u8) by (bit_vector);
    assert((val >> 16) as u8 == ((val / 65536) % 256) as u8) by (bit_vector);
    data[byte_pos] = data[byte_pos] | (val as u8);
    if bit_pos + w > 8 {
        data[byte_pos + 1] = data[byte_pos + 1] | ((val >> 8) as u8);
    }
    if bit_pos + w > 16 {
        data[byte_pos + 2] = data[byte_pos + 2] | ((val >> 16) as u8);
    }
}

/// Packing then extracting: when the field of `bit_width` bits at
/// `bit_offset` is zero and `value` fits in `bit_width` bits, the field reads
/// back as `value` after `value` is packed into it.
pub proof fn lemma_pack_extract_roundtrip(
    data: Seq<u8>,
    bit_offset: nat,
    value: nat,
    bit_width: nat,
)
    requires
        bit_width <= 16,
        bits_in_bounds(data.len(), bit_offset, bit_width),
        value < pow2(bit_width),
        bit_field(data, bit_offset, bit_width) == 0,
    ensures
        packed(data, bit_offset, value, bit_width).len() == data.len(),
        bit_field(packed(data, bit_offset, value, bit_width), bit_offset, bit_width) == value,
{
    lemma2_to64();
    if bit_width == 0 {
        return ;
    }
    let p = (bit_offset / 8) as int;
    let bp = (bit_offset % 8) as u32;
    let w = bit_width as u32;
    let v = value as u32;
    lemma_pow2_small(bp as nat);
    lemma_pow2_small(w as nat);
    assert(v * pow2(bp as nat) <= u32::MAX) by (nonlinear_arith)
        requires
            v < 65536,
            pow2(bp as nat) <= 128,
    ;
    lemma_u32_shl_is_mul(v, bp);
    let val = v << bp;
    let b0 = byte_or_zero(data, p) as u32;
    let b1 = byte_or_zero(data, p + 1) as u32;
    let b2 = byte_or_zero(data, p + 2) as u32;
    let nd = packed(data, bit_offset, value, bit_width);
    let n0 = byte_or_zero(nd, p) as u32;
    let n1 = byte_or_zero(nd, p + 1) as u32;
    let n2 = byte_or_zero(nd, p + 2) as u32;
    assert(val as u8 == (val % 256) as u8) by (bit_vector);
    assert((val >> 8) as u8 == ((val / 256) % 256) as u8) by (bit_vector);
    assert((val >> 16) as u8 == ((val / 65536) % 256) as u8) by (bit_vector);
    assert(n0 == b0 | (val & 0xff)) by {
        assert(((b0 as u8) | (val as u8)) as u32 == b0 | (val & 0xff)) by (bit_vector)
            requires
                b0 < 256,
        ;
    }
    assert(n1 == if bp + w > 8 { b1 | ((val >> 8) & 0xff) } else { b1 }) by {
        assert(((b1 as u8) | ((val >> 8) as u8)) as u32 == b1 | ((val >> 8) & 0xff))
            by (bit_vector)
            requires
                b1 < 256,
        ;
    }
    assert(n2 == if bp + w > 16 { b2 | ((val >> 16) & 0xff) } else { b2 }) by {
        assert(((b2 as u8) | ((val >> 16) as u8)) as u32 == b2 | ((val >> 16) & 0xff))
            by (bit_vector)
            requires
                b2 < 256,
        ;
    }
    lemma_field_of_word(b0, b1, b2, bp, w);
    lemma_field_of_word(n0, n1, n2, bp, w);
    assert((((n0 | (n1 << 8) | (n2 << 16)) >> bp) & low_mask(w)) == v) by (bit_vector)
        requires
            b0 < 256,
            b1 < 256,
            b2 < 256,
            bp < 8,
            1 <= w <= 16,
            v < (1u32 << w),
            val == v << bp,
            (((b0 | (b1 << 8) | (b2 << 16)) >> bp) & low_mask(w)) == 0,
            n0 == b0 | (val & 0xff),
            n1 == if bp + w > 8 { b1 | ((val >> 8) & 0xff) } else { b1 },
            n2 == if bp + w > 16 { b2 | ((val >> 16) & 0xff) } else { b2 },
    ;
}

/// Compute the minimum number of bits needed to represent values in range [0, max_val].
pub fn bits_needed(max_val: u16) -> (res: u8)
    ensures
        res <= 16,
        (max_val as int) < pow2(res as nat),
        res > 0 ==> max_val as int >= pow2((res - 1) as nat),
{
    if max_val == 0 {
        proof {
            lemma2_to64();
        }
        return 0;
    }
    let lz = max_val.leading_zeros();
    proof {
        axiom_u16_leading_zeros(max_val);
    }
    let res = 16 - lz as u8;
    proof {
        let b = res as u32;
        let m = max_val as u32;
        let hi = b as u16;
        let top = (b - 1) as u16;
        assert(max_val >> hi == 0);
        assert((max_val >> top) & 1u16 != 0u16);
        assert(m < (1u32 << b) && m >= (1u32 << (b - 1) as u32)) by (bit_vector)
            requires
                1 <= b <= 16,
                hi == b as u16,
                top == (b - 1) as u16,
                (max_val >> hi) == 0,
                (max_val >> top) & 1u16 != 0u16,
                m == max_val as u32,
        ;
        lemma_pow2_small(b as nat);
        lemma_pow2_small((b - 1) as nat);
    }
    res
}

} // verus!
