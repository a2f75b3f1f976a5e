//! Little-endian primitives and tile-grid arithmetic shared by the reader
//! and the writer.
use vstd::prelude::*;

use crate::error::Error;
use core::ops::Range;

verus! {

/// Size in bytes of one directory entry.
pub const ENTRY_LEN: u64 = 20;

pub const TAG_WIDTH: u16 = 256;
pub const TAG_HEIGHT: u16 = 257;
pub const TAG_BITS: u16 = 258;
pub const TAG_CODEC: u16 = 259;
pub const TAG_COLOR: u16 = 262;
pub const TAG_CHANNELS: u16 = 277;
pub const TAG_INTERLEAVE: u16 = 284;
pub const TAG_TILE_WIDTH: u16 = 322;
pub const TAG_TILE_HEIGHT: u16 = 323;
pub const TAG_TILE_OFFSETS: u16 = 324;
pub const TAG_TILE_COUNTS: u16 = 325;
pub const TAG_YCBCR_SUBSAMPLING: u16 = 530;

pub const TYPE_U16: u16 = 3;
pub const TYPE_U32: u16 = 4;
pub const TYPE_U64: u16 = 16;

/// The little-endian `u16` stored at `o`.
pub open spec fn le_u16(b: Seq<u8>, o: int) -> int {
    b[o] as int + b[o + 1] as int * 256
}

/// The little-endian `u32` stored at `o`.
pub open spec fn le_u32(b: Seq<u8>, o: int) -> int {
    le_u16(b, o) + le_u16(b, o + 2) * 0x1_0000
}

/// The little-endian `u64` stored at `o`.
pub open spec fn le_u64(b: Seq<u8>, o: int) -> int {
    le_u32(b, o) + le_u32(b, o + 4) * 0x1_0000_0000
}

/// The little-endian encoding of a `u16`.
pub open spec fn u16_bytes(v: u16) -> Seq<u8> {
    seq![(v % 256) as u8, (v / 256) as u8]
}

/// The little-endian encoding of a `u32`.
pub open spec fn u32_bytes(v: u32) -> Seq<u8> {
    u16_bytes((v % 0x1_0000) as u16) + u16_bytes((v / 0x1_0000) as u16)
}

/// The little-endian encoding of a `u64`.
pub open spec fn u64_bytes(v: u64) -> Seq<u8> {
    u32_bytes((v % 0x1_0000_0000) as u32) + u32_bytes((v / 0x1_0000_0000) as u32)
}

/// `ceil(a / b)` for a positive divisor.
pub open spec fn div_ceil(a: int, b: int) -> int {
    (a + b - 1) / b
}

pub proof fn lemma_le_u16_bounds(b: Seq<u8>, o: int)
    requires
        0 <= o,
        o + 2 <= b.len(),
    ensures
        0 <= le_u16(b, o) <= u16::MAX,
{
}

pub proof fn lemma_le_u32_bounds(b: Seq<u8>, o: int)
    requires
        0 <= o,
        o + 4 <= b.len(),
    ensures
        0 <= le_u32(b, o) <= u32::MAX,
{
    lemma_le_u16_bounds(b, o);
    lemma_le_u16_bounds(b, o + 2);
}

pub proof fn lemma_le_u64_bounds(b: Seq<u8>, o: int)
    requires
        0 <= o,
        o + 8 <= b.len(),
    ensures
        0 <= le_u64(b, o) <= u64::MAX,
{
    lemma_le_u32_bounds(b, o);
    lemma_le_u32_bounds(b, o + 4);
}

/// Reading back an encoded `u16` gives the value that was encoded.
pub proof fn lemma_u16_roundtrip(v: u16, prefix: Seq<u8>, suffix: Seq<u8>)
    ensures
        u16_bytes(v).len() == 2,
        le_u16(prefix + u16_bytes(v) + suffix, prefix.len() as int) == v,
{
    let s = prefix + u16_bytes(v) + suffix;
    assert(s[prefix.len() as int] == (v % 256) as u8);
    assert(s[prefix.len() + 1int] == (v / 256) as u8);
}

/// Reading back an encoded `u32` gives the value that was encoded.
pub proof fn lemma_u32_roundtrip(v: u32, prefix: Seq<u8>, suffix: Seq<u8>)
    ensures
        u32_bytes(v).len() == 4,
        le_u32(prefix + u32_bytes(v) + suffix, prefix.len() as int) == v,
{
    let lo = (v % 0x1_0000) as u16;
    let hi = (v / 0x1_0000) as u16;
    lemma_u16_roundtrip(lo, prefix, u16_bytes(hi) + suffix);
    lemma_u16_roundtrip(hi, prefix + u16_bytes(lo), suffix);
    assert(prefix + u32_bytes(v) + suffix == prefix + u16_bytes(lo) + (u16_bytes(hi) + suffix));
    assert(prefix + u32_bytes(v) + suffix == (prefix + u16_bytes(lo)) + u16_bytes(hi) + suffix);
}

/// Reading back an encoded `u64` gives the value that was encoded.
pub proof fn lemma_u64_roundtrip(v: u64, prefix: Seq<u8>, suffix: Seq<u8>)
    ensures
        u64_bytes(v).len() == 8,
        le_u64(prefix + u64_bytes(v) + suffix, prefix.len() as int) == v,
{
    let lo = (v % 0x1_0000_0000) as u32;
    let hi = (v / 0x1_0000_0000) as u32;
    lemma_u32_roundtrip(lo, prefix, u32_bytes(hi) + suffix);
    lemma_u32_roundtrip(hi, prefix + u32_bytes(lo), suffix);
    assert(prefix + u64_bytes(v) + suffix == prefix + u32_bytes(lo) + (u32_bytes(hi) + suffix));
    assert(prefix + u64_bytes(v) + suffix == (prefix + u32_bytes(lo)) + u32_bytes(hi) + suffix);
}

/// Reads a little-endian `u16` at `offset`.
pub fn read_u16(bytes: &[u8], offset: usize) -> (r: Result<u16, Error>)
    ensures
        r is Ok <==> offset + 2 <= bytes@.len(),
        r matches Ok(v) ==> v == le_u16(bytes@, offset as int),
        r matches Err(e) ==> e == Error::MalformedFile("unexpected end of data"),
{
    if offset > bytes.len() || bytes.len() - offset < 2 {
        return Err(Error::MalformedFile("unexpected end of data"));
    }
    Ok(bytes[offset] as u16 + (bytes[offset + 1] as u16) * 256)
}

/// Reads a little-endian `u32` at `offset`.
pub fn read_u32(bytes: &[u8], offset: usize) -> (r: Result<u32, Error>)
    ensures
        r is Ok <==> offset + 4 <= bytes@.len(),
        r matches Ok(v) ==> v == le_u32(bytes@, offset as int),
        r matches Err(e) ==> e == Error::MalformedFile("unexpected end of data"),
{
    if offset > bytes.len() || bytes.len() - offset < 4 {
        return Err(Error::MalformedFile("unexpected end of data"));
    }
    let lo = bytes[offset] as u32 + (bytes[offset + 1] as u32) * 256;
    let hi = bytes[offset + 2] as u32 + (bytes[offset + 3] as u32) * 256;
    Ok(lo + hi * 0x1_0000)
}

/// Reads a little-endian `u64` at `offset`.
pub fn read_u64(bytes: &[u8], offset: usize) -> (r: Result<u64, Error>)
    ensures
        r is Ok <==> offset + 8 <= bytes@.len(),
        r matches Ok(v) ==> v == le_u64(bytes@, offset as int),
        r matches Err(e) ==> e == Error::MalformedFile("unexpected end of data"),
{
    if offset > bytes.len() || bytes.len() - offset < 8 {
        return Err(Error::MalformedFile("unexpected end of data"));
    }
    let lo = match read_u32(bytes, offset) {
        Ok(v) => v,
        Err(e) => return Err(e),
    };
    let hi = match read_u32(bytes, offset + 4) {
        Ok(v) => v,
        Err(e) => return Err(e),
    };
    Ok(lo as u64 + (hi as u64) * 0x1_0000_0000)
}

/// Appends the little-endian encoding of `value`.
pub fn push_u16(out: &mut Vec<u8>, value: u16)
    ensures
        final(out)@ == old(out)@ + u16_bytes(value),
{
    out.push((value % 256) as u8);
    out.push((value / 256) as u8);
    assert(final(out)@ == old(out)@ + u16_bytes(value));
}

/// Appends the little-endian encoding of `value`.
pub fn push_u32(out: &mut Vec<u8>, value: u32)
    ensures
        final(out)@ == old(out)@ + u32_bytes(value),
{
    push_u16(out, (value % 0x1_0000) as u16);
    push_u16(out, (value / 0x1_0000) as u16);
    assert(final(out)@ == old(out)@ + u32_bytes(value));
}

/// Appends the little-endian encoding of `value`.
pub fn push_u64(out: &mut Vec<u8>, value: u64)
    ensures
        final(out)@ == old(out)@ + u64_bytes(value),
{
    push_u32(out, (value % 0x1_0000_0000) as u32);
    push_u32(out, (value / 0x1_0000_0000) as u32);
    assert(final(out)@ == old(out)@ + u64_bytes(value));
}

/// The half-open range of `len` bytes starting at `range_start`.
pub fn checked_len(range_start: u64, len: usize) -> (r: Result<Range<u64>, Error>)
    ensures
        r is Ok <==> range_start + len <= u64::MAX,
        r matches Ok(range) ==> range.start == range_start && range.end == range_start + len,
        r matches Err(e) ==> e is InvalidInput,
{
    let len = len as u64;
    if range_start > u64::MAX - len {
        return Err(Error::InvalidInput("range end overflows u64"));
    }
    Ok(range_start..range_start + len)
}

pub proof fn lemma_div_ceil(a: int, b: int)
    requires
        0 <= a,
        0 < b,
    ensures
        div_ceil(a, b) == a / b + (if a % b != 0 { 1int } else { 0int }),
        0 <= div_ceil(a, b) <= a,
        div_ceil(a, b) * b >= a,
        (div_ceil(a, b) - 1) * b < a,
{
    let q = a / b;
    let r = a % b;
    assert(a == q * b + r && 0 <= r < b) by (nonlinear_arith)
        requires 0 <= a, 0 < b, q == a / b, r == a % b;
    if r == 0 {
        assert((a + b - 1) / b == q) by (nonlinear_arith)
            requires a == q * b, 0 < b, 0 <= q;
    } else {
        assert((a + b - 1) / b == q + 1) by (nonlinear_arith)
            requires a == q * b + r, 0 < r < b, 0 <= q;
    }
    assert(q <= a) by (nonlinear_arith)
        requires a == q * b + r, 0 <= r < b, 0 <= q, 0 < b;
    assert(q + 1 <= a || r == 0) by (nonlinear_arith)
        requires a == q * b + r, 0 <= r < b, 0 <= q, 0 < b;
    assert(div_ceil(a, b) * b >= a && (div_ceil(a, b) - 1) * b < a) by (nonlinear_arith)
        requires a == q * b + r, 0 <= r < b, 0 <= q, 0 < b,
            div_ceil(a, b) == q + (if r != 0 { 1int } else { 0int });
}

/// `ceil(a / b)`, failing on a zero divisor.
pub fn ceil_div(a: u64, b: u64) -> (r: Result<u64, Error>)
    ensures
        r is Ok <==> b != 0,
        r matches Ok(v) ==> v == div_ceil(a as int, b as int),
        r matches Err(e) ==> e == Error::InvalidInput("division by zero"),
{
    if b == 0 {
        return Err(Error::InvalidInput("division by zero"));
    }
    proof {
        lemma_div_ceil(a as int, b as int);
    }
    Ok(a / b + if a % b != 0 { 1 } else { 0 })
}

/// The tile grid `(across, down, count)` of a `width x height` image cut into
/// `tile_width x tile_height` tiles.
pub open spec fn spec_tile_grid(width: int, height: int, tile_width: int, tile_height: int) -> (int, int, int) {
    let across = div_ceil(width, tile_width);
    let down = div_ceil(height, tile_height);
    (across, down, across * down)
}

/// Computes `(tiles_across, tiles_down, tile_count)` for a level.
pub fn tile_count(width: u64, height: u64, tile_width: u64, tile_height: u64) -> (r: Result<(u64, u64, u64), Error>)
    ensures
        r is Ok <==> tile_width != 0 && tile_height != 0
            && spec_tile_grid(width as int, height as int, tile_width as int, tile_height as int).2 <= u64::MAX,
        r matches Ok(t) ==> t.0 == spec_tile_grid(width as int, height as int, tile_width as int, tile_height as int).0
            && t.1 == spec_tile_grid(width as int, height as int, tile_width as int, tile_height as int).1
            && t.2 == spec_tile_grid(width as int, height as int, tile_width as int, tile_height as int).2,
        r matches Err(e) ==> (e is InvalidInput <==> (tile_width == 0 || tile_height == 0)),
        r matches Err(e) ==> (e is InvalidInput || e is MalformedFile),
{
    let across = match ceil_div(width, tile_width) {
        Ok(v) => v,
        Err(e) => return Err(e),
    };
    let down = match ceil_div(height, tile_height) {
        Ok(v) => v,
        Err(e) => return Err(e),
    };
    match across.checked_mul(down) {
        Some(count) => Ok((across, down, count)),
        None => Err(Error::MalformedFile("tile count overflows u64")),
    }
}

} // verus!
