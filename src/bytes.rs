use vstd::prelude::*;

verus! {

/// Unsigned value of two little-endian bytes at `off`.
pub open spec fn u16_le_at(b: Seq<u8>, off: int) -> int {
    b[off] as int + 256 * b[off + 1] as int
}

/// Unsigned value of four little-endian bytes at `off`.
pub open spec fn u32_le_at(b: Seq<u8>, off: int) -> int {
    u16_le_at(b, off) + 65536 * u16_le_at(b, off + 2)
}

/// Unsigned value of two big-endian bytes at `off`.
pub open spec fn u16_be_at(b: Seq<u8>, off: int) -> int {
    256 * b[off] as int + b[off + 1] as int
}

/// Unsigned value of four big-endian bytes at `off`.
pub open spec fn u32_be_at(b: Seq<u8>, off: int) -> int {
    65536 * u16_be_at(b, off) + u16_be_at(b, off + 2)
}

/// Two's-complement reading of a 16-bit unsigned value.
pub open spec fn signed16(v: int) -> int {
    if v >= 0x8000 {
        v - 0x1_0000
    } else {
        v
    }
}

/// Two's-complement reading of a 32-bit unsigned value.
pub open spec fn signed32(v: int) -> int {
    if v >= 0x8000_0000 {
        v - 0x1_0000_0000
    } else {
        v
    }
}

/// The two little-endian bytes of an unsigned 16-bit value.
pub open spec fn le16(v: nat) -> Seq<u8> {
    seq![(v % 256) as u8, ((v / 256) % 256) as u8]
}

/// The four little-endian bytes of an unsigned 32-bit value.
pub open spec fn le32(v: nat) -> Seq<u8> {
    le16(v % 0x1_0000) + le16(v / 0x1_0000)
}

/// The eight little-endian bytes of an unsigned 64-bit value.
pub open spec fn le64(v: nat) -> Seq<u8> {
    le32(v % 0x1_0000_0000) + le32(v / 0x1_0000_0000)
}

/// Two's-complement bit pattern of a signed value, modulo `modulus`.
pub open spec fn unsigned_of(v: int, modulus: int) -> nat {
    if v < 0 {
        (v + modulus) as nat
    } else {
        v as nat
    }
}

pub fn read_u16_le(data: &[u8], offset: usize) -> (r: Option<u16>)
    ensures
        offset + 2 <= data@.len() ==> r == Some(u16_le_at(data@, offset as int) as u16),
        offset + 2 > data@.len() ==> r is None,
{
    if offset > data.len() || data.len() - offset < 2 {
        return None;
    }
    Some(data[offset] as u16 + 256 * (data[offset + 1] as u16))
}

pub fn read_i16_le(data: &[u8], offset: usize) -> (r: Option<i16>)
    ensures
        offset + 2 <= data@.len() ==> r == Some(signed16(u16_le_at(data@, offset as int)) as i16),
        offset + 2 > data@.len() ==> r is None,
{
    match read_u16_le(data, offset) {
        Some(v) => Some(to_i16(v)),
        None => None,
    }
}

pub fn read_u32_le(data: &[u8], offset: usize) -> (r: Option<u32>)
    ensures
        offset + 4 <= data@.len() ==> r == Some(u32_le_at(data@, offset as int) as u32),
        offset + 4 > data@.len() ==> r is None,
{
    if offset > data.len() || data.len() - offset < 4 {
        return None;
    }
    let lo = data[offset] as u32 + 256 * (data[offset + 1] as u32);
    let hi = data[offset + 2] as u32 + 256 * (data[offset + 3] as u32);
    Some(lo + 65536 * hi)
}

pub fn read_i32_le(data: &[u8], offset: usize) -> (r: Option<i32>)
    ensures
        offset + 4 <= data@.len() ==> r == Some(signed32(u32_le_at(data@, offset as int)) as i32),
        offset + 4 > data@.len() ==> r is None,
{
    match read_u32_le(data, offset) {
        Some(v) => Some(to_i32(v)),
        None => None,
    }
}

pub fn read_u16_be(data: &[u8], offset: usize) -> (r: Option<u16>)
    ensures
        offset + 2 <= data@.len() ==> r == Some(u16_be_at(data@, offset as int) as u16),
        offset + 2 > data@.len() ==> r is None,
{
    if offset > data.len() || data.len() - offset < 2 {
        return None;
    }
    Some(256 * (data[offset] as u16) + data[offset + 1] as u16)
}

pub fn read_i16_be(data: &[u8], offset: usize) -> (r: Option<i16>)
    ensures
        offset + 2 <= data@.len() ==> r == Some(signed16(u16_be_at(data@, offset as int)) as i16),
        offset + 2 > data@.len() ==> r is None,
{
    match read_u16_be(data, offset) {
        Some(v) => Some(to_i16(v)),
        None => None,
    }
}

pub fn read_u32_be(data: &[u8], offset: usize) -> (r: Option<u32>)
    ensures
        offset + 4 <= data@.len() ==> r == Some(u32_be_at(data@, offset as int) as u32),
        offset + 4 > data@.len() ==> r is None,
{
    if offset > data.len() || data.len() - offset < 4 {
        return None;
    }
    let hi = 256 * (data[offset] as u32) + data[offset + 1] as u32;
    let lo = 256 * (data[offset + 2] as u32) + data[offset + 3] as u32;
    Some(65536 * hi + lo)
}

pub fn to_i16(v: u16) -> (r: i16)
    ensures
        r as int == signed16(v as int),
{
    if v >= 0x8000 {
        (v as i32 - 0x1_0000) as i16
    } else {
        v as i16
    }
}

pub fn to_i32(v: u32) -> (r: i32)
    ensures
        r as int == signed32(v as int),
{
    if v >= 0x8000_0000 {
        (v as i64 - 0x1_0000_0000) as i32
    } else {
        v as i32
    }
}

pub fn push_u16_le(out: &mut Vec<u8>, v: u16)
    ensures
        final(out)@ == old(out)@ + le16(v as nat),
{
    out.push((v % 256) as u8);
    out.push((v / 256) as u8);
}

pub fn push_u32_le(out: &mut Vec<u8>, v: u32)
    ensures
        final(out)@ == old(out)@ + le32(v as nat),
{
    push_u16_le(out, (v % 0x1_0000) as u16);
    push_u16_le(out, (v / 0x1_0000) as u16);
    assert(final(out)@ =~= old(out)@ + le32(v as nat));
}

pub fn push_u64_le(out: &mut Vec<u8>, v: u64)
    ensures
        final(out)@ == old(out)@ + le64(v as nat),
{
    push_u32_le(out, (v % 0x1_0000_0000) as u32);
    push_u32_le(out, (v / 0x1_0000_0000) as u32);
    assert(final(out)@ =~= old(out)@ + le64(v as nat));
}

pub fn push_i16_le(out: &mut Vec<u8>, v: i16)
    ensures
        final(out)@ == old(out)@ + le16(unsigned_of(v as int, 0x1_0000)),
{
    let u: u16 = if v < 0 {
        (v as i32 + 0x1_0000) as u16
    } else {
        v as u16
    };
    push_u16_le(out, u);
}

pub fn push_i32_le(out: &mut Vec<u8>, v: i32)
    ensures
        final(out)@ == old(out)@ + le32(unsigned_of(v as int, 0x1_0000_0000)),
{
    let u: u32 = if v < 0 {
        (v as i64 + 0x1_0000_0000) as u32
    } else {
        v as u32
    };
    push_u32_le(out, u);
}

pub fn push_i64_le(out: &mut Vec<u8>, v: i64)
    ensures
        final(out)@ == old(out)@ + le64(unsigned_of(v as int, 0x1_0000_0000_0000_0000)),
{
    let u: u64 = if v < 0 {
        (v as i128 + 0x1_0000_0000_0000_0000) as u64
    } else {
        v as u64
    };
    push_u64_le(out, u);
}

} // verus!
