//! Fixed-width integers in big and little endian, read from and written to
//! byte buffers.

use vstd::prelude::*;

verus! {

/// The value of two bytes read as a big-endian integer.
pub open spec fn be16(b: Seq<u8>) -> int {
    b[0] * 256 + b[1]
}

/// The value of four bytes read as a big-endian integer.
pub open spec fn be32(b: Seq<u8>) -> int {
    b[0] * 16777216 + b[1] * 65536 + b[2] * 256 + b[3]
}

/// The value of four bytes read as a little-endian integer.
pub open spec fn le32(b: Seq<u8>) -> int {
    b[3] * 16777216 + b[2] * 65536 + b[1] * 256 + b[0]
}

/// The value of eight bytes read as a big-endian integer.
pub open spec fn be64(b: Seq<u8>) -> int {
    be32(b.subrange(0, 4)) * 4294967296 + be32(b.subrange(4, 8))
}

/// The big-endian bytes of a value below 2^16.
pub open spec fn be16_bytes(v: int) -> Seq<u8> {
    seq![(v / 256) as u8, (v % 256) as u8]
}

/// The big-endian bytes of a value below 2^32.
pub open spec fn be32_bytes(v: int) -> Seq<u8> {
    seq![(v / 16777216) as u8, ((v / 65536) % 256) as u8, ((v / 256) % 256) as u8, (v % 256) as u8]
}

/// The little-endian bytes of a value below 2^32.
pub open spec fn le32_bytes(v: int) -> Seq<u8> {
    seq![(v % 256) as u8, ((v / 256) % 256) as u8, ((v / 65536) % 256) as u8, (v / 16777216) as u8]
}

/// The little-endian bytes of a value below 2^16.
pub open spec fn le16_bytes(v: int) -> Seq<u8> {
    seq![(v % 256) as u8, (v / 256) as u8]
}

/// The big-endian bytes of a value below 2^64.
pub open spec fn be64_bytes(v: int) -> Seq<u8> {
    be32_bytes(v / 4294967296) + be32_bytes(v % 4294967296)
}

/// Decoding the big-endian bytes of a 32-bit value gives the value back.
pub proof fn lemma_be32_roundtrip(v: int)
    requires
        0 <= v < 4294967296,
    ensures
        be32_bytes(v).len() == 4,
        be32(be32_bytes(v)) == v,
{
    let b = be32_bytes(v);
    assert(b[0] == v / 16777216);
    assert(b[1] == (v / 65536) % 256);
    assert(b[2] == (v / 256) % 256);
    assert(b[3] == v % 256);
    assert(v == (v / 16777216) * 16777216 + ((v / 65536) % 256) * 65536 + ((v / 256) % 256) * 256
        + v % 256) by (nonlinear_arith)
        requires
            0 <= v < 4294967296,
    ;
}

/// Decoding the big-endian bytes of a 64-bit value gives the value back.
pub proof fn lemma_be64_roundtrip(v: int)
    requires
        0 <= v < 18446744073709551616,
    ensures
        be64_bytes(v).len() == 8,
        be64(be64_bytes(v)) == v,
{
    let hi = v / 4294967296;
    let lo = v % 4294967296;
    assert(0 <= hi < 4294967296) by (nonlinear_arith)
        requires
            0 <= v < 18446744073709551616,
            hi == v / 4294967296,
    ;
    lemma_be32_roundtrip(hi);
    lemma_be32_roundtrip(lo);
    let b = be64_bytes(v);
    assert(b.subrange(0, 4) =~= be32_bytes(hi));
    assert(b.subrange(4, 8) =~= be32_bytes(lo));
    assert(v == hi * 4294967296 + lo) by (nonlinear_arith)
        requires
            hi == v / 4294967296,
            lo == v % 4294967296,
    ;
}

/// Reads one byte at `*pos`, moving past it.
///
/// Where the buffer is exhausted, `None` comes back and `*pos` is left at the
/// end of the buffer, as a cursor that fails to fill a read does.
pub fn read_u8(data: &[u8], pos: &mut usize) -> (res: Option<u8>)
    requires
        *old(pos) <= data@.len(),
    ensures
        *final(pos) <= data@.len(),
        *old(pos) < data@.len() ==> res == Some(data@[*old(pos) as int]) && *final(pos) == *old(pos) + 1,
        *old(pos) >= data@.len() ==> res is None && *final(pos) == data@.len(),
{
    if *pos < data.len() {
        let b = data[*pos];
        *pos = *pos + 1;
        Some(b)
    } else {
        *pos = data.len();
        None
    }
}

/// Reads a big-endian `u16` at `*pos`, moving past it.
pub fn read_u16_be(data: &[u8], pos: &mut usize) -> (res: Option<u16>)
    requires
        *old(pos) <= data@.len(),
    ensures
        *final(pos) <= data@.len(),
        *old(pos) + 2 <= data@.len() ==> res == Some(
            be16(data@.subrange(*old(pos) as int, *old(pos) + 2)) as u16,
        ) && *final(pos) == *old(pos) + 2,
        *old(pos) + 2 > data@.len() ==> res is None && *final(pos) == data@.len(),
{
    if data.len() - *pos >= 2 {
        let p = *pos;
        let v = (data[p] as u16) * 256 + (data[p + 1] as u16);
        *pos = p + 2;
        Some(v)
    } else {
        *pos = data.len();
        None
    }
}

/// Reads a big-endian `u32` at `*pos`, moving past it.
pub fn read_u32_be(data: &[u8], pos: &mut usize) -> (res: Option<u32>)
    requires
        *old(pos) <= data@.len(),
    ensures
        *final(pos) <= data@.len(),
        *old(pos) + 4 <= data@.len() ==> res == Some(
            be32(data@.subrange(*old(pos) as int, *old(pos) + 4)) as u32,
        ) && *final(pos) == *old(pos) + 4,
        *old(pos) + 4 > data@.len() ==> res is None && *final(pos) == data@.len(),
{
    if data.len() - *pos >= 4 {
        let p = *pos;
        let v = (data[p] as u32) * 16777216 + (data[p + 1] as u32) * 65536 + (data[p + 2] as u32)
            * 256 + (data[p + 3] as u32);
        *pos = p + 4;
        Some(v)
    } else {
        *pos = data.len();
        None
    }
}

/// Reads a little-endian `u32` at `*pos`, moving past it.
pub fn read_u32_le(data: &[u8], pos: &mut usize) -> (res: Option<u32>)
    requires
        *old(pos) <= data@.len(),
    ensures
        *final(pos) <= data@.len(),
        *old(pos) + 4 <= data@.len() ==> res == Some(
            le32(data@.subrange(*old(pos) as int, *old(pos) + 4)) as u32,
        ) && *final(pos) == *old(pos) + 4,
        *old(pos) + 4 > data@.len() ==> res is None && *final(pos) == data@.len(),
{
    if data.len() - *pos >= 4 {
        let p = *pos;
        let v = (data[p + 3] as u32) * 16777216 + (data[p + 2] as u32) * 65536 + (data[p + 1] as u32)
            * 256 + (data[p] as u32);
        *pos = p + 4;
        Some(v)
    } else {
        *pos = data.len();
        None
    }
}

/// Reads a big-endian `u64` at `*pos`, moving past it.
pub fn read_u64_be(data: &[u8], pos: &mut usize) -> (res: Option<u64>)
    requires
        *old(pos) <= data@.len(),
    ensures
        *final(pos) <= data@.len(),
        *old(pos) + 8 <= data@.len() ==> res == Some(
            be64(data@.subrange(*old(pos) as int, *old(pos) + 8)) as u64,
        ) && *final(pos) == *old(pos) + 8,
        *old(pos) + 8 > data@.len() ==> res is None && *final(pos) == data@.len(),
{
    if data.len() - *pos >= 8 {
        let p = *pos;
        let hi = (data[p] as u64) * 16777216 + (data[p + 1] as u64) * 65536 + (data[p + 2] as u64)
            * 256 + (data[p + 3] as u64);
        let lo = (data[p + 4] as u64) * 16777216 + (data[p + 5] as u64) * 65536 + (data[p + 6] as u64)
            * 256 + (data[p + 7] as u64);
        let v = hi * 4294967296 + lo;
        *pos = p + 8;
        proof {
            let s = data@.subrange(p as int, p + 8);
            assert(s.subrange(0, 4) =~= data@.subrange(p as int, p + 4));
            assert(s.subrange(4, 8) =~= data@.subrange(p + 4, p + 8));
        }
        Some(v)
    } else {
        *pos = data.len();
        None
    }
}

/// Appends the big-endian bytes of `v`.
pub fn push_u16_be(out: &mut Vec<u8>, v: u16)
    ensures
        final(out)@ == old(out)@ + be16_bytes(v as int),
{
    out.push((v / 256) as u8);
    out.push((v % 256) as u8);
}

/// Appends the little-endian bytes of `v`.
pub fn push_u16_le(out: &mut Vec<u8>, v: u16)
    ensures
        final(out)@ == old(out)@ + le16_bytes(v as int),
{
    out.push((v % 256) as u8);
    out.push((v / 256) as u8);
}

/// Appends the big-endian bytes of `v`.
pub fn push_u32_be(out: &mut Vec<u8>, v: u32)
    ensures
        final(out)@ == old(out)@ + be32_bytes(v as int),
{
    out.push((v / 16777216) as u8);
    out.push(((v / 65536) % 256) as u8);
    out.push(((v / 256) % 256) as u8);
    out.push((v % 256) as u8);
}

/// Appends the little-endian bytes of `v`.
pub fn push_u32_le(out: &mut Vec<u8>, v: u32)
    ensures
        final(out)@ == old(out)@ + le32_bytes(v as int),
{
    out.push((v % 256) as u8);
    out.push(((v / 256) % 256) as u8);
    out.push(((v / 65536) % 256) as u8);
    out.push((v / 16777216) as u8);
}

/// Appends the big-endian bytes of `v`.
pub fn push_u64_be(out: &mut Vec<u8>, v: u64)
    ensures
        final(out)@ == old(out)@ + be64_bytes(v as int),
{
    let hi = (v / 4294967296) as u32;
    let lo = (v % 4294967296) as u32;
    push_u32_be(out, hi);
    push_u32_be(out, lo);
}

} // verus!

verus! {

/// The UTF-16 code units of one character.
pub open spec fn utf16_of_char(c: char) -> Seq<u16> {
    let v = (c as u32) as int;
    if v < 0x10000 {
        seq![v as u16]
    } else {
        seq![(0xD800 + (v - 0x10000) / 1024) as u16, (0xDC00 + (v - 0x10000) % 1024) as u16]
    }
}

/// The UTF-16 code units of `s` (what `str::encode_utf16` yields).
pub open spec fn utf16_units(s: Seq<char>) -> Seq<u16>
    decreases s.len(),
{
    if s.len() == 0 {
        Seq::empty()
    } else {
        utf16_units(s.drop_last()) + utf16_of_char(s.last())
    }
}

/// The little-endian bytes of code units.
pub open spec fn units_le_bytes(units: Seq<u16>) -> Seq<u8>
    decreases units.len(),
{
    if units.len() == 0 {
        Seq::empty()
    } else {
        units_le_bytes(units.drop_last()) + le16_bytes(units.last() as int)
    }
}

/// The code units of `s` in UTF-16.
pub fn encode_utf16(s: &[char]) -> (r: Vec<u16>)
    ensures
        r@ == utf16_units(s@),
{
    let mut out: Vec<u16> = Vec::new();
    let n = s.len();
    for i in 0..n
        invariant
            n == s@.len(),
            out@ == utf16_units(s@.subrange(0, i as int)),
    {
        let c = s[i];
        let v = c as u32;
        assert(s@.subrange(0, i + 1).drop_last() =~= s@.subrange(0, i as int));
        assert(v <= 0x10FFFF) by {
            vstd::utf8::char_is_scalar(c);
        }
        let ghost prev = out@;
        assert(s@.subrange(0, i + 1).last() == c);
        if v < 0x10000 {
            out.push(v as u16);
            assert(utf16_of_char(c) =~= seq![v as u16]);
        } else {
            let w = v - 0x10000;
            let hi = (0xD800 + w / 1024) as u16;
            let lo = (0xDC00 + w % 1024) as u16;
            assert(hi as int == 0xD800 + (v as int - 0x10000) / 1024);
            assert(lo as int == 0xDC00 + (v as int - 0x10000) % 1024);
            out.push(hi);
            out.push(lo);
            assert(utf16_of_char(c) =~= seq![hi, lo]);
        }
        assert(out@ =~= prev + utf16_of_char(c));
        assert(out@ =~= utf16_units(s@.subrange(0, i + 1)));
    }
    assert(s@.subrange(0, n as int) =~= s@);
    out
}

/// Appends the little-endian bytes of `units`.
pub fn push_units_le(out: &mut Vec<u8>, units: &[u16])
    ensures
        final(out)@ == old(out)@ + units_le_bytes(units@),
{
    let ghost start = out@;
    let n = units.len();
    for i in 0..n
        invariant
            n == units@.len(),
            out@ == start + units_le_bytes(units@.subrange(0, i as int)),
    {
        push_u16_le(out, units[i]);
        assert(units@.subrange(0, i + 1).drop_last() =~= units@.subrange(0, i as int));
        assert(out@ =~= start + units_le_bytes(units@.subrange(0, i + 1)));
    }
    assert(units@.subrange(0, n as int) =~= units@);
}

/// Appends `src`.
pub fn push_bytes(out: &mut Vec<u8>, src: &[u8])
    ensures
        final(out)@ == old(out)@ + src@,
{
    let ghost start = out@;
    let n = src.len();
    for i in 0..n
        invariant
            n == src@.len(),
            out@ == start + src@.subrange(0, i as int),
    {
        out.push(src[i]);
        assert(out@ =~= start + src@.subrange(0, i + 1));
    }
    assert(src@.subrange(0, n as int) =~= src@);
}

} // verus!
