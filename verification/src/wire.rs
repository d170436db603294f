//! Little-endian integers.

use vstd::prelude::*;

verus! {

/// Two bytes, least significant first.
#[verifier::opaque]
pub open spec fn le16(v: int) -> Seq<u8> {
    seq![(v % 256) as u8, (v / 256 % 256) as u8]
}

/// Four bytes, least significant first. A negative number is written in two's
/// complement.
#[verifier::opaque]
pub open spec fn le32(v: int) -> Seq<u8> {
    seq![
        (v % 256) as u8,
        (v / 256 % 256) as u8,
        (v / 65536 % 256) as u8,
        (v / 16777216 % 256) as u8,
    ]
}

/// Eight bytes, least significant first.
#[verifier::opaque]
pub open spec fn le64(v: int) -> Seq<u8> {
    le32(v % 0x1_0000_0000) + le32(v / 0x1_0000_0000)
}

/// Two bytes.
pub broadcast proof fn lemma_le16_len(v: int)
    ensures
        #[trigger] le16(v).len() == 2,
{
    reveal(le16);
}

/// Four bytes.
pub broadcast proof fn lemma_le32_len(v: int)
    ensures
        #[trigger] le32(v).len() == 4,
{
    reveal(le32);
}

/// Eight bytes.
pub broadcast proof fn lemma_le64_len(v: int)
    ensures
        #[trigger] le64(v).len() == 8,
{
    reveal(le64);
    reveal(le32);
}

pub broadcast group group_le_len {
    lemma_le16_len,
    lemma_le32_len,
    lemma_le64_len,
}

/// The number whose two bytes start at `pos`.
pub open spec fn le16_at(data: Seq<u8>, pos: int) -> int {
    data[pos] + 256 * data[pos + 1]
}

/// The number whose four bytes, least significant first, start at `pos`.
pub open spec fn le32_at(data: Seq<u8>, pos: int) -> int {
    data[pos] + 256 * data[pos + 1] + 65536 * data[pos + 2] + 16777216 * data[pos + 3]
}

/// The number whose eight bytes start at `pos`.
pub open spec fn le64_at(data: Seq<u8>, pos: int) -> int {
    le32_at(data, pos) + 0x1_0000_0000 * le32_at(data, pos + 4)
}

/// The signed number with the same 32 bits.
pub open spec fn signed32(v: int) -> int {
    if v >= 0x8000_0000 {
        v - 0x1_0000_0000
    } else {
        v
    }
}

/// The signed number with the same 64 bits.
pub open spec fn signed64(v: int) -> int {
    if v >= 0x8000_0000_0000_0000 {
        v - 0x1_0000_0000_0000_0000
    } else {
        v
    }
}

/// Reads two bytes.
pub fn read_u16(data: &[u8], pos: usize) -> (r: u16)
    requires
        pos + 2 <= data@.len(),
    ensures
        r == le16_at(data@, pos as int),
{
    data[pos] as u16 + 256 * data[pos + 1] as u16
}

/// Reads four bytes.
pub fn read_u32(data: &[u8], pos: usize) -> (r: u32)
    requires
        pos + 4 <= data@.len(),
    ensures
        r == le32_at(data@, pos as int),
{
    let a: u32 = data[pos] as u32;
    let b: u32 = data[pos + 1] as u32;
    let c: u32 = data[pos + 2] as u32;
    let d: u32 = data[pos + 3] as u32;
    a + 256 * b + 65536 * c + 16777216 * d
}

/// Reads four bytes as a signed number.
pub fn read_i32(data: &[u8], pos: usize) -> (r: i32)
    requires
        pos + 4 <= data@.len(),
    ensures
        r == signed32(le32_at(data@, pos as int)),
{
    to_signed(read_u32(data, pos))
}

/// The signed number with the same bits.
pub fn to_signed(v: u32) -> (r: i32)
    ensures
        r == signed32(v as int),
{
    if v >= 0x8000_0000 {
        (v as i64 - 0x1_0000_0000) as i32
    } else {
        v as i32
    }
}

/// The unsigned number with the same bits.
pub fn to_unsigned(v: i32) -> (r: u32)
    ensures
        r == v as int % 0x1_0000_0000,
{
    if v < 0 {
        (v as i64 + 0x1_0000_0000) as u32
    } else {
        v as u32
    }
}

/// Reads eight bytes as a signed number.
pub fn read_i64(data: &[u8], pos: usize) -> (r: i64)
    requires
        pos + 8 <= data@.len(),
    ensures
        r == signed64(le64_at(data@, pos as int)),
{
    assert(pos + 8 <= data.len());
    let lo: u64 = read_u32(data, pos) as u64;
    let hi: u64 = read_u32(data, pos + 4) as u64;
    let v: u64 = lo + 0x1_0000_0000 * hi;
    if v >= 0x8000_0000_0000_0000 {
        (v as i128 - 0x1_0000_0000_0000_0000) as i64
    } else {
        v as i64
    }
}

/// Appends two bytes.
pub fn put_u16(out: &mut Vec<u8>, v: u16)
    ensures
        final(out)@ == old(out)@ + le16(v as int),
{
    proof {
        reveal(le16);
        reveal(le32);
        reveal(le64);
    }
    out.push((v % 256) as u8);
    out.push((v / 256) as u8);
    assert(out@ =~= old(out)@ + le16(v as int));
}

/// Appends four bytes.
pub fn put_u32(out: &mut Vec<u8>, v: u32)
    ensures
        final(out)@ == old(out)@ + le32(v as int),
{
    proof {
        reveal(le16);
        reveal(le32);
        reveal(le64);
    }
    out.push((v % 256) as u8);
    out.push((v / 256 % 256) as u8);
    out.push((v / 65536 % 256) as u8);
    out.push((v / 16777216 % 256) as u8);
    assert(out@ =~= old(out)@ + le32(v as int));
}

/// Appends a signed number.
pub fn put_i32(out: &mut Vec<u8>, v: i32)
    ensures
        final(out)@ == old(out)@ + le32(v as int),
{
    proof {
        reveal(le16);
        reveal(le32);
        reveal(le64);
    }
    let u: u32 = to_unsigned(v);
    proof {
        lemma_le32_wraps(v as int);
    }
    put_u32(out, u);
}

/// Appends a signed 64-bit number.
pub fn put_i64(out: &mut Vec<u8>, v: i64)
    ensures
        final(out)@ == old(out)@ + le64(v as int),
{
    proof {
        reveal(le16);
        reveal(le32);
        reveal(le64);
    }
    let u: u64 = if v < 0 {
        (v as i128 + 0x1_0000_0000_0000_0000) as u64
    } else {
        v as u64
    };
    proof {
        lemma_le32_wraps(v as int / 0x1_0000_0000);
        assert(u as int / 0x1_0000_0000 == (v as int / 0x1_0000_0000) % 0x1_0000_0000);
        assert(u as int % 0x1_0000_0000 == v as int % 0x1_0000_0000);
    }
    put_u32(out, (u % 0x1_0000_0000) as u32);
    put_u32(out, (u / 0x1_0000_0000) as u32);
    assert(out@ =~= old(out)@ + le64(v as int));
}

proof fn lemma_low_byte(a: int, t: int)
    ensures
        (a + 256 * t) % 256 == a % 256,
{
    vstd::arithmetic::div_mod::lemma_mod_multiples_vanish(t, a, 256);
}

/// Only the low 32 bits are written.
pub proof fn lemma_le32_wraps(v: int)
    ensures
        le32(v) == le32(v % 0x1_0000_0000),
{
    reveal(le16);
    reveal(le32);
    reveal(le64);
    let u = v % 0x1_0000_0000;
    let q = v / 0x1_0000_0000;
    assert(v == u + 0x1_0000_0000 * q);
    assert(v % 256 == u % 256) by {
        lemma_low_byte(u, 16777216 * q);
    }
    assert(v / 256 % 256 == u / 256 % 256) by {
        assert(v / 256 == u / 256 + 256 * (65536 * q));
        lemma_low_byte(u / 256, 65536 * q);
    }
    assert(v / 65536 % 256 == u / 65536 % 256) by {
        assert(v / 65536 == u / 65536 + 256 * (256 * q));
        lemma_low_byte(u / 65536, 256 * q);
    }
    assert(v / 16777216 % 256 == u / 16777216 % 256) by {
        assert(v / 16777216 == u / 16777216 + 256 * q);
        lemma_low_byte(u / 16777216, q);
    }
}

/// Reading gives back what was written.
pub proof fn law_le16(v: int, data: Seq<u8>, pos: int)
    requires
        0 <= v < 65536,
        0 <= pos,
        pos + 2 <= data.len(),
        data.subrange(pos, pos + 2) == le16(v),
    ensures
        le16_at(data, pos) == v,
{
    reveal(le16);
    reveal(le32);
    reveal(le64);
    let s = data.subrange(pos, pos + 2);
    assert(s[0] == data[pos] && s[1] == data[pos + 1]);
}

/// Reading gives back what was written.
pub proof fn law_le32(v: int, data: Seq<u8>, pos: int)
    requires
        0 <= pos,
        pos + 4 <= data.len(),
        data.subrange(pos, pos + 4) == le32(v),
    ensures
        0 <= v < 0x1_0000_0000 ==> le32_at(data, pos) == v,
        -0x8000_0000 <= v < 0x8000_0000 ==> signed32(le32_at(data, pos)) == v,
{
    reveal(le16);
    reveal(le32);
    reveal(le64);
    let s = data.subrange(pos, pos + 4);
    assert(s[0] == data[pos] && s[1] == data[pos + 1] && s[2] == data[pos + 2] && s[3] == data[pos
        + 3]);
    lemma_le32_wraps(v);
    let u = v % 0x1_0000_0000;
    assert(u == u % 256 + 256 * (u / 256 % 256) + 65536 * (u / 65536 % 256) + 16777216 * (u / 16777216
        % 256));
    assert(s == le32(u));
    assert(s[0] == u % 256 && s[1] == u / 256 % 256 && s[2] == u / 65536 % 256 && s[3] == u / 16777216
        % 256);
}

/// Reading gives back what was written.
pub proof fn law_le64(v: int, data: Seq<u8>, pos: int)
    requires
        -0x8000_0000_0000_0000 <= v < 0x8000_0000_0000_0000,
        0 <= pos,
        pos + 8 <= data.len(),
        data.subrange(pos, pos + 8) == le64(v),
    ensures
        signed64(le64_at(data, pos)) == v,
{
    reveal(le16);
    reveal(le32);
    reveal(le64);
    let s = data.subrange(pos, pos + 8);
    assert(data.subrange(pos, pos + 4) =~= s.subrange(0, 4));
    assert(data.subrange(pos + 4, pos + 8) =~= s.subrange(4, 8));
    assert(le64(v).subrange(0, 4) =~= le32(v % 0x1_0000_0000));
    assert(le64(v).subrange(4, 8) =~= le32(v / 0x1_0000_0000));
    law_le32(v % 0x1_0000_0000, data, pos);
    law_le32(v / 0x1_0000_0000, data, pos + 4);
}

/// The bytes of what was read are those that were read.
pub proof fn lemma_le32_bytes(data: Seq<u8>, pos: int)
    requires
        0 <= pos,
        pos + 4 <= data.len(),
    ensures
        le32(le32_at(data, pos)) == data.subrange(pos, pos + 4),
        le32(signed32(le32_at(data, pos))) == data.subrange(pos, pos + 4),
        0 <= le32_at(data, pos) < 0x1_0000_0000,
{
    reveal(le16);
    reveal(le32);
    reveal(le64);
    let v = le32_at(data, pos);
    lemma_le32_wraps(signed32(v));
    let (b0, b1, b2, b3) = (
        data[pos] as int,
        data[pos + 1] as int,
        data[pos + 2] as int,
        data[pos + 3] as int,
    );
    assert(v % 256 == b0) by {
        lemma_low_byte(b0, b1 + 256 * b2 + 65536 * b3);
    }
    assert(v / 256 == b1 + 256 * b2 + 65536 * b3);
    assert(v / 256 % 256 == b1) by {
        lemma_low_byte(b1, b2 + 256 * b3);
    }
    assert(v / 65536 == b2 + 256 * b3);
    assert(v / 65536 % 256 == b2) by {
        lemma_low_byte(b2, b3);
    }
    assert(v / 16777216 == b3);
    assert(le32(v) =~= data.subrange(pos, pos + 4));
}

} // verus!
