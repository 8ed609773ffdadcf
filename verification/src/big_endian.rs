//! Fixed-width integers as big-endian bytes.

use vstd::prelude::*;

verus! {

/// The value of two bytes, most significant first.
pub open spec fn u16_of(b: Seq<u8>) -> int {
    b[0] * 0x100 + b[1]
}

/// The value of four bytes, most significant first.
pub open spec fn u32_of(b: Seq<u8>) -> int {
    b[0] * 0x100_0000 + b[1] * 0x1_0000 + b[2] * 0x100 + b[3]
}

/// The value of eight bytes, most significant first.
pub open spec fn u64_of(b: Seq<u8>) -> int {
    u32_of(b) * 0x1_0000_0000 + u32_of(b.skip(4))
}

/// The two bytes of a 16-bit value.
pub open spec fn u16_bytes(v: int) -> Seq<u8> {
    seq![(v / 0x100 % 0x100) as u8, (v % 0x100) as u8]
}

/// The four bytes of a 32-bit value.
pub open spec fn u32_bytes(v: int) -> Seq<u8> {
    seq![
        (v / 0x100_0000 % 0x100) as u8,
        (v / 0x1_0000 % 0x100) as u8,
        (v / 0x100 % 0x100) as u8,
        (v % 0x100) as u8,
    ]
}

/// The eight bytes of a 64-bit value.
pub open spec fn u64_bytes(v: int) -> Seq<u8> {
    u32_bytes(v / 0x1_0000_0000) + u32_bytes(v % 0x1_0000_0000)
}

/// A 32-bit pattern read as a two's complement number.
pub open spec fn signed32(v: int) -> int {
    if v < 0x8000_0000 {
        v
    } else {
        v - 0x1_0000_0000
    }
}

/// A 64-bit pattern read as a two's complement number.
pub open spec fn signed64(v: int) -> int {
    if v < 0x8000_0000_0000_0000 {
        v
    } else {
        v - 0x1_0000_0000_0000_0000
    }
}

/// The 32-bit two's complement pattern of a number.
pub open spec fn pattern32(v: int) -> int {
    if v < 0 {
        v + 0x1_0000_0000
    } else {
        v
    }
}

/// The 64-bit two's complement pattern of a number.
pub open spec fn pattern64(v: int) -> int {
    if v < 0 {
        v + 0x1_0000_0000_0000_0000
    } else {
        v
    }
}

/// Writing a 16-bit value and reading it gives it back.
pub proof fn lemma_u16_round_trip(v: int)
    requires
        0 <= v < 0x1_0000,
    ensures
        u16_of(u16_bytes(v)) == v,
{
}

/// Writing a 32-bit value and reading it gives it back.
pub proof fn lemma_u32_round_trip(v: int)
    requires
        0 <= v < 0x1_0000_0000,
    ensures
        u32_of(u32_bytes(v)) == v,
{
}

/// Writing a 64-bit value and reading it gives it back.
pub proof fn lemma_u64_round_trip(v: int)
    requires
        0 <= v < 0x1_0000_0000_0000_0000,
    ensures
        u64_of(u64_bytes(v)) == v,
{
    let hi = v / 0x1_0000_0000;
    let lo = v % 0x1_0000_0000;
    lemma_u32_round_trip(hi);
    lemma_u32_round_trip(lo);
    assert(u64_bytes(v).skip(4) =~= u32_bytes(lo));
}

/// Reading two bytes and writing the value gives them back.
pub proof fn lemma_u16_bytes_round_trip(b: Seq<u8>)
    requires
        b.len() == 2,
    ensures
        0 <= u16_of(b) < 0x1_0000,
        u16_bytes(u16_of(b)) == b,
{
    assert(u16_bytes(u16_of(b)) =~= b);
}

/// Reading four bytes and writing the value gives them back.
pub proof fn lemma_u32_bytes_round_trip(b: Seq<u8>)
    requires
        b.len() == 4,
    ensures
        0 <= u32_of(b) < 0x1_0000_0000,
        u32_bytes(u32_of(b)) == b,
{
    let (b0, b1, b2, b3) = (b[0] as int, b[1] as int, b[2] as int, b[3] as int);
    let v = u32_of(b);
    let (v1, v2) = (b0 * 0x1_0000 + b1 * 0x100 + b2, b0 * 0x100 + b1);
    assert(v == v1 * 0x100 + b3 && v1 == v2 * 0x100 + b2);
    assert(v / 0x100 == v1 && v % 0x100 == b3);
    assert(v / 0x1_0000 == v2 && v1 % 0x100 == b2);
    assert(v / 0x100_0000 == b0 && v2 % 0x100 == b1);
    let w = u32_bytes(v);
    assert(w[0] == b[0] && w[1] == b[1] && w[2] == b[2] && w[3] == b[3]);
    assert(w =~= b);
}

/// Reading eight bytes and writing the value gives them back.
pub proof fn lemma_u64_bytes_round_trip(b: Seq<u8>)
    requires
        b.len() == 8,
    ensures
        0 <= u64_of(b) < 0x1_0000_0000_0000_0000,
        u64_bytes(u64_of(b)) == b,
{
    let (front, back) = (b.take(4), b.skip(4));
    lemma_u32_bytes_round_trip(front);
    lemma_u32_bytes_round_trip(back);
    assert(u32_of(b) == u32_of(front));
    let v = u64_of(b);
    assert(v / 0x1_0000_0000 == u32_of(front) && v % 0x1_0000_0000 == u32_of(back));
    assert(front + back =~= b);
}

/// Reads a 16-bit value at `at`.
pub fn read_u16(bytes: &[u8], at: usize) -> (res: u16)
    requires
        at + 2 <= bytes@.len(),
    ensures
        res == u16_of(bytes@.subrange(at as int, at + 2)),
{
    (bytes[at] as u16) * 0x100 + bytes[at + 1] as u16
}

/// Reads a 32-bit value at `at`.
pub fn read_u32(bytes: &[u8], at: usize) -> (res: u32)
    requires
        at + 4 <= bytes@.len(),
    ensures
        res == u32_of(bytes@.subrange(at as int, at + 4)),
{
    (bytes[at] as u32) * 0x100_0000 + (bytes[at + 1] as u32) * 0x1_0000 + (bytes[at + 2] as u32)
        * 0x100 + bytes[at + 3] as u32
}

/// Reads a 64-bit value at `at`.
pub fn read_u64(bytes: &[u8], at: usize) -> (res: u64)
    requires
        at + 8 <= bytes@.len(),
    ensures
        res == u64_of(bytes@.subrange(at as int, at + 8)),
{
    assert(bytes.len() <= usize::MAX);
    let hi = read_u32(bytes, at);
    let lo = read_u32(bytes, at + 4);
    assert(bytes@.subrange(at as int, at + 8).skip(4) =~= bytes@.subrange(at + 4, at + 8));
    (hi as u64) * 0x1_0000_0000 + lo as u64
}

/// Reads a two's complement 32-bit value at `at`.
pub fn read_i32(bytes: &[u8], at: usize) -> (res: i32)
    requires
        at + 4 <= bytes@.len(),
    ensures
        res == signed32(u32_of(bytes@.subrange(at as int, at + 4))),
{
    let v = read_u32(bytes, at);
    if v < 0x8000_0000 {
        v as i32
    } else {
        (v as i64 - 0x1_0000_0000) as i32
    }
}

/// Reads a two's complement 64-bit value at `at`.
pub fn read_i64(bytes: &[u8], at: usize) -> (res: i64)
    requires
        at + 8 <= bytes@.len(),
    ensures
        res == signed64(u64_of(bytes@.subrange(at as int, at + 8))),
{
    let v = read_u64(bytes, at);
    if v < 0x8000_0000_0000_0000 {
        v as i64
    } else {
        (v as i128 - 0x1_0000_0000_0000_0000) as i64
    }
}

/// Appends a 16-bit value.
pub fn push_u16(out: &mut Vec<u8>, v: u16)
    ensures
        final(out)@ == old(out)@ + u16_bytes(v as int),
{
    out.push((v / 0x100 % 0x100) as u8);
    out.push((v % 0x100) as u8);
    assert(out@ =~= old(out)@ + u16_bytes(v as int));
}

/// Appends a 32-bit value.
pub fn push_u32(out: &mut Vec<u8>, v: u32)
    ensures
        final(out)@ == old(out)@ + u32_bytes(v as int),
{
    out.push((v / 0x100_0000 % 0x100) as u8);
    out.push((v / 0x1_0000 % 0x100) as u8);
    out.push((v / 0x100 % 0x100) as u8);
    out.push((v % 0x100) as u8);
    assert(out@ =~= old(out)@ + u32_bytes(v as int));
}

/// Appends a 64-bit value.
pub fn push_u64(out: &mut Vec<u8>, v: u64)
    ensures
        final(out)@ == old(out)@ + u64_bytes(v as int),
{
    push_u32(out, (v / 0x1_0000_0000) as u32);
    push_u32(out, (v % 0x1_0000_0000) as u32);
    assert(out@ =~= old(out)@ + u64_bytes(v as int));
}

/// Appends a 32-bit value in two's complement.
pub fn push_i32(out: &mut Vec<u8>, v: i32)
    ensures
        final(out)@ == old(out)@ + u32_bytes(pattern32(v as int)),
{
    if v < 0 {
        push_u32(out, (v as i64 + 0x1_0000_0000) as u32);
    } else {
        push_u32(out, v as u32);
    }
}

/// Appends a 64-bit value in two's complement.
pub fn push_i64(out: &mut Vec<u8>, v: i64)
    ensures
        final(out)@ == old(out)@ + u64_bytes(pattern64(v as int)),
{
    if v < 0 {
        push_u64(out, (v as i128 + 0x1_0000_0000_0000_0000) as u64);
    } else {
        push_u64(out, v as u64);
    }
}

} // verus!
