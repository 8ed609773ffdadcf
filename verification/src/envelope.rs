//! The binary form of an event on the wire.
//!
//! A frame is the event's scalar fields, each of a fixed width and big-endian,
//! then the length of the inline payload, the payload itself, and a CRC-8 over
//! everything before it:
//!
//! | bytes | field         |
//! |-------|---------------|
//! | 2     | `event_type`  |
//! | 8     | `event_time`  |
//! | 2     | `source_id`   |
//! | 4     | `seq`         |
//! | 1     | `payload_len` |
//! | n     | payload       |
//! | 1     | CRC-8         |

use vstd::prelude::*;

use crate::big_endian;
use crate::context;
use crate::event::{Event, MAX_INLINE_PAYLOAD};

verus! {

/// Bytes of a frame before its payload.
pub const HEADER_LEN: usize = 17;

/// One bit of the division by the CRC-8 polynomial x^8 + x^2 + x + 1.
pub open spec fn crc8_bit(crc: u8) -> u8 {
    if crc & 0x80 != 0 {
        (crc << 1) ^ 0x07
    } else {
        crc << 1
    }
}

/// The remainder after one more byte.
pub open spec fn crc8_byte(crc: u8, byte: u8) -> u8 {
    crc8_bit(crc8_bit(crc8_bit(crc8_bit(crc8_bit(crc8_bit(crc8_bit(crc8_bit(crc ^ byte))))))))
}

/// The CRC-8 of a sequence of bytes.
pub open spec fn crc8_of(bytes: Seq<u8>) -> u8
    decreases bytes.len(),
{
    if bytes.len() == 0 {
        0
    } else {
        crc8_byte(crc8_of(bytes.drop_last()), bytes.last())
    }
}

/// A frame without its checksum.
pub open spec fn event_body(event: Event) -> Seq<u8> {
    big_endian::u16_bytes(event.event_type as int)
        + big_endian::u64_bytes(big_endian::pattern64(event.event_time as int))
        + big_endian::u16_bytes(event.source_id as int)
        + big_endian::u32_bytes(event.seq as int)
        + seq![event.payload_len]
        + event.inline()
}

/// The frame of an event.
pub open spec fn event_frame(event: Event) -> Seq<u8> {
    event_body(event).push(crc8_of(event_body(event)))
}

/// Computes the CRC-8 of the first `len` bytes.
pub fn crc8(bytes: &[u8], len: usize) -> (res: u8)
    requires
        len <= bytes@.len(),
    ensures
        res == crc8_of(bytes@.take(len as int)),
{
    let mut crc: u8 = 0;
    let mut i: usize = 0;
    while i < len
        invariant
            i <= len <= bytes@.len(),
            crc == crc8_of(bytes@.take(i as int)),
        decreases len - i,
    {
        let byte = bytes[i];
        let ghost start = crc;
        crc = crc ^ byte;
        let mut bit: usize = 0;
        while bit < 8
            invariant
                bit <= 8,
                crc8_steps(crc, (8 - bit) as nat) == crc8_steps(start ^ byte, 8),
            decreases 8 - bit,
        {
            crc = if crc & 0x80 != 0 {
                (crc << 1) ^ 0x07
            } else {
                crc << 1
            };
            bit += 1;
        }
        proof {
            reveal_with_fuel(crc8_steps, 9);
            assert(bytes@.take(i + 1).drop_last() =~= bytes@.take(i as int));
        }
        i += 1;
    }
    crc
}

/// `n` bits of the division.
spec fn crc8_steps(crc: u8, n: nat) -> u8
    decreases n,
{
    if n == 0 {
        crc
    } else {
        crc8_steps(crc8_bit(crc), (n - 1) as nat)
    }
}

/// Encodes an event as a frame.
pub fn encode_event(event: &Event) -> (res: Vec<u8>)
    requires
        event.payload_len <= MAX_INLINE_PAYLOAD,
    ensures
        res@ == event_frame(*event),
{
    let mut out: Vec<u8> = Vec::with_capacity(HEADER_LEN + MAX_INLINE_PAYLOAD + 1);
    big_endian::push_u16(&mut out, event.event_type);
    big_endian::push_i64(&mut out, event.event_time);
    big_endian::push_u16(&mut out, event.source_id);
    big_endian::push_u32(&mut out, event.seq);
    out.push(event.payload_len);
    out.extend_from_slice(event.payload());
    assert(out@ =~= event_body(*event));
    let crc = crc8(out.as_slice(), out.len());
    assert(out@.take(out@.len() as int) =~= out@);
    out.push(crc);
    out
}

/// Decodes a frame.
///
/// Returns `None` for anything that is no frame: bytes that are too few or too
/// many, a payload longer than an event can hold, or a checksum that does not
/// match.
pub fn decode_event(bytes: &[u8]) -> (res: Option<Event>)
    ensures
        match res {
            Some(event) => event.wf() && event_frame(event) == bytes@,
            None => forall|event: Event| #[trigger] event.wf() ==> event_frame(event) != bytes@,
        },
        forall|event: Event| #[trigger]
            event.wf() && event_frame(event) == bytes@ ==> res == Some(event),
{
    if bytes.len() < HEADER_LEN + 1 {
        return None;
    }
    let payload_len = bytes[HEADER_LEN - 1];
    let body_len = HEADER_LEN + payload_len as usize;
    proof {
        assert forall|event: Event| #[trigger] event.wf() && event_frame(event) == bytes@ implies {
            &&& event.payload_len == payload_len
            &&& bytes@.len() == body_len + 1
            &&& bytes@[body_len as int] == crc8_of(bytes@.take(body_len as int))
        } by {
            assert(event_frame(event)[16] == event.payload_len);
            assert(bytes@.take(body_len as int) =~= event_body(event));
        }
    }
    if payload_len as usize > MAX_INLINE_PAYLOAD || bytes.len() != body_len + 1 {
        return None;
    }
    if crc8(bytes, body_len) != bytes[body_len] {
        return None;
    }
    let event_type = big_endian::read_u16(bytes, 0);
    let event_time = big_endian::read_i64(bytes, 2);
    let source_id = big_endian::read_u16(bytes, 10);
    let seq = big_endian::read_u32(bytes, 12);
    let mut event = Event::new(event_type, event_time, source_id, seq);
    event.set_payload(vstd::slice::slice_subrange(bytes, HEADER_LEN, body_len));
    proof {
        let b = bytes@;
        big_endian::lemma_u16_bytes_round_trip(b.subrange(0, 2));
        big_endian::lemma_u64_bytes_round_trip(b.subrange(2, 10));
        big_endian::lemma_u16_bytes_round_trip(b.subrange(10, 12));
        big_endian::lemma_u32_bytes_round_trip(b.subrange(12, 16));
        assert(event_body(event) =~= b.subrange(0, 2) + b.subrange(2, 10) + b.subrange(10, 12)
            + b.subrange(12, 16) + seq![b[16]] + b.subrange(17, body_len as int));
        assert(event_body(event) =~= b.take(body_len as int));
        assert(event_frame(event) =~= b);
        assert forall|other: Event| #[trigger]
            other.wf() && event_frame(other) == b implies other == event by {
            law_frame_determines_event(other, event);
        }
    }
    Some(event)
}

/// Two events with the same frame are the same event, so decoding a frame gives
/// back just the event that was encoded.
pub proof fn law_frame_determines_event(a: Event, b: Event)
    requires
        a.wf(),
        b.wf(),
        event_frame(a) == event_frame(b),
    ensures
        a == b,
{
    let f = event_frame(a);
    lemma_frame_fields(a);
    lemma_frame_fields(b);
    assert(a.payload =~= b.payload);
}

/// The fields of an event, read from its frame.
proof fn lemma_frame_fields(e: Event)
    requires
        e.wf(),
    ensures
        ({
            let f = event_frame(e);
            &&& e.event_type == big_endian::u16_of(f.subrange(0, 2))
            &&& e.event_time == big_endian::signed64(big_endian::u64_of(f.subrange(2, 10)))
            &&& e.source_id == big_endian::u16_of(f.subrange(10, 12))
            &&& e.seq == big_endian::u32_of(f.subrange(12, 16))
            &&& e.payload_len == f[16]
            &&& e.inline() == f.subrange(17, 17 + f[16])
        }),
{
    let f = event_frame(e);
    big_endian::lemma_u16_round_trip(e.event_type as int);
    big_endian::lemma_u64_round_trip(big_endian::pattern64(e.event_time as int));
    big_endian::lemma_u16_round_trip(e.source_id as int);
    big_endian::lemma_u32_round_trip(e.seq as int);
    assert(f.subrange(0, 2) =~= big_endian::u16_bytes(e.event_type as int));
    assert(f.subrange(2, 10) =~= big_endian::u64_bytes(big_endian::pattern64(e.event_time as int)));
    assert(f.subrange(10, 12) =~= big_endian::u16_bytes(e.source_id as int));
    assert(f.subrange(12, 16) =~= big_endian::u32_bytes(e.seq as int));
    assert(f.subrange(17, 17 + f[16]) =~= e.inline());
}

/// Different remainders stay different through one bit of the division.
proof fn lemma_crc8_bit_injective(a: u8, b: u8)
    requires
        a != b,
    ensures
        crc8_bit(a) != crc8_bit(b),
{
    assert((if a & 0x80 != 0 {
        (a << 1) ^ 0x07
    } else {
        a << 1
    }) != (if b & 0x80 != 0 {
        (b << 1) ^ 0x07
    } else {
        b << 1
    })) by (bit_vector)
        requires
            a != b,
    ;
}

/// Different remainders stay different through one byte.
proof fn lemma_crc8_byte_injective(a: u8, x: u8, b: u8, y: u8)
    requires
        a ^ x != b ^ y,
    ensures
        crc8_byte(a, x) != crc8_byte(b, y),
{
    let (a0, b0) = (a ^ x, b ^ y);
    lemma_crc8_bit_injective(a0, b0);
    let (a1, b1) = (crc8_bit(a0), crc8_bit(b0));
    lemma_crc8_bit_injective(a1, b1);
    let (a2, b2) = (crc8_bit(a1), crc8_bit(b1));
    lemma_crc8_bit_injective(a2, b2);
    let (a3, b3) = (crc8_bit(a2), crc8_bit(b2));
    lemma_crc8_bit_injective(a3, b3);
    let (a4, b4) = (crc8_bit(a3), crc8_bit(b3));
    lemma_crc8_bit_injective(a4, b4);
    let (a5, b5) = (crc8_bit(a4), crc8_bit(b4));
    lemma_crc8_bit_injective(a5, b5);
    let (a6, b6) = (crc8_bit(a5), crc8_bit(b5));
    lemma_crc8_bit_injective(a6, b6);
    let (a7, b7) = (crc8_bit(a6), crc8_bit(b6));
    lemma_crc8_bit_injective(a7, b7);
}

/// Sequences that differ in one byte differ in their CRC-8.
proof fn lemma_crc8_sees_one_byte(bytes: Seq<u8>, at: int, byte: u8)
    requires
        0 <= at < bytes.len(),
        bytes[at] != byte,
    ensures
        crc8_of(bytes.update(at, byte)) != crc8_of(bytes),
    decreases bytes.len(),
{
    let other = bytes.update(at, byte);
    let c = crc8_of(bytes.drop_last());
    let d = crc8_of(other.drop_last());
    let (x, y) = (bytes.last(), other.last());
    if at == bytes.len() - 1 {
        assert(other.drop_last() =~= bytes.drop_last());
        assert(d ^ y != c ^ x) by (bit_vector)
            requires
                c == d,
                x != y,
        ;
    } else {
        assert(other.drop_last() =~= bytes.drop_last().update(at, byte));
        lemma_crc8_sees_one_byte(bytes.drop_last(), at, byte);
        assert(d ^ y != c ^ x) by (bit_vector)
            requires
                c != d,
                x == y,
        ;
    }
    lemma_crc8_byte_injective(d, y, c, x);
}

/// Of two sequences with their checksums, one is never the other with one byte
/// changed.
proof fn lemma_changed_frame(body: Seq<u8>, at: int, byte: u8, other: Seq<u8>)
    requires
        0 <= at <= body.len(),
        body.push(crc8_of(body))[at] != byte,
    ensures
        other.push(crc8_of(other)) != body.push(crc8_of(body)).update(at, byte),
{
    let good = body.push(crc8_of(body));
    let bad = good.update(at, byte);
    let taken = other.push(crc8_of(other));
    if taken == bad {
        assert(taken.drop_last() =~= other);
        assert(taken.last() == crc8_of(other));
        if at == body.len() {
            assert(bad.drop_last() =~= body);
        } else {
            assert(bad.drop_last() =~= body.update(at, byte));
            lemma_crc8_sees_one_byte(body, at, byte);
        }
        assert(false);
    }
}

/// A frame in which any one byte has been changed is no frame: it is never
/// taken for another event.
pub proof fn law_one_changed_byte_is_detected(event: Event, at: int, byte: u8, other: Event)
    requires
        event.wf(),
        other.wf(),
        0 <= at < event_frame(event).len(),
        event_frame(event)[at] != byte,
    ensures
        event_frame(other) != event_frame(event).update(at, byte),
{
    lemma_changed_frame(event_body(event), at, byte, event_body(other));
}

/// A frame is two bytes of type, eight of time, two of source and four of number, each
/// with its most significant byte first, then the length of the payload, the payload and
/// one byte more.
pub proof fn law_frame_layout(event: Event)
    requires
        event.payload_len <= 32,
    ensures
        ({
            let f = event_frame(event);
            &&& f.len() == 18 + event.payload_len
            &&& context::number_of(f.subrange(0, 2)) == event.event_type
            &&& context::stands_for(
                f.subrange(2, 10),
                8,
                0x1_0000_0000_0000_0000,
                event.event_time as int,
            )
            &&& context::number_of(f.subrange(10, 12)) == event.source_id
            &&& context::number_of(f.subrange(12, 16)) == event.seq
            &&& f[16] == event.payload_len
            &&& forall|i: int|
                0 <= i < event.payload_len ==> #[trigger] event.payload@[i] == f[17 + i]
        }),
{
    let f = event_frame(event);
    big_endian::lemma_u16_round_trip(event.event_type as int);
    big_endian::lemma_u64_round_trip(big_endian::pattern64(event.event_time as int));
    big_endian::lemma_u16_round_trip(event.source_id as int);
    big_endian::lemma_u32_round_trip(event.seq as int);
    assert(f.subrange(0, 2) =~= big_endian::u16_bytes(event.event_type as int));
    assert(f.subrange(2, 10) =~= big_endian::u64_bytes(
        big_endian::pattern64(event.event_time as int),
    ));
    assert(f.subrange(10, 12) =~= big_endian::u16_bytes(event.source_id as int));
    assert(f.subrange(12, 16) =~= big_endian::u32_bytes(event.seq as int));
    context::lemma_number_of(f.subrange(0, 2));
    context::lemma_number_of(f.subrange(2, 10));
    context::lemma_number_of(f.subrange(10, 12));
    context::lemma_number_of(f.subrange(12, 16));
    assert forall|i: int| 0 <= i < event.payload_len implies #[trigger] event.payload@[i] == f[17
        + i] by {
        assert(event.inline()[i] == event.payload@[i]);
    }
}

/// The checksum of nothing is zero, and one more byte, taken together with the checksum
/// so far, adds for each of its bits that is set the remainder of that bit.
pub proof fn law_crc8_adds_the_remainders_of_bits(bytes: Seq<u8>, byte: u8)
    ensures
        crc8_of(Seq::empty()) == 0,
        ({
            let x = crc8_of(bytes) ^ byte;
            crc8_of(bytes.push(byte)) == (if x & 1 != 0 { 0x07u8 } else { 0 }) ^ (if x & 2 != 0 {
                0x0Eu8
            } else {
                0
            }) ^ (if x & 4 != 0 { 0x1Cu8 } else { 0 }) ^ (if x & 8 != 0 { 0x38u8 } else { 0 }) ^ (
            if x & 16 != 0 { 0x70u8 } else { 0 }) ^ (if x & 32 != 0 { 0xE0u8 } else { 0 }) ^ (
            if x & 64 != 0 { 0xC7u8 } else { 0 }) ^ (if x & 128 != 0 { 0x89u8 } else { 0 })
        }),
{
    assert(bytes.push(byte).drop_last() =~= bytes);
    let x = crc8_of(bytes) ^ byte;
    lemma_crc8_table(x);
}

/// Eight bits of the division, bit by bit of what is divided.
proof fn lemma_crc8_table(x: u8)
    ensures
        crc8_byte(0, x) == (if x & 1 != 0 { 0x07u8 } else { 0 }) ^ (if x & 2 != 0 {
            0x0Eu8
        } else {
            0
        }) ^ (if x & 4 != 0 { 0x1Cu8 } else { 0 }) ^ (if x & 8 != 0 { 0x38u8 } else { 0 }) ^ (
        if x & 16 != 0 { 0x70u8 } else { 0 }) ^ (if x & 32 != 0 { 0xE0u8 } else { 0 }) ^ (
        if x & 64 != 0 { 0xC7u8 } else { 0 }) ^ (if x & 128 != 0 { 0x89u8 } else { 0 }),
        forall|c: u8, b: u8| c ^ b == x ==> #[trigger] crc8_byte(c, b) == crc8_byte(0, x),
{
    assert(0u8 ^ x == x) by (bit_vector);
    let a1 = crc8_bit(x);
    let a2 = crc8_bit(a1);
    let a3 = crc8_bit(a2);
    let a4 = crc8_bit(a3);
    let a5 = crc8_bit(a4);
    let a6 = crc8_bit(a5);
    let a7 = crc8_bit(a6);
    let a8 = crc8_bit(a7);
    assert(a8 == (if x & 1 != 0 { 0x07u8 } else { 0 }) ^ (if x & 2 != 0 { 0x0Eu8 } else { 0 }) ^ (
    if x & 4 != 0 { 0x1Cu8 } else { 0 }) ^ (if x & 8 != 0 { 0x38u8 } else { 0 }) ^ (if x & 16 != 0 {
        0x70u8
    } else {
        0
    }) ^ (if x & 32 != 0 { 0xE0u8 } else { 0 }) ^ (if x & 64 != 0 { 0xC7u8 } else { 0 }) ^ (
    if x & 128 != 0 { 0x89u8 } else { 0 })) by (bit_vector)
        requires
            a1 == (if x & 0x80 != 0 { (x << 1) ^ 0x07 } else { x << 1 }),
            a2 == (if a1 & 0x80 != 0 { (a1 << 1) ^ 0x07 } else { a1 << 1 }),
            a3 == (if a2 & 0x80 != 0 { (a2 << 1) ^ 0x07 } else { a2 << 1 }),
            a4 == (if a3 & 0x80 != 0 { (a3 << 1) ^ 0x07 } else { a3 << 1 }),
            a5 == (if a4 & 0x80 != 0 { (a4 << 1) ^ 0x07 } else { a4 << 1 }),
            a6 == (if a5 & 0x80 != 0 { (a5 << 1) ^ 0x07 } else { a5 << 1 }),
            a7 == (if a6 & 0x80 != 0 { (a6 << 1) ^ 0x07 } else { a6 << 1 }),
            a8 == (if a7 & 0x80 != 0 { (a7 << 1) ^ 0x07 } else { a7 << 1 }),
    ;
}

/// The last byte of a frame is the checksum of the bytes before it.
pub proof fn law_frame_ends_in_its_checksum(event: Event)
    ensures
        event_frame(event).len() > 0,
        event_frame(event).last() == crc8_of(event_frame(event).drop_last()),
{
    assert(event_frame(event).drop_last() =~= event_body(event));
}

} // verus!
