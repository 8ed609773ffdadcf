//! Event payloads, context frames and the binary form of events.

use fleet_midi::big_endian::{push_i64, read_i32, read_i64, read_u16, read_u32};
use fleet_midi::context::CONTEXT_PAYLOAD_LEN;
use fleet_midi::envelope::crc8;
use fleet_midi::{
    decode_event, encode_event, event_types, parse_midi_slice, Context, Event, EventRouter,
    MidiConversionError, MidiMessage, MAX_INLINE_PAYLOAD,
};

#[test]
fn payload_is_truncated_and_zero_filled() {
    let mut event = Event::new(7, 0, 0, 0);
    let long: Vec<u8> = (1..=40).collect();
    event.set_payload(&long);
    assert_eq!(event.payload_len as usize, MAX_INLINE_PAYLOAD);
    assert_eq!(event.payload(), &long[..MAX_INLINE_PAYLOAD]);
    event.set_payload(&[9, 8]);
    assert_eq!(event.payload(), &[9, 8]);
    assert_eq!(event.payload[2..], [0; 30]);
    event.set_payload(&[]);
    assert_eq!(event.payload(), &[] as &[u8]);
}

#[test]
fn short_payload_does_not_convert_to_midi() {
    let mut event = Event::new(event_types::MIDI_PITCH_BEND, 0, 0, 0);
    event.set_payload(&[1, 2]);
    assert_eq!(
        MidiMessage::try_from(event).unwrap_err(),
        MidiConversionError::PayloadTooShort { expected: 3, got: 2 }
    );
    let mut event = Event::new(event_types::MIDI_PROGRAM_CHANGE, 0, 0, 0);
    event.set_payload(&[1]);
    assert_eq!(
        MidiMessage::try_from(event).unwrap_err(),
        MidiConversionError::PayloadTooShort { expected: 2, got: 1 }
    );
}

#[test]
fn pitch_bend_of_more_than_fourteen_bits_loses_the_rest() {
    let msg = MidiMessage::PitchBend { channel: 1, value: 0x4001 };
    let event: Event = msg.into();
    let back: MidiMessage = event.try_into().unwrap();
    assert_eq!(back, MidiMessage::PitchBend { channel: 1, value: 1 });
}

#[test]
fn parsed_messages_survive_their_events() {
    for msg in parse_midi_slice(&[0x91, 60, 64, 60, 0, 0xE3, 127, 127, 0xC2, 9, 0xBF, 1, 2]) {
        let event: Event = msg.clone().into();
        assert_eq!(MidiMessage::try_from(event).unwrap(), msg);
    }
}

#[test]
fn context_payload_bytes() {
    let ctx = Context::new(0x01020304, -2, -1, 5, 0x0607, 8);
    let event = Event::from_context(ctx, 1, 2, 3);
    assert_eq!(
        event.payload(),
        &[
            1, 2, 3, 4, 255, 255, 255, 255, 255, 255, 255, 254, 255, 255, 255, 255, 0, 0, 0, 5, 6,
            7, 8
        ]
    );
    assert_eq!(event.as_context(), Some(ctx));
}

#[test]
fn context_payload_is_canonical() {
    let bytes: Vec<u8> = (200..223).collect();
    let mut event = Event::new(event_types::CONTEXT, 1, 2, 3);
    event.set_payload(&bytes);
    let ctx = event.as_context().unwrap();
    assert_eq!(Event::from_context(ctx, 1, 2, 3).payload(), &bytes[..]);
}

#[test]
fn only_context_frames_of_the_right_length_hold_a_context() {
    let ctx = Context::new(1, 2, 3, 4, 5, 6);
    let mut other = Event::from_context(ctx, 0, 0, 0);
    other.event_type = event_types::MIDI_NOTE_ON;
    assert_eq!(other.as_context(), None);
    let mut short = Event::new(event_types::CONTEXT, 0, 0, 0);
    short.set_payload(&[0; CONTEXT_PAYLOAD_LEN - 1]);
    assert_eq!(short.as_context(), None);
    let mut long = Event::new(event_types::CONTEXT, 0, 0, 0);
    long.set_payload(&[0; CONTEXT_PAYLOAD_LEN + 1]);
    assert_eq!(long.as_context(), None);
}

#[test]
fn router_keeps_the_context_over_unreadable_frames() {
    let mut router = EventRouter::new();
    let ctx = Context::new(1, 2, 3, 4, 5, 6);
    router.broadcast_context(ctx);
    assert_eq!(router.handle_event(&Event::new(event_types::CONTEXT, 0, 0, 0)), Some(ctx));
    assert_eq!(router.current_context(), Some(ctx));
}

#[test]
fn crc8_check_value() {
    assert_eq!(crc8(b"123456789", 9), 0xF4);
    assert_eq!(crc8(&[], 0), 0);
}

#[test]
fn frame_bytes() {
    let mut event = Event::new(0x0102, -1, 0x0304, 0x05060708);
    event.set_payload(&[0xAA, 0xBB]);
    let frame = encode_event(&event);
    let body = [1, 2, 255, 255, 255, 255, 255, 255, 255, 255, 3, 4, 5, 6, 7, 8, 2, 0xAA, 0xBB];
    assert_eq!(frame[..19], body);
    assert_eq!(frame[19], crc8(&body, body.len()));
    assert_eq!(frame.len(), 20);
    assert_eq!(decode_event(&frame), Some(event));
}

#[test]
fn frames_of_every_payload_length_decode() {
    for len in 0..=MAX_INLINE_PAYLOAD {
        let payload: Vec<u8> = (0..len as u8).map(|i| i.wrapping_mul(37)).collect();
        let mut event = Event::new(9, i64::MIN, u16::MAX, u32::MAX);
        event.set_payload(&payload);
        assert_eq!(decode_event(&encode_event(&event)), Some(event));
    }
}

#[test]
fn what_is_no_frame_does_not_decode() {
    let mut event = Event::new(0x0100, 1_000, 7, 42);
    event.set_payload(&[1, 2, 3]);
    let frame = encode_event(&event);
    assert_eq!(decode_event(&[]), None);
    for cut in 0..frame.len() {
        assert_eq!(decode_event(&frame[..cut]), None);
    }
    let mut longer = frame.clone();
    longer.push(0);
    assert_eq!(decode_event(&longer), None);
    let mut too_long = frame.clone();
    too_long[16] = 33;
    assert_eq!(decode_event(&too_long), None);
}

#[test]
fn one_changed_byte_is_detected() {
    let mut event = Event::new(0x0100, 1_000, 7, 42);
    event.set_payload(&[1, 2, 3]);
    let frame = encode_event(&event);
    for at in 0..frame.len() {
        for change in 1..=255u8 {
            let mut changed = frame.clone();
            changed[at] ^= change;
            assert_eq!(decode_event(&changed), None);
        }
    }
}

#[test]
fn big_endian_values() {
    let bytes = [0x80, 0, 0, 1, 0xFF, 0xFF, 0xFF, 0xFF];
    assert_eq!(read_u16(&bytes, 0), 0x8000);
    assert_eq!(read_u32(&bytes, 0), 0x8000_0001);
    assert_eq!(read_i32(&bytes, 0), i32::MIN + 1);
    assert_eq!(read_i64(&bytes, 0), 0x8000_0001_FFFF_FFFFu64 as i64);
    let mut out = Vec::new();
    push_i64(&mut out, -2);
    assert_eq!(out, [255, 255, 255, 255, 255, 255, 255, 254]);
}
