//! Properties of MIDI byte streams, on given bytes.

use fleet_midi::midi::data_byte_count;
use fleet_midi::{parse_midi_byte, parse_midi_slice, FleetBroadcaster, MidiMessage, ParserState};

/// The bytes of a message on the wire.
fn wire(msg: &MidiMessage) -> Vec<u8> {
    match *msg {
        MidiMessage::NoteOff { channel, note, velocity } => vec![0x80 + channel, note, velocity],
        MidiMessage::NoteOn { channel, note, velocity } => vec![0x90 + channel, note, velocity],
        MidiMessage::ControlChange { channel, controller, value } => {
            vec![0xB0 + channel, controller, value]
        }
        MidiMessage::ProgramChange { channel, program } => vec![0xC0 + channel, program],
        MidiMessage::PitchBend { channel, value } => {
            vec![0xE0 + channel, (value % 128) as u8, (value / 128) as u8]
        }
    }
}

fn one_of_each() -> Vec<MidiMessage> {
    vec![
        MidiMessage::NoteOn { channel: 0, note: 60, velocity: 64 },
        MidiMessage::NoteOff { channel: 15, note: 127, velocity: 0 },
        MidiMessage::ControlChange { channel: 3, controller: 7, value: 127 },
        MidiMessage::ProgramChange { channel: 9, program: 42 },
        MidiMessage::PitchBend { channel: 4, value: 16383 },
        MidiMessage::PitchBend { channel: 4, value: 0 },
    ]
}

#[test]
fn data_byte_counts() {
    assert_eq!(data_byte_count(0x8F), Some(2));
    assert_eq!(data_byte_count(0x90), Some(2));
    assert_eq!(data_byte_count(0xA0), None);
    assert_eq!(data_byte_count(0xB3), Some(2));
    assert_eq!(data_byte_count(0xC7), Some(1));
    assert_eq!(data_byte_count(0xD0), None);
    assert_eq!(data_byte_count(0xEF), Some(2));
    assert_eq!(data_byte_count(0xF0), None);
    assert_eq!(data_byte_count(0x7F), None);
}

#[test]
fn wire_forms_parse_back() {
    for msg in one_of_each() {
        assert_eq!(parse_midi_slice(&wire(&msg)), vec![msg]);
    }
}

#[test]
fn wire_stream_parses_back() {
    let messages = one_of_each();
    let mut bytes = Vec::new();
    for msg in &messages {
        bytes.extend(wire(msg));
    }
    assert_eq!(parse_midi_slice(&bytes), messages);
}

#[test]
fn cut_stream_parses_alike() {
    let mut bytes = Vec::new();
    for msg in &one_of_each() {
        bytes.extend(wire(msg));
    }
    let whole = parse_midi_slice(&bytes);
    for cut in 0..=bytes.len() {
        let mut state = ParserState::default();
        let mut messages = Vec::new();
        for part in [&bytes[..cut], &bytes[cut..]] {
            for &byte in part {
                messages.extend(parse_midi_byte(&mut state, byte));
            }
        }
        assert_eq!(messages, whole);
        let early = parse_midi_slice(&bytes[..cut]);
        assert_eq!(whole[..early.len()], early[..]);
    }
}

#[test]
fn real_time_bytes_are_transparent() {
    let plain = parse_midi_slice(&[0x90, 60, 64, 62, 65]);
    assert_eq!(parse_midi_slice(&[0xF8, 0x90, 0xFE, 60, 0xFF, 64, 0xF8, 62, 65]), plain);
    assert_eq!(plain.len(), 2);
}

#[test]
fn repeated_status_may_be_left_out() {
    let with = parse_midi_slice(&[0xB2, 1, 2, 0xB2, 3, 4]);
    let without = parse_midi_slice(&[0xB2, 1, 2, 3, 4]);
    assert_eq!(with, without);
    assert_eq!(with.len(), 2);
}

#[test]
fn system_common_cancels_running_status() {
    assert_eq!(
        parse_midi_slice(&[0x90, 60, 64, 0xF0, 1, 2, 3, 4, 0xF7, 61, 65]),
        vec![MidiMessage::NoteOn { channel: 0, note: 60, velocity: 64 }]
    );
}

#[test]
fn unsupported_status_cancels_running_status() {
    assert_eq!(parse_midi_slice(&[0x90, 60, 0xA0, 61, 65, 62, 66]), vec![]);
}

#[test]
fn incomplete_message_changes_nothing() {
    let whole = parse_midi_slice(&[0xC1, 5]);
    assert_eq!(parse_midi_slice(&[0xC1, 5, 0x90]), whole);
    assert_eq!(parse_midi_slice(&[0xC1, 5, 0x90, 60]), whole);
}

#[test]
fn silent_note_on_with_running_status() {
    assert_eq!(
        parse_midi_slice(&[0x95, 60, 64, 60, 0]),
        vec![
            MidiMessage::NoteOn { channel: 5, note: 60, velocity: 64 },
            MidiMessage::NoteOff { channel: 5, note: 60, velocity: 0 },
        ]
    );
}

#[test]
fn parsed_messages_are_in_range() {
    let bytes: Vec<u8> = (0..=255).chain((0..=255).rev()).collect();
    for msg in parse_midi_slice(&bytes) {
        assert!(msg.channel() < 16);
        if let MidiMessage::PitchBend { value, .. } = msg {
            assert!(value < 16384);
        }
        assert!(!matches!(msg, MidiMessage::NoteOn { velocity: 0, .. }));
    }
}

#[test]
fn channel_above_fifteen_is_not_subscribed() {
    let mut broadcaster = FleetBroadcaster::new();
    broadcaster.subscribe(16, "nobody");
    let msg = MidiMessage::ProgramChange { channel: 16, program: 1 };
    assert_eq!(broadcaster.broadcast(&msg), Vec::<String>::new());
}

#[test]
fn agents_are_notified_in_order_of_subscription() {
    let mut broadcaster = FleetBroadcaster::default();
    broadcaster.subscribe(15, "b");
    broadcaster.subscribe(15, "a");
    broadcaster.subscribe(15, "b");
    let msg = MidiMessage::ControlChange { channel: 15, controller: 1, value: 1 };
    assert_eq!(broadcaster.broadcast(&msg), vec!["b", "a", "b"]);
}

#[test]
fn broadcast_follows_the_subscriptions() {
    let calls =
        [(3, "a"), (16, "b"), (3, "c"), (0, "a"), (3, "a"), (255, "d"), (15, "e"), (0, "c")];
    let mut broadcaster = FleetBroadcaster::new();
    for (channel, agent_id) in calls {
        broadcaster.subscribe(channel, agent_id);
    }
    for channel in 0..=255 {
        let expected: Vec<&str> = calls
            .iter()
            .filter(|(c, _)| *c <= 15 && *c == channel)
            .map(|(_, agent_id)| *agent_id)
            .collect();
        let note = MidiMessage::NoteOn { channel, note: 60, velocity: 1 };
        let bend = MidiMessage::PitchBend { channel, value: 0 };
        assert_eq!(broadcaster.broadcast(&note), expected);
        assert_eq!(broadcaster.broadcast(&bend), broadcaster.broadcast(&note));
    }
    let third = MidiMessage::ProgramChange { channel: 3, program: 1 };
    assert_eq!(broadcaster.broadcast(&third), vec!["a", "c", "a"]);
}
