//! Parsing and broadcasting MIDI messages.

use fleet_midi::{
    parse_midi_byte, parse_midi_slice, stub, FleetBroadcaster, MidiMessage, ParserState,
};

#[test]
fn note_on_and_off() {
    let bytes = [
        0x90, 60, 64, // Note On, channel 0, note 60, velocity 64
        0x80, 60, 32, // Note Off, channel 0, note 60, velocity 32
    ];
    let messages = parse_midi_slice(&bytes);
    assert_eq!(
        messages,
        vec![
            MidiMessage::NoteOn {
                channel: 0,
                note: 60,
                velocity: 64,
            },
            MidiMessage::NoteOff {
                channel: 0,
                note: 60,
                velocity: 32,
            },
        ]
    );
}

#[test]
fn note_on_velocity_zero_is_note_off() {
    let bytes = [0x93, 48, 0]; // Note On, channel 3, velocity 0
    let messages = parse_midi_slice(&bytes);
    assert_eq!(
        messages,
        vec![MidiMessage::NoteOff {
            channel: 3,
            note: 48,
            velocity: 0,
        }]
    );
}

#[test]
fn running_status_note_on() {
    let bytes = [
        0x91, 60, 64, // status + first message on channel 1
        64, 32,       // running status: note 64 velocity 32
        67, 16,       // running status: note 67 velocity 16
    ];
    let messages = parse_midi_slice(&bytes);
    assert_eq!(
        messages,
        vec![
            MidiMessage::NoteOn {
                channel: 1,
                note: 60,
                velocity: 64,
            },
            MidiMessage::NoteOn {
                channel: 1,
                note: 64,
                velocity: 32,
            },
            MidiMessage::NoteOn {
                channel: 1,
                note: 67,
                velocity: 16,
            },
        ]
    );
}

#[test]
fn running_status_note_off_after_status_change() {
    // A fresh status byte should replace the running status.
    let bytes = [
        0x90, 60, 64, // Note On channel 0
        0x80, 60, 0,  // Note Off channel 0
        48, 0,        // Running status: Note Off channel 0, note 48
    ];
    let messages = parse_midi_slice(&bytes);
    assert_eq!(
        messages,
        vec![
            MidiMessage::NoteOn {
                channel: 0,
                note: 60,
                velocity: 64,
            },
            MidiMessage::NoteOff {
                channel: 0,
                note: 60,
                velocity: 0,
            },
            MidiMessage::NoteOff {
                channel: 0,
                note: 48,
                velocity: 0,
            },
        ]
    );
}

#[test]
fn control_change() {
    let bytes = [0xB2, 0x01, 0x7F]; // CC #1, value 127, channel 2
    let messages = parse_midi_slice(&bytes);
    assert_eq!(
        messages,
        vec![MidiMessage::ControlChange {
            channel: 2,
            controller: 1,
            value: 127,
        }]
    );
}

#[test]
fn program_change_single_data_byte() {
    let bytes = [0xC5, 42]; // Program change, channel 5, program 42
    let messages = parse_midi_slice(&bytes);
    assert_eq!(
        messages,
        vec![MidiMessage::ProgramChange {
            channel: 5,
            program: 42,
        }]
    );
}

#[test]
fn pitch_bend_14bit_lsb_first() {
    // value = (msb << 7) | lsb
    let bytes = [0xE4, 0x34, 0x12]; // lsb=0x34, msb=0x12
    let messages = parse_midi_slice(&bytes);
    assert_eq!(
        messages,
        vec![MidiMessage::PitchBend {
            channel: 4,
            value: 0x0934,
        }]
    );
}

#[test]
fn incomplete_sequence_does_not_panic() {
    let bytes = [0x90, 60]; // missing velocity
    let messages = parse_midi_slice(&bytes);
    assert!(messages.is_empty());
}

#[test]
fn stray_data_byte_does_not_panic() {
    let bytes = [60, 64]; // no status byte at all
    let messages = parse_midi_slice(&bytes);
    assert!(messages.is_empty());
}

#[test]
fn state_accumulates_across_calls() {
    let mut state = ParserState::default();
    assert_eq!(parse_midi_byte(&mut state, 0x90), None);
    assert_eq!(parse_midi_byte(&mut state, 60), None);
    assert_eq!(
        parse_midi_byte(&mut state, 64),
        Some(MidiMessage::NoteOn {
            channel: 0,
            note: 60,
            velocity: 64,
        })
    );
}

#[test]
fn broadcaster_routes_by_channel() {
    let mut bc = FleetBroadcaster::new();
    bc.subscribe(0, "lead");
    bc.subscribe(10, "drums");
    bc.subscribe(0, "visuals");

    let msg = MidiMessage::NoteOn {
        channel: 0,
        note: 60,
        velocity: 64,
    };
    let notified = bc.broadcast(&msg);
    assert_eq!(notified, vec!["lead", "visuals"]);

    let drums = MidiMessage::NoteOff {
        channel: 10,
        note: 36,
        velocity: 0,
    };
    assert_eq!(bc.broadcast(&drums), vec!["drums"]);

    let no_subs = MidiMessage::ControlChange {
        channel: 7,
        controller: 1,
        value: 0,
    };
    assert!(bc.broadcast(&no_subs).is_empty());
}

#[test]
fn stub_hello_still_works() {
    assert_eq!(stub::hello(), "hello from fleet-midi");
}
