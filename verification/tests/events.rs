//! Events: MIDI messages as events, and the inherited context.

use fleet_midi::context::CONTEXT_PAYLOAD_LEN;
use fleet_midi::{event_types, Context, Event, EventRouter, MidiConversionError, MidiMessage};

#[test]
fn midi_note_on_round_trips_through_event() {
    let msg = MidiMessage::NoteOn {
        channel: 3,
        note: 60,
        velocity: 64,
    };
    let ev: Event = msg.clone().into();
    assert_eq!(ev.event_type, event_types::MIDI_NOTE_ON);
    assert_eq!(ev.event_time, 0);
    assert_eq!(ev.source_id, 0);
    assert_eq!(ev.payload_len, 3);
    assert_eq!(ev.payload()[..], [3, 60, 64]);
    let back: MidiMessage = ev.try_into().unwrap();
    assert_eq!(back, msg);
}

#[test]
fn midi_note_off_round_trips_through_event() {
    let msg = MidiMessage::NoteOff {
        channel: 5,
        note: 48,
        velocity: 32,
    };
    let ev: Event = msg.clone().into();
    assert_eq!(ev.event_type, event_types::MIDI_NOTE_OFF);
    assert_eq!(ev.payload()[..], [5, 48, 32]);
    let back: MidiMessage = ev.try_into().unwrap();
    assert_eq!(back, msg);
}

#[test]
fn midi_control_change_round_trips_through_event() {
    let msg = MidiMessage::ControlChange {
        channel: 2,
        controller: 1,
        value: 127,
    };
    let ev: Event = msg.clone().into();
    assert_eq!(ev.event_type, event_types::MIDI_CONTROL_CHANGE);
    let back: MidiMessage = ev.try_into().unwrap();
    assert_eq!(back, msg);
}

#[test]
fn midi_pitch_bend_round_trips_through_event() {
    let msg = MidiMessage::PitchBend {
        channel: 4,
        value: 0x0934,
    };
    let ev: Event = msg.clone().into();
    assert_eq!(ev.event_type, event_types::MIDI_PITCH_BEND);
    assert_eq!(ev.payload()[..], [4, 0x34, 0x12]);
    let back: MidiMessage = ev.try_into().unwrap();
    assert_eq!(back, msg);
}

#[test]
fn midi_program_change_round_trips_through_event() {
    let msg = MidiMessage::ProgramChange {
        channel: 7,
        program: 42,
    };
    let ev: Event = msg.clone().into();
    assert_eq!(ev.event_type, event_types::MIDI_PROGRAM_CHANGE);
    let back: MidiMessage = ev.try_into().unwrap();
    assert_eq!(back, msg);
}

#[test]
fn non_midi_event_does_not_convert_to_midi() {
    let ev = Event::new(event_types::CONTEXT, 0, 0, 0);
    assert_eq!(
        MidiMessage::try_from(ev).unwrap_err(),
        MidiConversionError::NotMidiEventType(event_types::CONTEXT)
    );
}

#[test]
fn context_event_serializes_and_deserializes() {
    let ctx = Context::new(
        42,
        1_000_000_000_000,
        600_000_000_i32,
        -1_200_000_000_i32,
        150,
        3,
    );
    let ev = Event::from_context(ctx, 1_000_000_000_100, 7, 1);
    assert_eq!(ev.event_type, event_types::CONTEXT);
    assert_eq!(ev.event_time, 1_000_000_000_100);
    assert_eq!(ev.source_id, 7);
    assert_eq!(ev.seq, 1);
    assert_eq!(ev.payload_len, CONTEXT_PAYLOAD_LEN as u8);
    assert_eq!(ev.as_context(), Some(ctx));
}

#[test]
fn event_before_any_context_has_no_context() {
    let mut router = EventRouter::new();
    let ev = Event::new(event_types::MIDI_NOTE_ON, 100, 5, 1);
    assert_eq!(router.current_context(), None);
    assert_eq!(router.handle_event(&ev), None);
}

#[test]
fn event_inherits_last_context() {
    let mut router = EventRouter::new();

    let ctx = Context::new(
        42,
        1_000_000_000_000,
        600_000_000_i32,
        -1_200_000_000_i32,
        150,
        3,
    );
    router.broadcast_context(ctx);

    let ev = Event::new(event_types::MIDI_NOTE_ON, 1_000_000_000_100, 5, 10);
    let resolved = router.handle_event(&ev);
    assert_eq!(resolved, Some(ctx));
    assert_eq!(resolved.unwrap().vessel_id, 42);
}

#[test]
fn context_updates_are_inherited_by_later_events() {
    let mut router = EventRouter::new();

    let ctx1 = Context::new(1, 100, 100_000_000, 200_000_000, 50, 1);
    router.broadcast_context(ctx1);

    let ev = Event::new(event_types::MIDI_CONTROL_CHANGE, 150, 2, 3);
    assert_eq!(router.handle_event(&ev), Some(ctx1));

    let ctx2 = Context::new(2, 200, -300_000_000, 400_000_000, 75, 2);
    router.broadcast_context(ctx2);

    let ev2 = Event::new(event_types::MIDI_NOTE_OFF, 250, 2, 4);
    assert_eq!(router.handle_event(&ev2), Some(ctx2));
    assert_ne!(ctx1, ctx2);
}

#[test]
fn context_event_also_updates_inherited_context() {
    let mut router = EventRouter::new();

    let ctx = Context::new(99, 500, 100, 200, 10, 0);
    let ctx_event = Event::from_context(ctx, 500, 0, 0);
    assert_eq!(router.handle_event(&ctx_event), Some(ctx));

    let ev = Event::new(event_types::MIDI_PITCH_BEND, 600, 1, 5);
    assert_eq!(router.handle_event(&ev), Some(ctx));
}
