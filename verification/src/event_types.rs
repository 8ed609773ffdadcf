//! Reserved `event_type` values.

use vstd::prelude::*;

verus! {

/// Context frame: vessel + GPS fix + clock anchor.
pub const CONTEXT: u16 = 0x0001;

// 0x0010..=0x00FF are reserved for generalized MIDI-compatible events.
/// MIDI Note On.
pub const MIDI_NOTE_ON: u16 = 0x0010;

/// MIDI Note Off.
pub const MIDI_NOTE_OFF: u16 = 0x0011;

/// MIDI Control Change.
pub const MIDI_CONTROL_CHANGE: u16 = 0x0012;

/// MIDI Pitch Bend.
pub const MIDI_PITCH_BEND: u16 = 0x0013;

/// MIDI Program Change.
pub const MIDI_PROGRAM_CHANGE: u16 = 0x0014;

/// The numbers of the reserved types: that of context frames, and those of the MIDI
/// family, in a row.
pub proof fn law_reserved_types()
    ensures
        CONTEXT == 1,
        MIDI_NOTE_ON == 16,
        MIDI_NOTE_OFF == 17,
        MIDI_CONTROL_CHANGE == 18,
        MIDI_PITCH_BEND == 19,
        MIDI_PROGRAM_CHANGE == 20,
{
}

} // verus!
