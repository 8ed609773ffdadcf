//! MIDI message parsing, a typed fleet event bus and its columnar persistence.

pub mod big_endian;
pub mod broadcast;
pub mod context;
pub mod decimal;
pub mod envelope;
pub mod event;
pub mod event_types;
pub mod midi;
pub mod persist;
pub mod stub;

pub use broadcast::FleetBroadcaster;
pub use context::{Context, EventRouter};
pub use envelope::{decode_event, encode_event};
pub use event::{Event, MidiConversionError, MAX_INLINE_PAYLOAD};
pub use midi::{parse_midi_byte, parse_midi_slice, MidiMessage, ParserState};
