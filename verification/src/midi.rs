//! MIDI channel messages and the byte-level parser that produces them.
//!
//! A MIDI stream has no framing. A byte with bit 7 set is a status byte: its
//! high nibble says which message follows and its low nibble on which channel.
//! A byte with bit 7 clear is data. The parser keeps the last supported status
//! byte, so that data bytes may follow one another without repeating it
//! ("running status").

use vstd::prelude::*;

pub mod laws;

verus! {

/// A parsed MIDI channel message.
#[derive(Debug, Clone, PartialEq, Eq)]
pub enum MidiMessage {
    NoteOn { channel: u8, note: u8, velocity: u8 },
    NoteOff { channel: u8, note: u8, velocity: u8 },
    ControlChange { channel: u8, controller: u8, value: u8 },
    PitchBend { channel: u8, value: u16 },
    ProgramChange { channel: u8, program: u8 },
}

impl MidiMessage {
    /// The channel a message speaks on.
    pub open spec fn spec_channel(self) -> u8 {
        match self {
            MidiMessage::NoteOn { channel, .. } => channel,
            MidiMessage::NoteOff { channel, .. } => channel,
            MidiMessage::ControlChange { channel, .. } => channel,
            MidiMessage::PitchBend { channel, .. } => channel,
            MidiMessage::ProgramChange { channel, .. } => channel,
        }
    }

    /// Whether every field fits the bits that the wire format has for it: four
    /// for a channel, seven for a data byte, fourteen for a pitch bend.
    pub open spec fn in_wire_range(self) -> bool {
        &&& self.spec_channel() < 16
        &&& match self {
            MidiMessage::NoteOn { note, velocity, .. } => note < 128 && velocity < 128,
            MidiMessage::NoteOff { note, velocity, .. } => note < 128 && velocity < 128,
            MidiMessage::ControlChange { controller, value, .. } => controller < 128 && value < 128,
            MidiMessage::PitchBend { value, .. } => value < 16384,
            MidiMessage::ProgramChange { program, .. } => program < 128,
        }
    }

    /// Whether this is a note-on that conventionally means note-off.
    pub open spec fn is_silent_note_on(self) -> bool {
        self matches MidiMessage::NoteOn { velocity, .. } && velocity == 0
    }

    /// Returns the MIDI channel (0–15) associated with the message.
    pub fn channel(&self) -> (res: u8)
        ensures
            res == self.spec_channel(),
    {
        match self {
            MidiMessage::NoteOn { channel, .. } => *channel,
            MidiMessage::NoteOff { channel, .. } => *channel,
            MidiMessage::ControlChange { channel, .. } => *channel,
            MidiMessage::PitchBend { channel, .. } => *channel,
            MidiMessage::ProgramChange { channel, .. } => *channel,
        }
    }
}

/// The number of data bytes that follow a supported channel status byte; `None`
/// for every other byte.
pub open spec fn data_len(status: u8) -> Option<usize> {
    let kind = status / 16;
    if kind == 0x8 || kind == 0x9 || kind == 0xB || kind == 0xE {
        Some(2)
    } else if kind == 0xC {
        Some(1)
    } else {
        None
    }
}

/// The message that a supported status byte makes with its data bytes.
pub open spec fn message(status: u8, data: Seq<u8>) -> MidiMessage
    recommends
        data_len(status) == Some(data.len() as usize),
{
    let kind = status / 16;
    let channel = status % 16;
    if kind == 0x9 && data[1] != 0 {
        MidiMessage::NoteOn { channel, note: data[0], velocity: data[1] }
    } else if kind == 0x8 || kind == 0x9 {
        MidiMessage::NoteOff { channel, note: data[0], velocity: data[1] }
    } else if kind == 0xB {
        MidiMessage::ControlChange { channel, controller: data[0], value: data[1] }
    } else if kind == 0xE {
        MidiMessage::PitchBend { channel, value: (data[1] * 128 + data[0]) as u16 }
    } else {
        MidiMessage::ProgramChange { channel, program: data[0] }
    }
}

/// What a parser knows between two bytes.
pub struct ParserView {
    /// The status byte that the next data byte belongs to.
    pub status: Option<u8>,
    /// The data bytes of the message in progress.
    pub pending: Seq<u8>,
}

impl ParserView {
    /// A parser that has seen nothing.
    pub open spec fn initial() -> ParserView {
        ParserView { status: None, pending: Seq::empty() }
    }

    /// Data is pending only under a supported status, and only while the
    /// message is incomplete.
    pub open spec fn wf(self) -> bool {
        &&& match self.status {
            Some(status) => data_len(status) is Some && self.pending.len() < data_len(status)->0,
            None => self.pending.len() == 0,
        }
        &&& forall|i: int| 0 <= i < self.pending.len() ==> self.pending[i] < 128
    }
}

/// One step of the parser: the state after `byte`, and the message that `byte`
/// completes, if it completes one.
pub open spec fn feed(state: ParserView, byte: u8) -> (ParserView, Option<MidiMessage>) {
    if byte >= 0xF8 {
        // A system real-time byte may stand anywhere and disturbs nothing.
        (state, None)
    } else if byte >= 0x80 {
        // Any other status byte drops what is pending and becomes the running
        // status, or cancels it where it is not supported.
        let status = if data_len(byte) is Some { Some(byte) } else { None };
        (ParserView { status, pending: Seq::empty() }, None)
    } else {
        match state.status {
            None => (state, None),
            Some(status) => {
                let data = state.pending.push(byte);
                if data.len() < data_len(status)->0 {
                    (ParserView { status: state.status, pending: data }, None)
                } else {
                    (
                        ParserView { status: state.status, pending: Seq::empty() },
                        Some(message(status, data)),
                    )
                }
            },
        }
    }
}

/// The state after a stretch of bytes, and the messages completed on the way.
pub open spec fn feed_all(state: ParserView, bytes: Seq<u8>) -> (ParserView, Seq<MidiMessage>)
    decreases bytes.len(),
{
    if bytes.len() == 0 {
        (state, Seq::empty())
    } else {
        let (before, messages) = feed_all(state, bytes.drop_last());
        let (after, completed) = feed(before, bytes.last());
        match completed {
            Some(m) => (after, messages.push(m)),
            None => (after, messages),
        }
    }
}

/// The messages in a byte stream that starts with nothing known.
pub open spec fn messages_in(bytes: Seq<u8>) -> Seq<MidiMessage> {
    feed_all(ParserView::initial(), bytes).1
}

/// Byte-level parsing state for a MIDI byte stream.
#[derive(Debug, Clone)]
pub struct ParserState {
    last_status: Option<u8>,
    pending: Vec<u8>,
}

impl View for ParserState {
    type V = ParserView;

    closed spec fn view(&self) -> ParserView {
        ParserView { status: self.last_status, pending: self.pending@ }
    }
}

impl Default for ParserState {
    fn default() -> (res: Self)
        ensures
            res@ == ParserView::initial(),
            res@.wf(),
    {
        ParserState { last_status: None, pending: Vec::new() }
    }
}

/// The nibbles of a byte, by arithmetic and by masks.
proof fn lemma_nibbles(byte: u8)
    ensures
        byte & 0xF0 == (byte / 16) * 16,
        byte & 0x0F == byte % 16,
        (byte & 0x80 != 0) == (byte >= 0x80),
{
    assert(byte & 0xF0 == (byte / 16) * 16 && byte & 0x0F == byte % 16) by (bit_vector);
    assert((byte & 0x80 != 0) == (byte >= 0x80)) by (bit_vector);
}

/// Returns the number of data bytes expected for a supported channel status byte.
pub fn data_byte_count(status: u8) -> (res: Option<usize>)
    ensures
        res == data_len(status),
{
    proof {
        lemma_nibbles(status);
    }
    match status & 0xF0 {
        0x80 | 0x90 | 0xB0 | 0xE0 => Some(2),
        0xC0 => Some(1),
        _ => None,
    }
}

/// Feed a single MIDI byte into the parser.
///
/// Returns a fully parsed `MidiMessage` once enough bytes have arrived,
/// or `None` while the message is still incomplete.
///
/// Implements running status: data bytes received while no new status
/// byte is pending reuse the most recent supported channel status byte.
///
/// Note-on messages with velocity `0` are normalized to `MidiMessage::NoteOff`,
/// matching the conventional MIDI interpretation of "velocity zero note-on"
/// as a note-off event.
pub fn parse_midi_byte(state: &mut ParserState, byte: u8) -> (res: Option<MidiMessage>)
    requires
        old(state)@.wf(),
    ensures
        (final(state)@, res) == feed(old(state)@, byte),
        final(state)@.wf(),
{
    proof {
        lemma_nibbles(byte);
    }
    if byte & 0x80 != 0 {
        if byte >= 0xF8 {
            return None;
        }
        state.pending.clear();
        state.last_status = match data_byte_count(byte) {
            Some(_) => Some(byte),
            None => None,
        };
        return None;
    }
    let status = match state.last_status {
        Some(status) => status,
        // No running status: a stray data byte is ignored.
        None => return None,
    };
    let count = match data_byte_count(status) {
        Some(count) => count,
        None => return None,
    };
    state.pending.push(byte);
    if state.pending.len() < count {
        return None;
    }
    proof {
        lemma_nibbles(status);
    }
    let channel = status & 0x0F;
    let first = state.pending[0];
    let msg = match status & 0xF0 {
        0x80 => MidiMessage::NoteOff { channel, note: first, velocity: state.pending[1] },
        0x90 => {
            if state.pending[1] == 0 {
                MidiMessage::NoteOff { channel, note: first, velocity: 0 }
            } else {
                MidiMessage::NoteOn { channel, note: first, velocity: state.pending[1] }
            }
        },
        0xB0 => MidiMessage::ControlChange { channel, controller: first, value: state.pending[1] },
        0xE0 => {
            let second = state.pending[1];
            assert(((second as u16) << 7) | (first as u16) == second * 128 + first)
                by (bit_vector)
                requires
                    first < 128,
                    second < 128,
            ;
            MidiMessage::PitchBend { channel, value: ((second as u16) << 7) | (first as u16) }
        },
        _ => MidiMessage::ProgramChange { channel, program: first },
    };
    state.pending.clear();
    Some(msg)
}

/// Parse a slice of MIDI bytes into complete messages.
///
/// Bytes that do not form a complete message by the end of the slice are
/// silently dropped.
pub fn parse_midi_slice(bytes: &[u8]) -> (res: Vec<MidiMessage>)
    ensures
        res@ == messages_in(bytes@),
{
    let mut state = ParserState::default();
    let mut messages: Vec<MidiMessage> = Vec::new();
    let mut i: usize = 0;
    assert(bytes@.take(0) =~= Seq::empty());
    while i < bytes.len()
        invariant
            i <= bytes@.len(),
            state@.wf(),
            feed_all(ParserView::initial(), bytes@.take(i as int)) == (state@, messages@),
        decreases bytes@.len() - i,
    {
        assert(bytes@.take(i + 1).drop_last() =~= bytes@.take(i as int));
        if let Some(msg) = parse_midi_byte(&mut state, bytes[i]) {
            messages.push(msg);
        }
        i += 1;
    }
    assert(bytes@.take(i as int) =~= bytes@);
    messages
}

} // verus!
