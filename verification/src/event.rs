//! The event envelope shared by everything on the fleet bus, and the MIDI
//! messages as one family of events.

use vstd::prelude::*;

use crate::event_types;
use crate::midi::MidiMessage;

verus! {

/// Maximum bytes carried inline in an [`Event`] payload.
///
/// Enough for a serialized [`Context`](crate::Context) frame (23 bytes) plus a
/// small margin.
pub const MAX_INLINE_PAYLOAD: usize = 32;

/// A generalized, typed event on the fleet bus.
///
/// Every event, regardless of type, carries an `event_type`, a timestamp, a
/// source id, a sequence number, and a small bounded inline payload.
#[derive(Debug, Clone, PartialEq, Eq)]
pub struct Event {
    pub event_type: u16,
    pub event_time: i64,
    pub source_id: u16,
    pub seq: u32,
    pub payload_len: u8,
    pub payload: [u8; MAX_INLINE_PAYLOAD],
}

/// The longest prefix of `bytes` that fits inline.
pub open spec fn inline_part(bytes: Seq<u8>) -> Seq<u8> {
    if bytes.len() <= MAX_INLINE_PAYLOAD {
        bytes
    } else {
        bytes.take(MAX_INLINE_PAYLOAD as int)
    }
}

/// `bytes`, filled up with zeros to the size of the inline payload.
pub open spec fn zero_padded(bytes: Seq<u8>) -> Seq<u8> {
    Seq::new(
        MAX_INLINE_PAYLOAD as nat,
        |i: int|
            if i < bytes.len() {
                bytes[i]
            } else {
                0
            },
    )
}

impl Event {
    /// The bytes of the payload in use.
    pub open spec fn inline(self) -> Seq<u8> {
        self.payload@.take(self.payload_len as int)
    }

    /// The payload's length is within bounds, and what lies behind it is zero.
    pub open spec fn wf(self) -> bool {
        &&& self.payload_len <= MAX_INLINE_PAYLOAD
        &&& self.payload@ == zero_padded(self.inline())
    }

    /// Create an event with no payload.
    pub fn new(event_type: u16, event_time: i64, source_id: u16, seq: u32) -> (res: Self)
        ensures
            res.event_type == event_type,
            res.event_time == event_time,
            res.source_id == source_id,
            res.seq == seq,
            res.payload_len == 0,
            forall|i: int| 0 <= i < 32 ==> #[trigger] res.payload@[i] == 0,
            res.inline() == Seq::<u8>::empty(),
            res.wf(),
    {
        let res = Event {
            event_type,
            event_time,
            source_id,
            seq,
            payload_len: 0,
            payload: [0;MAX_INLINE_PAYLOAD],
        };
        assert(res.payload@ =~= zero_padded(res.inline()));
        res
    }

    /// Return the active slice of the inline payload.
    pub fn payload(&self) -> (res: &[u8])
        requires
            self.payload_len <= MAX_INLINE_PAYLOAD,
        ensures
            res@ == self.inline(),
            res@.len() == self.payload_len,
            forall|i: int| 0 <= i < self.payload_len ==> #[trigger] res@[i] == self.payload@[i],
    {
        let all: &[u8] = self.payload.as_slice();
        vstd::slice::slice_subrange(all, 0, self.payload_len as usize)
    }

    /// Set the inline payload, truncating to [`MAX_INLINE_PAYLOAD`].
    pub fn set_payload(&mut self, bytes: &[u8])
        ensures
            final(self).event_type == old(self).event_type,
            final(self).event_time == old(self).event_time,
            final(self).source_id == old(self).source_id,
            final(self).seq == old(self).seq,
            final(self).payload_len == inline_part(bytes@).len(),
            final(self).payload_len == (if bytes@.len() < 32 {
                bytes@.len()
            } else {
                32
            }),
            forall|i: int|
                0 <= i < 32 ==> #[trigger] final(self).payload@[i] == (if i < bytes@.len() {
                    bytes@[i]
                } else {
                    0
                }),
            final(self).inline() == inline_part(bytes@),
            final(self).wf(),
    {
        let len: usize = if bytes.len() < MAX_INLINE_PAYLOAD {
            bytes.len()
        } else {
            MAX_INLINE_PAYLOAD
        };
        self.payload_len = len as u8;
        let mut i: usize = 0;
        while i < MAX_INLINE_PAYLOAD
            invariant
                i <= MAX_INLINE_PAYLOAD,
                len == inline_part(bytes@).len(),
                len <= bytes@.len(),
                self.event_type == old(self).event_type,
                self.event_time == old(self).event_time,
                self.source_id == old(self).source_id,
                self.seq == old(self).seq,
                self.payload_len == len,
                forall|k: int|
                    0 <= k < i ==> self.payload@[k] == #[trigger] zero_padded(
                        inline_part(bytes@),
                    )[k],
            decreases MAX_INLINE_PAYLOAD - i,
        {
            self.payload[i] = if i < len {
                bytes[i]
            } else {
                0
            };
            i += 1;
        }
        assert(self.payload@ =~= zero_padded(inline_part(bytes@)));
        assert(self.inline() =~= inline_part(bytes@));
    }
}

/// The event type of a MIDI message.
pub open spec fn midi_event_type(msg: MidiMessage) -> u16 {
    match msg {
        MidiMessage::NoteOn { .. } => event_types::MIDI_NOTE_ON,
        MidiMessage::NoteOff { .. } => event_types::MIDI_NOTE_OFF,
        MidiMessage::ControlChange { .. } => event_types::MIDI_CONTROL_CHANGE,
        MidiMessage::PitchBend { .. } => event_types::MIDI_PITCH_BEND,
        MidiMessage::ProgramChange { .. } => event_types::MIDI_PROGRAM_CHANGE,
    }
}

/// The payload of a MIDI message. Of a pitch bend the low fourteen bits are
/// carried, the lower seven first.
pub open spec fn midi_payload(msg: MidiMessage) -> Seq<u8> {
    match msg {
        MidiMessage::NoteOn { channel, note, velocity } => seq![channel, note, velocity],
        MidiMessage::NoteOff { channel, note, velocity } => seq![channel, note, velocity],
        MidiMessage::ControlChange { channel, controller, value } => seq![
            channel,
            controller,
            value,
        ],
        MidiMessage::PitchBend { channel, value } => seq![
            channel,
            (value % 128) as u8,
            (value / 128 % 128) as u8,
        ],
        MidiMessage::ProgramChange { channel, program } => seq![channel, program],
    }
}

/// An inline payload that holds three bytes at most.
pub open spec fn short_payload(bytes: Seq<u8>) -> [u8; MAX_INLINE_PAYLOAD] {
    let p = zero_padded(bytes);
    [
        p[0], p[1], p[2], 0, 0, 0, 0, 0, 0, 0, 0, 0, 0, 0, 0, 0,
        0, 0, 0, 0, 0, 0, 0, 0, 0, 0, 0, 0, 0, 0, 0, 0,
    ]
}

impl vstd::std_specs::convert::FromSpecImpl<MidiMessage> for Event {
    open spec fn obeys_from_spec() -> bool {
        true
    }

    open spec fn from_spec(msg: MidiMessage) -> Event {
        Event {
            event_type: midi_event_type(msg),
            event_time: 0,
            source_id: 0,
            seq: 0,
            payload_len: midi_payload(msg).len() as u8,
            payload: short_payload(midi_payload(msg)),
        }
    }
}

impl From<MidiMessage> for Event {
    fn from(msg: MidiMessage) -> (res: Self)
        ensures
            res.wf(),
            res.event_type == midi_event_type(msg),
            res.inline() == midi_payload(msg),
    {
        let mut ev = Event::new(0, 0, 0, 0);
        match msg {
            MidiMessage::NoteOn { channel, note, velocity } => {
                ev.event_type = event_types::MIDI_NOTE_ON;
                ev.set_payload(&[channel, note, velocity]);
            },
            MidiMessage::NoteOff { channel, note, velocity } => {
                ev.event_type = event_types::MIDI_NOTE_OFF;
                ev.set_payload(&[channel, note, velocity]);
            },
            MidiMessage::ControlChange { channel, controller, value } => {
                ev.event_type = event_types::MIDI_CONTROL_CHANGE;
                ev.set_payload(&[channel, controller, value]);
            },
            MidiMessage::PitchBend { channel, value } => {
                ev.event_type = event_types::MIDI_PITCH_BEND;
                let lsb = (value & 0x7F) as u8;
                let msb = ((value >> 7) & 0x7F) as u8;
                assert(value & 0x7F == value % 128 && (value >> 7) & 0x7F == value / 128 % 128)
                    by (bit_vector);
                ev.set_payload(&[channel, lsb, msb]);
            },
            MidiMessage::ProgramChange { channel, program } => {
                ev.event_type = event_types::MIDI_PROGRAM_CHANGE;
                ev.set_payload(&[channel, program]);
            },
        }
        assert(ev.inline() =~= midi_payload(msg));
        assert(ev.payload =~= short_payload(midi_payload(msg)));
        ev
    }
}

/// Errors when converting an [`Event`] back into a [`MidiMessage`].
#[derive(Debug, Clone, PartialEq, Eq)]
pub enum MidiConversionError {
    NotMidiEventType(u16),
    PayloadTooShort { expected: u8, got: u8 },
}

/// The number of payload bytes that a MIDI event type needs; `None` for a type
/// outside the MIDI family.
pub open spec fn midi_payload_len(event_type: u16) -> Option<u8> {
    if event_type == event_types::MIDI_PROGRAM_CHANGE {
        Some(2)
    } else if event_types::MIDI_NOTE_ON <= event_type <= event_types::MIDI_PITCH_BEND {
        Some(3)
    } else {
        None
    }
}

/// The MIDI message in an event of the MIDI family with enough payload.
pub open spec fn midi_message_of(event_type: u16, b: Seq<u8>) -> MidiMessage {
    if event_type == event_types::MIDI_NOTE_ON {
        MidiMessage::NoteOn { channel: b[0], note: b[1], velocity: b[2] }
    } else if event_type == event_types::MIDI_NOTE_OFF {
        MidiMessage::NoteOff { channel: b[0], note: b[1], velocity: b[2] }
    } else if event_type == event_types::MIDI_CONTROL_CHANGE {
        MidiMessage::ControlChange { channel: b[0], controller: b[1], value: b[2] }
    } else if event_type == event_types::MIDI_PITCH_BEND {
        MidiMessage::PitchBend { channel: b[0], value: ((b[2] as u16) << 7) | (b[1] as u16) }
    } else {
        MidiMessage::ProgramChange { channel: b[0], program: b[1] }
    }
}

impl vstd::std_specs::convert::TryFromSpecImpl<Event> for MidiMessage {
    open spec fn obeys_try_from_spec() -> bool {
        true
    }

    open spec fn try_from_spec(ev: Event) -> Result<MidiMessage, MidiConversionError> {
        match midi_payload_len(ev.event_type) {
            None => Err(MidiConversionError::NotMidiEventType(ev.event_type)),
            Some(expected) => if ev.payload_len < expected {
                Err(MidiConversionError::PayloadTooShort { expected, got: ev.payload_len })
            } else {
                Ok(midi_message_of(ev.event_type, ev.payload@))
            },
        }
    }
}

/// Checks that a payload of `got` bytes has the `expected` bytes.
fn need(got: u8, expected: u8) -> (res: Result<(), MidiConversionError>)
    ensures
        res == (if got >= expected {
            Ok(())
        } else {
            Err(MidiConversionError::PayloadTooShort { expected, got })
        }),
{
    if got >= expected {
        Ok(())
    } else {
        Err(MidiConversionError::PayloadTooShort { expected, got })
    }
}

impl TryFrom<Event> for MidiMessage {
    type Error = MidiConversionError;

    fn try_from(ev: Event) -> (res: Result<Self, MidiConversionError>) {
        let b = &ev.payload;
        match ev.event_type {
            event_types::MIDI_NOTE_ON => {
                need(ev.payload_len, 3)?;
                Ok(MidiMessage::NoteOn { channel: b[0], note: b[1], velocity: b[2] })
            },
            event_types::MIDI_NOTE_OFF => {
                need(ev.payload_len, 3)?;
                Ok(MidiMessage::NoteOff { channel: b[0], note: b[1], velocity: b[2] })
            },
            event_types::MIDI_CONTROL_CHANGE => {
                need(ev.payload_len, 3)?;
                Ok(MidiMessage::ControlChange { channel: b[0], controller: b[1], value: b[2] })
            },
            event_types::MIDI_PITCH_BEND => {
                need(ev.payload_len, 3)?;
                let value = ((b[2] as u16) << 7) | (b[1] as u16);
                Ok(MidiMessage::PitchBend { channel: b[0], value })
            },
            event_types::MIDI_PROGRAM_CHANGE => {
                need(ev.payload_len, 2)?;
                Ok(MidiMessage::ProgramChange { channel: b[0], program: b[1] })
            },
            other => Err(MidiConversionError::NotMidiEventType(other)),
        }
    }
}

/// A MIDI message turned into an event and back is the same message, if its
/// pitch bend, where it is one, is of fourteen bits.
pub proof fn law_midi_message_survives_its_event(msg: MidiMessage)
    requires
        match msg {
            MidiMessage::PitchBend { value, .. } => value < 16384,
            _ => true,
        },
    ensures
        <MidiMessage as vstd::std_specs::convert::TryFromSpec<Event>>::try_from_spec(
            <Event as vstd::std_specs::convert::FromSpec<MidiMessage>>::from_spec(msg),
        ) == Ok::<MidiMessage, MidiConversionError>(msg),
{
    let event = <Event as vstd::std_specs::convert::FromSpec<MidiMessage>>::from_spec(msg);
    let bytes = midi_payload(msg);
    assert(event.payload@[0] == zero_padded(bytes)[0]);
    assert(event.payload@[1] == zero_padded(bytes)[1]);
    assert(event.payload@[2] == zero_padded(bytes)[2]);
    if let MidiMessage::PitchBend { value, .. } = msg {
        let lsb = (value % 128) as u8;
        let msb = (value / 128 % 128) as u8;
        assert(((msb as u16) << 7) | (lsb as u16) == value) by (bit_vector)
            requires
                value < 16384,
                lsb == value % 128,
                msb == value / 128 % 128,
        ;
    }
}

/// Every message that is parsed out of a MIDI byte stream survives being turned
/// into an event.
pub proof fn law_parsed_message_survives_its_event(bytes: Seq<u8>, i: int)
    requires
        0 <= i < crate::midi::messages_in(bytes).len(),
    ensures
        <MidiMessage as vstd::std_specs::convert::TryFromSpec<Event>>::try_from_spec(
            <Event as vstd::std_specs::convert::FromSpec<MidiMessage>>::from_spec(
                crate::midi::messages_in(bytes)[i],
            ),
        ) == Ok::<MidiMessage, MidiConversionError>(crate::midi::messages_in(bytes)[i]),
{
    crate::midi::laws::law_messages_are_in_range(crate::midi::ParserView::initial(), bytes);
    law_midi_message_survives_its_event(crate::midi::messages_in(bytes)[i]);
}

/// What a payload is set to is cut off after its first 32 bytes, and what is left of the
/// room behind it is zero.
pub proof fn law_payload_is_cut_off(bytes: Seq<u8>, i: int)
    requires
        0 <= i < 32,
    ensures
        inline_part(bytes).len() == (if bytes.len() < 32 {
            bytes.len()
        } else {
            32
        }),
        i < bytes.len() ==> inline_part(bytes)[i] == bytes[i],
        zero_padded(inline_part(bytes)).len() == 32,
        zero_padded(inline_part(bytes))[i] == (if i < bytes.len() {
            bytes[i]
        } else {
            0
        }),
{
}

/// Whether an event has a type, no time, source or number yet, and a payload of just
/// these bytes, with zeros behind it.
pub open spec fn is_bare_event(event: Event, event_type: u16, bytes: Seq<u8>) -> bool {
    &&& event.event_type == event_type
    &&& event.event_time == 0
    &&& event.source_id == 0
    &&& event.seq == 0
    &&& event.payload_len == bytes.len()
    &&& forall|i: int|
        0 <= i < 32 ==> #[trigger] event.payload@[i] == (if i < bytes.len() {
            bytes[i]
        } else {
            0
        })
}

/// The event of a MIDI message has the type of its kind of message, and holds the
/// channel and then the data of the message, of a pitch bend the lowest seven bits and then
/// the seven above them.
pub proof fn law_midi_events_hold_their_message(
    channel: u8,
    first: u8,
    second: u8,
    low: u8,
    high: u8,
    rest: u8,
)
    requires
        low < 0x80,
        high < 0x80,
        rest < 4,
    ensures
        is_bare_event(
            <Event as vstd::std_specs::convert::FromSpec<MidiMessage>>::from_spec(
                MidiMessage::NoteOn { channel, note: first, velocity: second },
            ),
            0x0010,
            seq![channel, first, second],
        ),
        is_bare_event(
            <Event as vstd::std_specs::convert::FromSpec<MidiMessage>>::from_spec(
                MidiMessage::NoteOff { channel, note: first, velocity: second },
            ),
            0x0011,
            seq![channel, first, second],
        ),
        is_bare_event(
            <Event as vstd::std_specs::convert::FromSpec<MidiMessage>>::from_spec(
                MidiMessage::ControlChange { channel, controller: first, value: second },
            ),
            0x0012,
            seq![channel, first, second],
        ),
        is_bare_event(
            <Event as vstd::std_specs::convert::FromSpec<MidiMessage>>::from_spec(
                MidiMessage::PitchBend {
                    channel,
                    value: (low + 0x80 * high + 0x4000 * rest) as u16,
                },
            ),
            0x0013,
            seq![channel, low, high],
        ),
        is_bare_event(
            <Event as vstd::std_specs::convert::FromSpec<MidiMessage>>::from_spec(
                MidiMessage::ProgramChange { channel, program: first },
            ),
            0x0014,
            seq![channel, first],
        ),
{
    let value = low + 0x80 * high + 0x4000 * rest;
    assert(value % 128 == low && value / 128 % 128 == high);
    lemma_short_payload(seq![channel, first, second]);
    lemma_short_payload(seq![channel, low, high]);
    lemma_short_payload(seq![channel, first]);
}

/// The bytes of a short payload.
proof fn lemma_short_payload(bytes: Seq<u8>)
    requires
        bytes.len() <= 3,
    ensures
        forall|i: int|
            0 <= i < 32 ==> #[trigger] short_payload(bytes)@[i] == (if i < bytes.len() {
                bytes[i]
            } else {
                0
            }),
{
    assert(short_payload(bytes)@ =~= zero_padded(bytes));
}

/// An event is taken for the MIDI message of its type, with the channel and the data
/// that its payload begins with; a payload that is too short for its type is an error
/// that says how long it is and how long it should be, and so is any other type, which
/// the error names.
pub proof fn law_events_are_taken_for_midi(event: Event)
    ensures
        ({
            let res = <MidiMessage as vstd::std_specs::convert::TryFromSpec<
                Event,
            >>::try_from_spec(event);
            let b = event.payload@;
            let n = event.payload_len;
            let t = event.event_type;
            &&& t == 0x0010 && n >= 3 ==> res == Ok::<MidiMessage, MidiConversionError>(
                MidiMessage::NoteOn { channel: b[0], note: b[1], velocity: b[2] },
            )
            &&& t == 0x0011 && n >= 3 ==> res == Ok::<MidiMessage, MidiConversionError>(
                MidiMessage::NoteOff { channel: b[0], note: b[1], velocity: b[2] },
            )
            &&& t == 0x0012 && n >= 3 ==> res == Ok::<MidiMessage, MidiConversionError>(
                MidiMessage::ControlChange { channel: b[0], controller: b[1], value: b[2] },
            )
            &&& t == 0x0013 && n >= 3 ==> res == Ok::<MidiMessage, MidiConversionError>(
                MidiMessage::PitchBend {
                    channel: b[0],
                    value: (if b[1] < 0x80 || b[2] % 2 == 0 {
                        b[1] + 0x80 * b[2]
                    } else {
                        b[1] + 0x80 * (b[2] - 1)
                    }) as u16,
                },
            )
            &&& t == 0x0014 && n >= 2 ==> res == Ok::<MidiMessage, MidiConversionError>(
                MidiMessage::ProgramChange { channel: b[0], program: b[1] },
            )
            &&& 0x0010 <= t <= 0x0013 && n < 3 ==> res == Err::<MidiMessage, MidiConversionError>(
                MidiConversionError::PayloadTooShort { expected: 3, got: n },
            )
            &&& t == 0x0014 && n < 2 ==> res == Err::<MidiMessage, MidiConversionError>(
                MidiConversionError::PayloadTooShort { expected: 2, got: n },
            )
            &&& t < 0x0010 || t > 0x0014 ==> res == Err::<MidiMessage, MidiConversionError>(
                MidiConversionError::NotMidiEventType(t),
            )
        }),
{
    let (low, high) = (event.payload@[1], event.payload@[2]);
    assert(((high as u16) << 7) | (low as u16) == (if low < 0x80 || high % 2 == 0 {
        low as u16 + 0x80 * high as u16
    } else {
        low as u16 + 0x80 * (high as u16 - 1)
    })) by (bit_vector);
}

} // verus!
