//! What holds of every MIDI byte stream.

use vstd::prelude::*;

use crate::midi;
use crate::midi::MidiMessage;

verus! {

/// The status byte of the wire form of a message.
pub open spec fn wire_status(m: MidiMessage) -> u8 {
    match m {
        MidiMessage::NoteOff { channel, .. } => (0x80 + channel) as u8,
        MidiMessage::NoteOn { channel, .. } => (0x90 + channel) as u8,
        MidiMessage::ControlChange { channel, .. } => (0xB0 + channel) as u8,
        MidiMessage::ProgramChange { channel, .. } => (0xC0 + channel) as u8,
        MidiMessage::PitchBend { channel, .. } => (0xE0 + channel) as u8,
    }
}

/// The data bytes of the wire form of a message. A pitch bend is sent with its
/// low seven bits first.
pub open spec fn wire_data(m: MidiMessage) -> Seq<u8> {
    match m {
        MidiMessage::NoteOff { note, velocity, .. } => seq![note, velocity],
        MidiMessage::NoteOn { note, velocity, .. } => seq![note, velocity],
        MidiMessage::ControlChange { controller, value, .. } => seq![controller, value],
        MidiMessage::ProgramChange { program, .. } => seq![program],
        MidiMessage::PitchBend { value, .. } => seq![(value % 128) as u8, (value / 128) as u8],
    }
}

/// The wire form of a message: its status byte, then its data bytes.
pub open spec fn wire_bytes(m: MidiMessage) -> Seq<u8> {
    seq![wire_status(m)] + wire_data(m)
}

/// The wire forms of a sequence of messages, one after the other.
pub open spec fn wire_stream(messages: Seq<MidiMessage>) -> Seq<u8>
    decreases messages.len(),
{
    if messages.len() == 0 {
        Seq::empty()
    } else {
        wire_stream(messages.drop_last()) + wire_bytes(messages.last())
    }
}

/// Whether every byte of a stretch is a data byte.
pub open spec fn all_data(bytes: Seq<u8>) -> bool {
    forall|i: int| 0 <= i < bytes.len() ==> #[trigger] bytes[i] < 128
}

/// A stream may be cut anywhere: parsing the first part and going on from
/// there with the second gives what parsing the whole gives.
pub proof fn law_stream_may_be_cut(state: midi::ParserView, first: Seq<u8>, second: Seq<u8>)
    ensures
        midi::feed_all(state, first + second) == ({
            let (middle, early) = midi::feed_all(state, first);
            let (end, late) = midi::feed_all(middle, second);
            (end, early + late)
        }),
    decreases second.len(),
{
    if second.len() == 0 {
        assert(first + second =~= first);
        let early = midi::feed_all(state, first).1;
        assert(early + Seq::<MidiMessage>::empty() =~= early);
    } else {
        law_stream_may_be_cut(state, first, second.drop_last());
        assert((first + second).drop_last() =~= first + second.drop_last());
        let (middle, early) = midi::feed_all(state, first);
        let (before, late) = midi::feed_all(middle, second.drop_last());
        if let Some(m) = midi::feed(before, second.last()).1 {
            assert((early + late).push(m) =~= early + late.push(m));
        }
    }
}

/// One more byte is one more step.
proof fn lemma_feed_one_more(state: midi::ParserView, bytes: Seq<u8>, byte: u8)
    ensures
        midi::feed_all(state, bytes.push(byte)) == ({
            let (before, messages) = midi::feed_all(state, bytes);
            let (after, completed) = midi::feed(before, byte);
            match completed {
                Some(m) => (after, messages.push(m)),
                None => (after, messages),
            }
        }),
{
    assert(bytes.push(byte).drop_last() =~= bytes);
}

/// A step keeps the state well-formed, and what it completes is in range.
proof fn lemma_feed_keeps_wf(state: midi::ParserView, byte: u8)
    requires
        state.wf(),
    ensures
        midi::feed(state, byte).0.wf(),
        midi::feed(state, byte).1 matches Some(m) ==> m.in_wire_range() && !m.is_silent_note_on(),
{
}

/// Every message that comes out of the parser fits the wire format's bits, and
/// none is a note-on of velocity zero.
pub proof fn law_messages_are_in_range(state: midi::ParserView, bytes: Seq<u8>)
    requires
        state.wf(),
    ensures
        midi::feed_all(state, bytes).0.wf(),
        forall|i: int|
            #![trigger midi::feed_all(state, bytes).1[i]]
            0 <= i < midi::feed_all(state, bytes).1.len() ==> midi::feed_all(
                state,
                bytes,
            ).1[i].in_wire_range() && !midi::feed_all(state, bytes).1[i].is_silent_note_on(),
    decreases bytes.len(),
{
    if bytes.len() > 0 {
        law_messages_are_in_range(state, bytes.drop_last());
        lemma_feed_keeps_wf(midi::feed_all(state, bytes.drop_last()).0, bytes.last());
        let (before, messages) = midi::feed_all(state, bytes.drop_last());
        assert forall|i: int|
            0 <= i < midi::feed_all(state, bytes).1.len() implies midi::feed_all(
            state,
            bytes,
        ).1[i].in_wire_range() && !midi::feed_all(state, bytes).1[i].is_silent_note_on() by {
            if i < messages.len() {
                assert(midi::feed_all(state, bytes).1[i] == messages[i]);
            }
        }
    }
}

/// A system real-time byte may stand anywhere in a stream, even inside a
/// message, and changes nothing.
pub proof fn law_real_time_bytes_are_transparent(
    state: midi::ParserView,
    first: Seq<u8>,
    byte: u8,
    second: Seq<u8>,
)
    requires
        byte >= 0xF8,
    ensures
        midi::feed_all(state, first.push(byte) + second) == midi::feed_all(state, first + second),
{
    lemma_feed_one_more(state, first, byte);
    law_stream_may_be_cut(state, first.push(byte), second);
    law_stream_may_be_cut(state, first, second);
}

/// Running status: where a message has just ended, repeating its status byte
/// changes nothing, so it may as well be left out.
pub proof fn law_running_status_may_be_left_out(
    state: midi::ParserView,
    first: Seq<u8>,
    status: u8,
    second: Seq<u8>,
)
    requires
        midi::data_len(status) is Some,
        midi::feed_all(state, first).0 == (midi::ParserView {
            status: Some(status),
            pending: Seq::empty(),
        }),
    ensures
        midi::feed_all(state, first.push(status) + second) == midi::feed_all(state, first + second),
{
    lemma_feed_one_more(state, first, status);
    law_stream_may_be_cut(state, first.push(status), second);
    law_stream_may_be_cut(state, first, second);
}

/// A system common byte cancels the running status: the data bytes after it
/// belong to no message.
pub proof fn law_system_common_cancels(state: midi::ParserView, byte: u8, data: Seq<u8>)
    requires
        0xF0 <= byte <= 0xF7,
        all_data(data),
    ensures
        midi::feed_all(state, seq![byte] + data) == (
            midi::ParserView::initial(),
            Seq::<MidiMessage>::empty(),
        ),
{
    let none = Seq::<MidiMessage>::empty();
    assert(Seq::<u8>::empty().push(byte) =~= seq![byte]);
    lemma_feed_one_more(state, Seq::empty(), byte);
    assert(midi::feed_all(state, Seq::<u8>::empty()).1 == none);
    law_stream_may_be_cut(state, seq![byte], data);
    law_stray_data_is_ignored(data);
    assert(none + none =~= none);
}

/// Data bytes that no status byte has gone before are ignored.
pub proof fn law_stray_data_is_ignored(data: Seq<u8>)
    requires
        all_data(data),
    ensures
        midi::feed_all(midi::ParserView::initial(), data) == (
            midi::ParserView::initial(),
            Seq::<MidiMessage>::empty(),
        ),
    decreases data.len(),
{
    if data.len() > 0 {
        law_stray_data_is_ignored(data.drop_last());
    }
}

/// A status byte followed by all its data bytes, whatever the parser was in the
/// middle of, is one message.
proof fn lemma_feed_whole_message(state: midi::ParserView, status: u8, data: Seq<u8>)
    requires
        midi::data_len(status) == Some(data.len() as usize),
        data.len() <= 2,
        all_data(data),
    ensures
        midi::feed_all(state, seq![status] + data) == (
            midi::ParserView { status: Some(status), pending: Seq::empty() },
            seq![midi::message(status, data)],
        ),
{
    let none = Seq::<MidiMessage>::empty();
    let start = Seq::<u8>::empty();
    assert(midi::feed_all(state, start) == (state, none));
    lemma_feed_one_more(state, start, status);
    let s1 = start.push(status);
    let at_status = midi::ParserView { status: Some(status), pending: Seq::<u8>::empty() };
    assert(midi::feed_all(state, s1) == (at_status, none));
    lemma_feed_one_more(state, s1, data[0]);
    assert(Seq::<u8>::empty().push(data[0])[0] == data[0]);
    if data.len() == 1 {
        assert(seq![status] + data =~= s1.push(data[0]));
        assert(at_status.pending.push(data[0]) =~= data);
        assert(none.push(midi::message(status, data)) =~= seq![midi::message(status, data)]);
    } else {
        lemma_feed_one_more(state, s1.push(data[0]), data[1]);
        assert(seq![status] + data =~= s1.push(data[0]).push(data[1]));
        assert(at_status.pending.push(data[0]).push(data[1]) =~= data);
        assert(none.push(midi::message(status, data)) =~= seq![midi::message(status, data)]);
    }
}

/// A message that breaks off before its last data byte is dropped: it adds
/// nothing to what came before it.
pub proof fn law_incomplete_message_is_dropped(
    state: midi::ParserView,
    first: Seq<u8>,
    status: u8,
    data: Seq<u8>,
)
    requires
        midi::data_len(status) is Some,
        data.len() < midi::data_len(status)->0,
        all_data(data),
    ensures
        midi::feed_all(state, first.push(status) + data).1 == midi::feed_all(state, first).1,
{
    let (middle, early) = midi::feed_all(state, first);
    lemma_feed_one_more(state, first, status);
    law_stream_may_be_cut(state, first.push(status), data);
    let none = Seq::<MidiMessage>::empty();
    let at_status = midi::ParserView { status: Some(status), pending: Seq::<u8>::empty() };
    assert(midi::feed_all(at_status, data).1 == none) by {
        if data.len() == 1 {
            assert(data =~= Seq::<u8>::empty().push(data[0]));
            lemma_feed_one_more(at_status, Seq::empty(), data[0]);
            assert(midi::feed_all(at_status, Seq::<u8>::empty()) == (at_status, none));
        }
    }
    assert(early + none =~= early);
}

/// Later bytes never take back or alter a message: what a stream has given so
/// far is a prefix of what any continuation of it gives.
pub proof fn law_messages_only_accumulate(first: Seq<u8>, second: Seq<u8>)
    ensures
        midi::messages_in(first).is_prefix_of(midi::messages_in(first + second)),
{
    law_stream_may_be_cut(midi::ParserView::initial(), first, second);
    let (middle, early) = midi::feed_all(midi::ParserView::initial(), first);
    let late = midi::feed_all(middle, second).1;
    assert((early + late).subrange(0, early.len() as int) =~= early);
}

/// The wire form of a message is parsed back into that message, whatever came
/// before it. A note-on of velocity zero is left out: it comes back as the
/// note-off that it means.
pub proof fn law_wire_form_parses_back(state: midi::ParserView, m: MidiMessage)
    requires
        m.in_wire_range(),
        !m.is_silent_note_on(),
    ensures
        midi::feed_all(state, wire_bytes(m)).1 == seq![m],
{
    lemma_feed_whole_message(state, wire_status(m), wire_data(m));
}

/// A note-on of velocity zero is parsed as the note-off that it means.
pub proof fn law_silent_note_on_is_note_off(state: midi::ParserView, channel: u8, note: u8)
    requires
        channel < 16,
        note < 128,
    ensures
        midi::feed_all(state, wire_bytes(MidiMessage::NoteOn { channel, note, velocity: 0 })).1
            == seq![MidiMessage::NoteOff { channel, note, velocity: 0 }],
{
    let m = MidiMessage::NoteOn { channel, note, velocity: 0 };
    lemma_feed_whole_message(state, wire_status(m), wire_data(m));
}

/// The wire forms of any messages, sent one after the other, are parsed back
/// into just those messages in their order.
pub proof fn law_wire_stream_parses_back(messages: Seq<MidiMessage>)
    requires
        forall|i: int|
            0 <= i < messages.len() ==> (#[trigger] messages[i]).in_wire_range()
                && !messages[i].is_silent_note_on(),
    ensures
        midi::messages_in(wire_stream(messages)) == messages,
    decreases messages.len(),
{
    if messages.len() > 0 {
        let rest = messages.drop_last();
        law_wire_stream_parses_back(rest);
        law_stream_may_be_cut(
            midi::ParserView::initial(),
            wire_stream(rest),
            wire_bytes(messages.last()),
        );
        law_wire_form_parses_back(
            midi::feed_all(midi::ParserView::initial(), wire_stream(rest)).0,
            messages.last(),
        );
        assert(rest + seq![messages.last()] =~= messages);
    }
}

/// Parsing a slice gives what feeding its bytes one by one gives, from a parser that
/// has seen nothing: the messages that the bytes complete, in the order of the bytes
/// that complete them.
pub proof fn law_slice_is_fed_byte_by_byte(states: Seq<midi::ParserView>, bytes: Seq<u8>)
    requires
        states.len() == bytes.len() + 1,
        states[0] == (midi::ParserView { status: None, pending: Seq::empty() }),
        forall|i: int|
            0 <= i < bytes.len() ==> midi::feed(states[i], #[trigger] bytes[i]).0 == states[i + 1],
    ensures
        midi::messages_in(bytes) == Seq::new(
            bytes.len(),
            |i: int| midi::feed(states[i], bytes[i]).1,
        ).filter(|m: Option<MidiMessage>| m is Some).map_values(|m: Option<MidiMessage>| m->0),
        midi::feed_all(states[0], bytes).0 == states.last(),
    decreases bytes.len(),
{
    reveal(Seq::filter);
    let is_some = |m: Option<MidiMessage>| m is Some;
    let value = |m: Option<MidiMessage>| m->0;
    let steps = Seq::new(bytes.len(), |i: int| midi::feed(states[i], bytes[i]).1);
    if bytes.len() == 0 {
        assert(midi::messages_in(bytes) =~= steps.filter(is_some).map_values(value));
    } else {
        let rest = bytes.drop_last();
        let before = states.drop_last();
        assert forall|i: int| 0 <= i < rest.len() implies midi::feed(before[i], #[trigger] rest[i]).0
            == before[i + 1] by {
            assert(rest[i] == bytes[i]);
        }
        law_slice_is_fed_byte_by_byte(before, rest);
        let earlier = Seq::new(rest.len(), |i: int| midi::feed(before[i], rest[i]).1);
        let last = bytes.len() - 1;
        assert(steps.drop_last() =~= earlier);
        assert(steps.last() == midi::feed(states[last], bytes[last]).1);
        assert(midi::feed(states[last], bytes[last]).0 == states[last + 1]);
        assert(midi::messages_in(bytes) =~= steps.filter(is_some).map_values(value));
    }
}

/// A status byte that is of none of the kinds of channel messages, and is no system
/// real-time byte, cancels the running status: the data bytes after it belong to no
/// message, whatever the parser was in the middle of.
pub proof fn law_unsupported_status_cancels(state: midi::ParserView, byte: u8, data: Seq<u8>)
    requires
        0xA0 <= byte <= 0xAF || 0xD0 <= byte <= 0xDF || 0xF0 <= byte <= 0xF7,
        forall|i: int| 0 <= i < data.len() ==> #[trigger] data[i] < 0x80,
    ensures
        midi::feed_all(state, seq![byte] + data) == (
            midi::ParserView { status: None, pending: Seq::empty() },
            Seq::<MidiMessage>::empty(),
        ),
{
    let none = Seq::<MidiMessage>::empty();
    assert(Seq::<u8>::empty().push(byte) =~= seq![byte]);
    lemma_feed_one_more(state, Seq::empty(), byte);
    assert(midi::feed_all(state, Seq::<u8>::empty()).1 == none);
    law_stream_may_be_cut(state, seq![byte], data);
    law_stray_data_is_ignored(data);
    assert(none + none =~= none);
}

/// A status byte of a channel message starts it afresh, whatever the parser was in the
/// middle of, and alone completes nothing; neither does the first of two data bytes.
pub proof fn law_message_waits_for_its_data(state: midi::ParserView, status: u8, first: u8)
    requires
        0x80 <= status <= 0x9F || 0xB0 <= status <= 0xBF || 0xE0 <= status <= 0xEF,
        first < 0x80,
    ensures
        midi::feed_all(state, seq![status]) == (
            midi::ParserView { status: Some(status), pending: Seq::empty() },
            Seq::<MidiMessage>::empty(),
        ),
        midi::feed_all(state, seq![status, first]) == (
            midi::ParserView { status: Some(status), pending: seq![first] },
            Seq::<MidiMessage>::empty(),
        ),
{
    let start = Seq::<u8>::empty();
    assert(midi::feed_all(state, start) == (state, Seq::<MidiMessage>::empty()));
    lemma_feed_one_more(state, start, status);
    assert(start.push(status) =~= seq![status]);
    lemma_feed_one_more(state, seq![status], first);
    assert(seq![status].push(first) =~= seq![status, first]);
    assert(Seq::<u8>::empty().push(first) =~= seq![first]);
}

/// A note-on is the status byte of its channel, the note and the velocity.
pub proof fn law_note_on_is_parsed(state: midi::ParserView, channel: u8, note: u8, velocity: u8)
    requires
        channel < 16,
        note < 0x80,
        0 < velocity < 0x80,
    ensures
        midi::feed_all(state, seq![(0x90 + channel) as u8, note, velocity]) == (
            midi::ParserView { status: Some((0x90 + channel) as u8), pending: Seq::empty() },
            seq![MidiMessage::NoteOn { channel, note, velocity }],
        ),
{
    let status = (0x90 + channel) as u8;
    assert(seq![status] + seq![note, velocity] =~= seq![status, note, velocity]);
    lemma_feed_whole_message(state, status, seq![note, velocity]);
}

/// A note-off is the status byte of its channel, the note and the velocity; and so is
/// what begins as a note-on, where the velocity is zero.
pub proof fn law_note_off_is_parsed(state: midi::ParserView, channel: u8, note: u8, velocity: u8)
    requires
        channel < 16,
        note < 0x80,
        velocity < 0x80,
    ensures
        midi::feed_all(state, seq![(0x80 + channel) as u8, note, velocity]) == (
            midi::ParserView { status: Some((0x80 + channel) as u8), pending: Seq::empty() },
            seq![MidiMessage::NoteOff { channel, note, velocity }],
        ),
        midi::feed_all(state, seq![(0x90 + channel) as u8, note, 0]) == (
            midi::ParserView { status: Some((0x90 + channel) as u8), pending: Seq::empty() },
            seq![MidiMessage::NoteOff { channel, note, velocity: 0 }],
        ),
{
    let off = (0x80 + channel) as u8;
    assert(seq![off] + seq![note, velocity] =~= seq![off, note, velocity]);
    lemma_feed_whole_message(state, off, seq![note, velocity]);
    let on = (0x90 + channel) as u8;
    assert(seq![on] + seq![note, 0u8] =~= seq![on, note, 0u8]);
    lemma_feed_whole_message(state, on, seq![note, 0u8]);
}

/// A control change is the status byte of its channel, the controller and the value.
pub proof fn law_control_change_is_parsed(
    state: midi::ParserView,
    channel: u8,
    controller: u8,
    value: u8,
)
    requires
        channel < 16,
        controller < 0x80,
        value < 0x80,
    ensures
        midi::feed_all(state, seq![(0xB0 + channel) as u8, controller, value]) == (
            midi::ParserView { status: Some((0xB0 + channel) as u8), pending: Seq::empty() },
            seq![MidiMessage::ControlChange { channel, controller, value }],
        ),
{
    let status = (0xB0 + channel) as u8;
    assert(seq![status] + seq![controller, value] =~= seq![status, controller, value]);
    lemma_feed_whole_message(state, status, seq![controller, value]);
}

/// A program change is the status byte of its channel and the program.
pub proof fn law_program_change_is_parsed(state: midi::ParserView, channel: u8, program: u8)
    requires
        channel < 16,
        program < 0x80,
    ensures
        midi::feed_all(state, seq![(0xC0 + channel) as u8, program]) == (
            midi::ParserView { status: Some((0xC0 + channel) as u8), pending: Seq::empty() },
            seq![MidiMessage::ProgramChange { channel, program }],
        ),
{
    let status = (0xC0 + channel) as u8;
    assert(seq![status] + seq![program] =~= seq![status, program]);
    lemma_feed_whole_message(state, status, seq![program]);
}

/// A pitch bend is the status byte of its channel, then the low seven bits of the value
/// and then the high seven.
pub proof fn law_pitch_bend_is_parsed(state: midi::ParserView, channel: u8, low: u8, high: u8)
    requires
        channel < 16,
        low < 0x80,
        high < 0x80,
    ensures
        midi::feed_all(state, seq![(0xE0 + channel) as u8, low, high]) == (
            midi::ParserView { status: Some((0xE0 + channel) as u8), pending: Seq::empty() },
            seq![MidiMessage::PitchBend { channel, value: (low + 0x80 * high) as u16 }],
        ),
{
    let status = (0xE0 + channel) as u8;
    assert(seq![status] + seq![low, high] =~= seq![status, low, high]);
    lemma_feed_whole_message(state, status, seq![low, high]);
}

/// After a message, data bytes are taken as if its status byte stood before them again.
pub proof fn law_data_reuses_the_running_status(
    state: midi::ParserView,
    status: u8,
    data: Seq<u8>,
)
    requires
        0x80 <= status <= 0x9F || 0xB0 <= status <= 0xCF || 0xE0 <= status <= 0xEF,
    ensures
        midi::feed_all(
            midi::ParserView { status: Some(status), pending: Seq::empty() },
            data,
        ) == midi::feed_all(state, seq![status] + data),
{
    let start = Seq::<u8>::empty();
    assert(midi::feed_all(state, start) == (state, Seq::<MidiMessage>::empty()));
    lemma_feed_one_more(state, start, status);
    assert(start.push(status) =~= seq![status]);
    law_stream_may_be_cut(state, seq![status], data);
    let at_status = midi::ParserView { status: Some(status), pending: Seq::empty() };
    let late = midi::feed_all(at_status, data).1;
    assert(Seq::<MidiMessage>::empty() + late =~= late);
}

/// A run of notes under one status byte: each pair of data bytes is one note, however
/// many there are.
pub proof fn law_running_notes_are_parsed(
    state: midi::ParserView,
    channel: u8,
    notes: Seq<(u8, u8)>,
)
    requires
        channel < 16,
        forall|i: int|
            0 <= i < notes.len() ==> (#[trigger] notes[i]).0 < 0x80 && 0 < notes[i].1 < 0x80,
    ensures
        midi::feed_all(
            state,
            seq![(0x90 + channel) as u8] + notes.fold_left(
                Seq::<u8>::empty(),
                |bytes: Seq<u8>, note: (u8, u8)| bytes + seq![note.0, note.1],
            ),
        ) == (
            midi::ParserView { status: Some((0x90 + channel) as u8), pending: Seq::empty() },
            notes.map_values(
                |note: (u8, u8)|
                    MidiMessage::NoteOn { channel, note: note.0, velocity: note.1 },
            ),
        ),
    decreases notes.len(),
{
    let status = (0x90 + channel) as u8;
    let join = |bytes: Seq<u8>, note: (u8, u8)| bytes + seq![note.0, note.1];
    let on = |note: (u8, u8)| MidiMessage::NoteOn { channel, note: note.0, velocity: note.1 };
    let none = Seq::<MidiMessage>::empty();
    let at_status = midi::ParserView { status: Some(status), pending: Seq::<u8>::empty() };
    reveal(Seq::fold_left);
    let bytes = notes.fold_left(Seq::<u8>::empty(), join);
    if notes.len() == 0 {
        assert(seq![status] + bytes =~= Seq::<u8>::empty().push(status));
        assert(midi::feed_all(state, Seq::<u8>::empty()) == (state, none));
        lemma_feed_one_more(state, Seq::empty(), status);
        assert(notes.map_values(on) =~= none);
    } else {
        let rest = notes.drop_last();
        let last = notes.last();
        assert(last == notes[notes.len() - 1]);
        assert forall|i: int| 0 <= i < rest.len() implies (#[trigger] rest[i]).0 < 0x80 && 0
            < rest[i].1 < 0x80 by {
            assert(rest[i] == notes[i]);
        }
        law_running_notes_are_parsed(state, channel, rest);
        let before = rest.fold_left(Seq::<u8>::empty(), join);
        let pair = seq![last.0, last.1];
        assert(bytes == before + pair);
        assert(seq![status] + bytes =~= (seq![status] + before) + pair);
        law_stream_may_be_cut(state, seq![status] + before, pair);
        law_data_reuses_the_running_status(state, status, pair);
        law_note_on_is_parsed(state, channel, last.0, last.1);
        assert(seq![status] + pair =~= seq![status, last.0, last.1]);
        assert(notes.map_values(on) =~= rest.map_values(on) + seq![on(last)]);
    }
}

/// The channel of a message is what its channel field holds, whatever else it holds, so
/// messages of different kinds with the same number there are on the same channel.
pub proof fn law_channel_is_the_field(channel: u8, first: u8, second: u8, bend: u16)
    ensures
        (MidiMessage::NoteOn { channel, note: first, velocity: second }).spec_channel() == channel,
        (MidiMessage::NoteOff { channel, note: first, velocity: second }).spec_channel() == channel,
        (MidiMessage::ControlChange { channel, controller: first, value: second }).spec_channel()
            == channel,
        (MidiMessage::PitchBend { channel, value: bend }).spec_channel() == channel,
        (MidiMessage::ProgramChange { channel, program: first }).spec_channel() == channel,
{
}

} // verus!
