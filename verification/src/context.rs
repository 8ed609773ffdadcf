//! Where and when: the context frame, and the router through which later
//! events inherit it.
//!
//! A context frame is broadcast at a low cadence; the events after it reuse it
//! until the next one arrives, just as running status lets bare MIDI data bytes
//! reuse the last status byte.

use vstd::prelude::*;

use crate::big_endian;
use crate::event::Event;
use crate::event_types;

verus! {

/// Spatial-temporal context that events inherit.
#[derive(Debug, Clone, Copy, PartialEq, Eq)]
pub struct Context {
    pub vessel_id: u32,
    pub fix_time: i64,
    pub lat_e7: i32,
    pub lon_e7: i32,
    pub hacc_cm: u16,
    pub clock_quality: u8,
}

impl Context {
    /// Create a new context frame.
    pub fn new(
        vessel_id: u32,
        fix_time: i64,
        lat_e7: i32,
        lon_e7: i32,
        hacc_cm: u16,
        clock_quality: u8,
    ) -> (res: Self)
        ensures
            res == (Context { vessel_id, fix_time, lat_e7, lon_e7, hacc_cm, clock_quality }),
    {
        Self { vessel_id, fix_time, lat_e7, lon_e7, hacc_cm, clock_quality }
    }
}

/// Byte length of a serialized [`Context`] frame in an event payload.
pub const CONTEXT_PAYLOAD_LEN: usize = 23;

/// A context in its serialized form: its fields in order, each big-endian.
pub open spec fn context_bytes(ctx: Context) -> Seq<u8> {
    big_endian::u32_bytes(ctx.vessel_id as int)
        + big_endian::u64_bytes(big_endian::pattern64(ctx.fix_time as int))
        + big_endian::u32_bytes(big_endian::pattern32(ctx.lat_e7 as int))
        + big_endian::u32_bytes(big_endian::pattern32(ctx.lon_e7 as int))
        + big_endian::u16_bytes(ctx.hacc_cm as int)
        + seq![ctx.clock_quality]
}

/// The context that a serialized form stands for.
pub open spec fn context_of(b: Seq<u8>) -> Context {
    Context {
        vessel_id: big_endian::u32_of(b.subrange(0, 4)) as u32,
        fix_time: big_endian::signed64(big_endian::u64_of(b.subrange(4, 12))) as i64,
        lat_e7: big_endian::signed32(big_endian::u32_of(b.subrange(12, 16))) as i32,
        lon_e7: big_endian::signed32(big_endian::u32_of(b.subrange(16, 20))) as i32,
        hacc_cm: big_endian::u16_of(b.subrange(20, 22)) as u16,
        clock_quality: b[22],
    }
}

/// The context in an event: there is one where the event is a context frame
/// whose payload has just the length of a serialized context.
pub open spec fn context_in(event: Event) -> Option<Context> {
    if event.event_type == event_types::CONTEXT && event.payload_len == CONTEXT_PAYLOAD_LEN {
        Some(context_of(event.inline()))
    } else {
        None
    }
}

/// Serializing a context and reading it gives it back.
pub proof fn law_context_bytes_read_back(ctx: Context)
    ensures
        context_bytes(ctx).len() == CONTEXT_PAYLOAD_LEN,
        context_of(context_bytes(ctx)) == ctx,
{
    let b = context_bytes(ctx);
    big_endian::lemma_u32_round_trip(ctx.vessel_id as int);
    big_endian::lemma_u64_round_trip(big_endian::pattern64(ctx.fix_time as int));
    big_endian::lemma_u32_round_trip(big_endian::pattern32(ctx.lat_e7 as int));
    big_endian::lemma_u32_round_trip(big_endian::pattern32(ctx.lon_e7 as int));
    big_endian::lemma_u16_round_trip(ctx.hacc_cm as int);
    assert(b.subrange(0, 4) =~= big_endian::u32_bytes(ctx.vessel_id as int));
    assert(b.subrange(4, 12) =~= big_endian::u64_bytes(
        big_endian::pattern64(ctx.fix_time as int),
    ));
    assert(b.subrange(12, 16) =~= big_endian::u32_bytes(big_endian::pattern32(ctx.lat_e7 as int)));
    assert(b.subrange(16, 20) =~= big_endian::u32_bytes(big_endian::pattern32(ctx.lon_e7 as int)));
    assert(b.subrange(20, 22) =~= big_endian::u16_bytes(ctx.hacc_cm as int));
}

/// Reading a serialized context and serializing what was read gives the same
/// bytes, so no two different payloads stand for one context.
pub proof fn law_context_bytes_are_canonical(b: Seq<u8>)
    requires
        b.len() == CONTEXT_PAYLOAD_LEN,
    ensures
        context_bytes(context_of(b)) == b,
{
    big_endian::lemma_u32_bytes_round_trip(b.subrange(0, 4));
    big_endian::lemma_u64_bytes_round_trip(b.subrange(4, 12));
    big_endian::lemma_u32_bytes_round_trip(b.subrange(12, 16));
    big_endian::lemma_u32_bytes_round_trip(b.subrange(16, 20));
    big_endian::lemma_u16_bytes_round_trip(b.subrange(20, 22));
    assert(b.subrange(0, 4) + b.subrange(4, 12) + b.subrange(12, 16) + b.subrange(16, 20)
        + b.subrange(20, 22) + seq![b[22]] =~= b);
}

impl Event {
    /// If this event is a Context frame (`event_type == event_types::CONTEXT`),
    /// return the embedded [`Context`].
    pub fn as_context(&self) -> (res: Option<Context>)
        ensures
            res == context_in(*self),
    {
        if self.event_type != event_types::CONTEXT {
            return None;
        }
        if self.payload_len as usize != CONTEXT_PAYLOAD_LEN {
            return None;
        }
        let b = self.payload();
        let vessel_id = big_endian::read_u32(b, 0);
        let fix_time = big_endian::read_i64(b, 4);
        let lat_e7 = big_endian::read_i32(b, 12);
        let lon_e7 = big_endian::read_i32(b, 16);
        let hacc_cm = big_endian::read_u16(b, 20);
        let clock_quality = b[22];
        Some(Context { vessel_id, fix_time, lat_e7, lon_e7, hacc_cm, clock_quality })
    }

    /// Build a Context event from a [`Context`].
    pub fn from_context(ctx: Context, event_time: i64, source_id: u16, seq: u32) -> (res: Self)
        ensures
            res.event_type == event_types::CONTEXT,
            res.event_time == event_time,
            res.source_id == source_id,
            res.seq == seq,
            res.payload_len == CONTEXT_PAYLOAD_LEN,
            res.inline() == context_bytes(ctx),
            res.wf(),
            context_in(res) == Some(ctx),
    {
        let mut ev = Event::new(event_types::CONTEXT, event_time, source_id, seq);
        let mut bytes: Vec<u8> = Vec::with_capacity(CONTEXT_PAYLOAD_LEN);
        big_endian::push_u32(&mut bytes, ctx.vessel_id);
        big_endian::push_i64(&mut bytes, ctx.fix_time);
        big_endian::push_i32(&mut bytes, ctx.lat_e7);
        big_endian::push_i32(&mut bytes, ctx.lon_e7);
        big_endian::push_u16(&mut bytes, ctx.hacc_cm);
        bytes.push(ctx.clock_quality);
        proof {
            law_context_bytes_read_back(ctx);
        }
        assert(bytes@ =~= context_bytes(ctx));
        ev.set_payload(bytes.as_slice());
        ev
    }
}

/// The context in force after a sequence of events, where `before` was in force
/// before it: that of the last event that carries one.
pub open spec fn context_after(before: Option<Context>, events: Seq<Event>) -> Option<Context>
    decreases events.len(),
{
    if events.len() == 0 {
        before
    } else {
        match context_in(events.last()) {
            Some(ctx) => Some(ctx),
            None => context_after(before, events.drop_last()),
        }
    }
}

/// Router state that tracks the last broadcast [`Context`] for inherited
/// event attribution.
#[derive(Debug, Clone)]
pub struct EventRouter {
    last_context: Option<Context>,
}

impl View for EventRouter {
    type V = Option<Context>;

    closed spec fn view(&self) -> Option<Context> {
        self.last_context
    }
}

impl Default for EventRouter {
    fn default() -> (res: Self)
        ensures
            res@ == None::<Context>,
    {
        EventRouter { last_context: None }
    }
}

impl EventRouter {
    /// Whether a router becomes this, and answers this, when it handles an event.
    pub open spec fn is_handled(
        before: Option<Context>,
        after: Option<Context>,
        event: Event,
        answer: Option<Context>,
    ) -> bool {
        &&& after == (match context_in(event) {
            Some(ctx) => Some(ctx),
            None => before,
        })
        &&& answer == after
    }

    /// Create a router with no inherited context.
    pub fn new() -> (res: Self)
        ensures
            res@ == None::<Context>,
    {
        Self::default()
    }

    /// Process a Context frame, updating the inherited context.
    pub fn broadcast_context(&mut self, ctx: Context)
        ensures
            final(self)@ == Some(ctx),
    {
        self.last_context = Some(ctx);
    }

    /// Process an event, updating inherited context if the event itself is a
    /// Context frame, and returning the context that applies to the event.
    ///
    /// Events received before any Context has been seen return `None`;
    /// callers should treat this as "no position/clock attribution yet"
    /// rather than an error.
    pub fn handle_event(&mut self, event: &Event) -> (res: Option<Context>)
        ensures
            res == final(self)@,
            final(self)@ == (match context_in(*event) {
                Some(ctx) => Some(ctx),
                None => old(self)@,
            }),
            EventRouter::is_handled(old(self)@, final(self)@, *event, res),
    {
        if let Some(ctx) = event.as_context() {
            self.last_context = Some(ctx);
        }
        self.last_context
    }

    /// Return the currently inherited context without processing an event.
    pub fn current_context(&self) -> (res: Option<Context>)
        ensures
            res == self@,
    {
        self.last_context
    }
}

/// Handling one more event takes the context in force one step further.
pub proof fn law_router_follows_events(before: Option<Context>, events: Seq<Event>, event: Event)
    ensures
        context_after(before, events.push(event)) == (match context_in(event) {
            Some(ctx) => Some(ctx),
            None => context_after(before, events),
        }),
{
    assert(events.push(event).drop_last() =~= events);
}

/// An event inherits the last context before it: after a context frame, events
/// that carry none leave it in force, however many they are.
pub proof fn law_context_is_inherited(
    before: Option<Context>,
    earlier: Seq<Event>,
    frame: Event,
    later: Seq<Event>,
)
    requires
        context_in(frame) is Some,
        forall|i: int| 0 <= i < later.len() ==> context_in(#[trigger] later[i]) is None,
    ensures
        context_after(before, earlier.push(frame) + later) == context_in(frame),
    decreases later.len(),
{
    let all = earlier.push(frame) + later;
    if later.len() == 0 {
        assert(all =~= earlier.push(frame));
    } else {
        assert(context_in(later[later.len() - 1]) is None);
        law_context_is_inherited(before, earlier, frame, later.drop_last());
        assert(all.drop_last() =~= earlier.push(frame) + later.drop_last());
    }
}

/// Until a context has been seen there is none to inherit.
pub proof fn law_no_context_before_the_first(events: Seq<Event>)
    requires
        forall|i: int| 0 <= i < events.len() ==> context_in(#[trigger] events[i]) is None,
    ensures
        context_after(None, events) == None::<Context>,
    decreases events.len(),
{
    if events.len() > 0 {
        assert(context_in(events[events.len() - 1]) is None);
        law_no_context_before_the_first(events.drop_last());
    }
}

/// The number that bytes make, the most significant first.
pub open spec fn number_of(bytes: Seq<u8>) -> int
    decreases bytes.len(),
{
    if bytes.len() == 0 {
        0
    } else {
        256 * number_of(bytes.drop_last()) + bytes.last()
    }
}

/// Whether a number in two's complement of so many bytes stands for an integer.
pub open spec fn stands_for(bytes: Seq<u8>, size: nat, span: int, value: int) -> bool {
    &&& bytes.len() == size
    &&& number_of(bytes) == value || number_of(bytes) == value + span
    &&& -span <= 2 * value < span
}

/// Whether bytes are the payload of a context frame: the vessel in four bytes, the time
/// of the fix in eight, the latitude and the longitude in four each, the accuracy in
/// two and the quality of the clock in one, each with its most significant byte first.
pub open spec fn is_frame_of(b: Seq<u8>, ctx: Context) -> bool {
    &&& b.len() == 23
    &&& number_of(b.subrange(0, 4)) == ctx.vessel_id
    &&& stands_for(b.subrange(4, 12), 8, 0x1_0000_0000_0000_0000, ctx.fix_time as int)
    &&& stands_for(b.subrange(12, 16), 4, 0x1_0000_0000, ctx.lat_e7 as int)
    &&& stands_for(b.subrange(16, 20), 4, 0x1_0000_0000, ctx.lon_e7 as int)
    &&& number_of(b.subrange(20, 22)) == ctx.hacc_cm
    &&& b[22] == ctx.clock_quality
}

/// Two, four and eight bytes make the same number whichever way it is taken.
pub(crate) proof fn lemma_number_of(b: Seq<u8>)
    ensures
        b.len() == 2 ==> number_of(b) == big_endian::u16_of(b),
        b.len() == 4 ==> number_of(b) == big_endian::u32_of(b),
        b.len() == 8 ==> number_of(b) == big_endian::u64_of(b),
{
    reveal_with_fuel(number_of, 9);
    if b.len() == 8 {
        let b7 = b.drop_last();
        let b6 = b7.drop_last();
        let b5 = b6.drop_last();
        let b4 = b5.drop_last();
        let b3 = b4.drop_last();
        let b2 = b3.drop_last();
        assert(number_of(b4) == big_endian::u32_of(b));
        assert(number_of(b) == 0x1_0000_0000 * number_of(b4) + 0x100_0000 * b[4] + 0x1_0000 * b[5]
            + 0x100 * b[6] + b[7]);
        assert(b.skip(4)[0] == b[4] && b.skip(4)[1] == b[5] && b.skip(4)[2] == b[6]
            && b.skip(4)[3] == b[7]);
    }
}

/// The serialized form of a context holds its fields one after the other.
pub proof fn law_context_frame_layout(ctx: Context)
    ensures
        is_frame_of(context_bytes(ctx), ctx),
{
    let b = context_bytes(ctx);
    law_context_bytes_read_back(ctx);
    lemma_context_of_frame(b);
}

/// What is read from a payload of 23 bytes is the context whose fields stand there.
pub proof fn law_context_is_read_from_its_bytes(b: Seq<u8>)
    requires
        b.len() == 23,
    ensures
        is_frame_of(b, context_of(b)),
{
    lemma_context_of_frame(b);
}

/// The fields of the context that a payload stands for.
proof fn lemma_context_of_frame(b: Seq<u8>)
    requires
        b.len() == 23,
    ensures
        is_frame_of(b, context_of(b)),
{
    lemma_number_of(b.subrange(0, 4));
    lemma_number_of(b.subrange(4, 12));
    lemma_number_of(b.subrange(12, 16));
    lemma_number_of(b.subrange(16, 20));
    lemma_number_of(b.subrange(20, 22));
    big_endian::lemma_u32_bytes_round_trip(b.subrange(0, 4));
    big_endian::lemma_u64_bytes_round_trip(b.subrange(4, 12));
    big_endian::lemma_u32_bytes_round_trip(b.subrange(12, 16));
    big_endian::lemma_u32_bytes_round_trip(b.subrange(16, 20));
    big_endian::lemma_u16_bytes_round_trip(b.subrange(20, 22));
}

/// An event carries a context just if it is of the type of context frames and has 23
/// bytes of payload, and then the one whose fields stand there.
pub proof fn law_context_frames_are_known_by_type_and_length(event: Event)
    ensures
        (context_in(event) is Some) == (event.event_type == 0x0001 && event.payload_len == 23),
        context_in(event) matches Some(ctx) ==> is_frame_of(event.payload@.take(23), ctx),
{
    if context_in(event) is Some {
        assert(event.inline() =~= event.payload@.take(23));
        lemma_context_of_frame(event.inline());
    }
}

/// Whether routers, and what they answer, are those that come of handling events in
/// turn.
pub open spec fn handled_in_turn(
    states: Seq<Option<Context>>,
    events: Seq<Event>,
    answers: Seq<Option<Context>>,
) -> bool {
    &&& states.len() == events.len() + 1
    &&& answers.len() == events.len()
    &&& forall|i: int|
        0 <= i < events.len() ==> EventRouter::is_handled(
            states[i],
            states[i + 1],
            #[trigger] events[i],
            answers[i],
        )
}

/// An event is answered with the context of the last frame up to it, itself included.
pub proof fn law_answers_inherit_the_last_frame(
    states: Seq<Option<Context>>,
    events: Seq<Event>,
    answers: Seq<Option<Context>>,
    frame: int,
    i: int,
)
    requires
        handled_in_turn(states, events, answers),
        0 <= frame <= i < events.len(),
        events[frame].event_type == 0x0001 && events[frame].payload_len == 23,
        forall|k: int|
            frame < k <= i ==> !((#[trigger] events[k]).event_type == 0x0001
                && events[k].payload_len == 23),
    ensures
        answers[i] matches Some(ctx) && is_frame_of(events[frame].payload@.take(23), ctx),
        states[i + 1] == answers[i],
        answers[i] == answers[frame],
    decreases i,
{
    law_context_frames_are_known_by_type_and_length(events[i]);
    assert(EventRouter::is_handled(states[i], states[i + 1], events[i], answers[i]));
    if frame < i {
        law_answers_inherit_the_last_frame(states, events, answers, frame, i - 1);
        assert(EventRouter::is_handled(states[i - 1], states[i], events[i - 1], answers[i - 1]));
    }
}

/// Where no frame came yet, an event is answered with what was known at the start.
pub proof fn law_answers_before_the_first_frame(
    states: Seq<Option<Context>>,
    events: Seq<Event>,
    answers: Seq<Option<Context>>,
    i: int,
)
    requires
        handled_in_turn(states, events, answers),
        0 <= i < events.len(),
        forall|k: int|
            0 <= k <= i ==> !((#[trigger] events[k]).event_type == 0x0001
                && events[k].payload_len == 23),
    ensures
        answers[i] == states[0],
        states[i + 1] == states[0],
    decreases i,
{
    law_context_frames_are_known_by_type_and_length(events[i]);
    assert(EventRouter::is_handled(states[i], states[i + 1], events[i], answers[i]));
    if i > 0 {
        law_answers_before_the_first_frame(states, events, answers, i - 1);
    }
}

} // verus!
