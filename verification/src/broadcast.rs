//! Routing of decoded MIDI messages to agents by channel.

use std::collections::HashMap;

use vstd::prelude::*;

use crate::midi::MidiMessage;

verus! {

/// The highest MIDI channel.
pub const MAX_CHANNEL: u8 = 15;

/// The texts of a list of strings.
pub open spec fn texts(strings: Seq<String>) -> Seq<Seq<char>> {
    strings.map_values(|s: String| s@)
}

/// Channel-based broadcaster for decoded MIDI messages.
#[derive(Debug)]
pub struct FleetBroadcaster {
    subscriptions: HashMap<u8, Vec<String>>,
}

impl Default for FleetBroadcaster {
    fn default() -> (res: Self)
        ensures
            res.is_new(),
    {
        FleetBroadcaster { subscriptions: HashMap::new() }
    }
}

impl FleetBroadcaster {
    /// The agents subscribed to a channel, in the order in which they subscribed.
    pub closed spec fn agents(self, channel: u8) -> Seq<Seq<char>> {
        if self.subscriptions@.contains_key(channel) {
            texts(self.subscriptions@[channel]@)
        } else {
            Seq::empty()
        }
    }

    /// Nobody is subscribed to what is no MIDI channel.
    pub open spec fn wf(self) -> bool {
        forall|c: u8| c > MAX_CHANNEL ==> #[trigger] self.agents(c) == Seq::<Seq<char>>::empty()
    }

    /// Nobody is subscribed to anything.
    pub open spec fn is_new(self) -> bool {
        &&& self.wf()
        &&& forall|c: u8| #[trigger] self.agents(c) == Seq::<Seq<char>>::empty()
    }

    /// Whether this is what a broadcaster becomes when an agent subscribes to a
    /// channel: the agent comes after those that are subscribed to the channel
    /// already, if it is one, and nothing else changes.
    pub open spec fn is_joined_by(self, before: Self, channel: u8, agent_id: Seq<char>) -> bool {
        &&& self.wf()
        &&& forall|c: u8| #[trigger]
            self.agents(c) == (if c == channel && channel <= MAX_CHANNEL {
                before.agents(c).push(agent_id)
            } else {
                before.agents(c)
            })
    }

    /// The agents that a message is broadcast to.
    pub open spec fn notified(self, msg: MidiMessage) -> Seq<Seq<char>> {
        self.agents(msg.spec_channel())
    }

    /// Create an empty broadcaster.
    pub fn new() -> (res: Self)
        ensures
            res.is_new(),
    {
        Self::default()
    }

    /// Subscribe an agent to all messages on a MIDI channel.
    ///
    /// A number that is no MIDI channel is ignored. An agent that subscribes
    /// twice is notified twice.
    pub fn subscribe(&mut self, channel: u8, agent_id: &str)
        requires
            old(self).wf(),
        ensures
            final(self).is_joined_by(*old(self), channel, agent_id@),
    {
        if channel > MAX_CHANNEL {
            return;
        }
        let id = agent_id.to_owned();
        let ghost before = *self;
        self.subscriptions.entry(channel).or_insert(Vec::new()).push(id);
        proof {
            let now = self.subscriptions@[channel]@;
            assert(texts(now) =~= before.agents(channel).push(agent_id@));
            assert forall|c: u8| c != channel implies #[trigger] self.agents(c) == before.agents(
                c,
            ) by {
                assert(self.subscriptions@.contains_key(c) == before.subscriptions@.contains_key(
                    c,
                ));
            }
        }
    }

    /// Broadcast a message to all agents subscribed to its channel.
    ///
    /// Returns the IDs of agents that were notified.
    pub fn broadcast(&self, msg: &MidiMessage) -> (res: Vec<String>)
        ensures
            texts(res@) == self.notified(*msg),
    {
        match self.subscriptions.get(&msg.channel()) {
            Some(subs) => {
                let notified = subs.clone();
                assert(texts(notified@) =~= texts(subs@));
                notified
            },
            None => {
                let nobody: Vec<String> = Vec::new();
                assert(texts(nobody@) =~= Seq::empty());
                nobody
            },
        }
    }
}

/// The agents that subscribed to a channel, in the order of their calls and once
/// for each.
pub open spec fn subscribers(calls: Seq<(u8, Seq<char>)>, channel: u8) -> Seq<Seq<char>> {
    calls.filter(|call: (u8, Seq<char>)| call.0 <= MAX_CHANNEL && call.0 == channel).map_values(
        |call: (u8, Seq<char>)| call.1,
    )
}

/// Whether broadcasters are the states that one goes through, from a new one on,
/// while agents subscribe to channels.
pub open spec fn subscribed_in_turn(
    states: Seq<FleetBroadcaster>,
    calls: Seq<(u8, Seq<char>)>,
) -> bool {
    &&& states.len() == calls.len() + 1
    &&& states[0].is_new()
    &&& forall|i: int|
        0 <= i < calls.len() ==> states[i + 1].is_joined_by(
            states[i],
            (#[trigger] calls[i]).0,
            calls[i].1,
        )
}

/// After any subscriptions, a message is broadcast to the agents that subscribed
/// to its channel, in the order in which they did, each as often as it did.
/// Messages of the same channel go to the same agents, and one of no MIDI channel
/// goes to nobody.
pub proof fn law_broadcast_follows_the_subscriptions(
    states: Seq<FleetBroadcaster>,
    calls: Seq<(u8, Seq<char>)>,
    msg: MidiMessage,
    other: MidiMessage,
)
    requires
        subscribed_in_turn(states, calls),
    ensures
        states.last().notified(msg) == subscribers(calls, msg.spec_channel()),
        other.spec_channel() == msg.spec_channel() ==> states.last().notified(other)
            == states.last().notified(msg),
        msg.spec_channel() > MAX_CHANNEL ==> states.last().notified(msg) == Seq::<
            Seq<char>,
        >::empty(),
    decreases calls.len(),
{
    let channel = msg.spec_channel();
    reveal(Seq::filter);
    if calls.len() == 0 {
        assert(subscribers(calls, channel) =~= Seq::empty());
    } else {
        let before = states.drop_last();
        let earlier = calls.drop_last();
        assert forall|i: int| 0 <= i < earlier.len() implies before[i + 1].is_joined_by(
            before[i],
            (#[trigger] earlier[i]).0,
            earlier[i].1,
        ) by {
            assert(earlier[i] == calls[i]);
        }
        law_broadcast_follows_the_subscriptions(before, earlier, msg, other);
        let last = calls[calls.len() - 1];
        assert(states.last().is_joined_by(before.last(), last.0, last.1));
        assert(subscribers(calls, channel) =~= (if last.0 <= MAX_CHANNEL && last.0 == channel {
            subscribers(earlier, channel).push(last.1)
        } else {
            subscribers(earlier, channel)
        }));
    }
}

/// The texts of a list of strings are those of its strings, each at its place.
pub proof fn law_texts_are_in_place(strings: Seq<String>, i: int)
    requires
        0 <= i < strings.len(),
    ensures
        texts(strings).len() == strings.len(),
        texts(strings)[i] == strings[i]@,
{
}

/// After any subscriptions, a message of any kind goes to the agents that subscribed to
/// the number in its channel field, if it is at most fifteen: in the order in which
/// they did, each as often as it did.
pub proof fn law_messages_go_to_their_channel(
    states: Seq<FleetBroadcaster>,
    calls: Seq<(u8, Seq<char>)>,
    channel: u8,
    first: u8,
    second: u8,
    bend: u16,
)
    requires
        subscribed_in_turn(states, calls),
    ensures
        ({
            let last = states.last();
            let agents = calls.filter(
                |call: (u8, Seq<char>)| call.0 == channel && channel <= 15,
            ).map_values(|call: (u8, Seq<char>)| call.1);
            &&& last.notified(MidiMessage::NoteOn { channel, note: first, velocity: second })
                == agents
            &&& last.notified(MidiMessage::NoteOff { channel, note: first, velocity: second })
                == agents
            &&& last.notified(
                MidiMessage::ControlChange { channel, controller: first, value: second },
            ) == agents
            &&& last.notified(MidiMessage::PitchBend { channel, value: bend }) == agents
            &&& last.notified(MidiMessage::ProgramChange { channel, program: first }) == agents
        }),
{
    let own = |call: (u8, Seq<char>)| call.0 == channel && channel <= 15;
    let agents = calls.filter(own).map_values(|call: (u8, Seq<char>)| call.1);
    lemma_agents_of_a_channel(states, calls, channel);
    assert(states.last().agents(channel) == agents);
}

/// The agents of a channel after subscriptions.
proof fn lemma_agents_of_a_channel(
    states: Seq<FleetBroadcaster>,
    calls: Seq<(u8, Seq<char>)>,
    channel: u8,
)
    requires
        subscribed_in_turn(states, calls),
    ensures
        states.last().agents(channel) == calls.filter(
            |call: (u8, Seq<char>)| call.0 == channel && channel <= 15,
        ).map_values(|call: (u8, Seq<char>)| call.1),
    decreases calls.len(),
{
    reveal(Seq::filter);
    let own = |call: (u8, Seq<char>)| call.0 == channel && channel <= 15;
    let id = |call: (u8, Seq<char>)| call.1;
    if calls.len() == 0 {
        assert(calls.filter(own).map_values(id) =~= Seq::empty());
    } else {
        let before = states.drop_last();
        let earlier = calls.drop_last();
        assert forall|i: int| 0 <= i < earlier.len() implies before[i + 1].is_joined_by(
            before[i],
            (#[trigger] earlier[i]).0,
            earlier[i].1,
        ) by {
            assert(earlier[i] == calls[i]);
        }
        lemma_agents_of_a_channel(before, earlier, channel);
        let last = calls[calls.len() - 1];
        assert(states.last().is_joined_by(before.last(), last.0, last.1));
        assert(calls.filter(own).map_values(id) =~= (if own(last) {
            earlier.filter(own).map_values(id).push(last.1)
        } else {
            earlier.filter(own).map_values(id)
        }));
    }
}

} // verus!
