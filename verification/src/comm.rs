//! The Lamport logical clock and the timestamped message facade.
//!
//! Every outgoing payload gets the sender's logical time appended as its last
//! element; every received timestamp is folded back into the clock with
//! `inc_compare`. Together the two keep each peer's view of time causally
//! consistent, which is what the priority rule of the handlers relies on.
use vstd::prelude::*;

use crate::MessageTag;

verus! {

/// A scalar Lamport clock. The value only ever grows; saturation is not
/// handled, so a run is assumed short enough that the clock never reaches
/// the largest representable time.
pub struct Clock {
    pub time: u16,
}

/// The clock value after observing a foreign timestamp: the maximum of the
/// two times, plus one.
pub open spec fn observed_time(own: u16, other: u16) -> int {
    if own >= other {
        own + 1
    } else {
        other + 1
    }
}

impl Clock {
    pub fn new() -> (clock: Self)
        ensures
            clock.time == 0,
    {
        Self { time: 0 }
    }

    /// Advances the clock by one local event.
    pub fn inc(&mut self) -> (time: u16)
        requires
            old(self).time < u16::MAX,
        ensures
            final(self).time == old(self).time + 1,
            time == final(self).time,
    {
        self.time = self.time + 1;
        self.time
    }

    /// Folds a received timestamp into the clock: the new time is one past
    /// the larger of the own time and the received one.
    pub fn inc_compare(&mut self, other_time: u16) -> (time: u16)
        requires
            old(self).time < u16::MAX,
            other_time < u16::MAX,
        ensures
            final(self).time == observed_time(old(self).time, other_time),
            time == final(self).time,
    {
        if other_time > self.time {
            self.time = other_time;
        }
        self.time = self.time + 1;
        self.time
    }

    /// Reads the current logical time.
    pub fn time(&self) -> (time: u16)
        ensures
            time == self.time,
    {
        self.time
    }
}

/// Both `inc` and `inc_compare` strictly increase the clock. This is what
/// makes the timestamps a peer attaches across successive receive steps
/// strictly increasing: each receive observes before any reply is built.
pub proof fn lemma_clock_strictly_increases(own: u16, other: u16)
    ensures
        own + 1 > own,
        observed_time(own, other) > own,
        observed_time(own, other) > other,
{
}

/// One protocol message, ready to be handed to the transport: the rank it is
/// addressed to, its tag, and its payload with the sender's logical time as
/// the final element.
#[derive(Debug)]
pub struct OutgoingMessage {
    pub receiver_rank: i32,
    pub tag: MessageTag,
    pub payload: Vec<u16>,
}

/// The ghost shape of an outgoing message, used by the step predicates.
pub struct MsgModel {
    pub dest: int,
    pub tag: MessageTag,
    pub payload: Seq<u16>,
}

/// Reads the ghost shape off an outgoing message.
pub open spec fn msg_model(m: OutgoingMessage) -> MsgModel {
    MsgModel { dest: m.receiver_rank as int, tag: m.tag, payload: m.payload@ }
}

/// A facade over the group transport: it knows the local clock, the group
/// size and the own rank, and builds every outgoing payload with the current
/// logical time appended as the last element.
pub struct TimestampedCommunicator<'a> {
    pub clock: &'a Clock,
    pub world_size: usize,
    pub rank: i32,
}

impl<'a> TimestampedCommunicator<'a> {
    pub fn new(clock: &'a Clock, world_size: usize, rank: i32) -> (communicator: Self)
        ensures
            communicator.clock == clock,
            communicator.world_size == world_size,
            communicator.rank == rank,
    {
        Self { clock, world_size, rank }
    }

    /// Builds a single message for `receiver_rank`: the payload is the given
    /// message with the current logical time appended.
    pub fn send_with_time(&self, message: &Vec<u16>, receiver_rank: i32, tag: MessageTag) -> (m:
        OutgoingMessage)
        ensures
            m.receiver_rank == receiver_rank,
            m.tag == tag,
            m.payload@ == message@.push(self.clock.time),
    {
        let mut timestamped_message = message.clone();
        proof {
            assert(timestamped_message@ =~= message@);
        }
        let time = self.clock.time();
        timestamped_message.push(time);
        OutgoingMessage { receiver_rank, tag, payload: timestamped_message }
    }

    /// Builds one timestamped copy of the message for every peer except the
    /// local one, in rank order.
    pub fn broadcast_with_time(&self, message: &Vec<u16>, tag: MessageTag) -> (ms: Vec<
        OutgoingMessage,
    >)
        requires
            0 <= self.rank,
            (self.rank as int) < self.world_size,
            self.world_size <= 0x7fff_ffff,
        ensures
            is_broadcast(ms@, self.world_size as int, self.rank as int, tag, message@.push(
                self.clock.time,
            )),
    {
        let mut ms: Vec<OutgoingMessage> = Vec::new();
        let mut i: usize = 0;
        while i < self.world_size
            invariant
                0 <= self.rank,
                (self.rank as int) < self.world_size,
                self.world_size <= 0x7fff_ffff,
                i <= self.world_size,
                ms@.len() == if i <= self.rank as int {
                    i as int
                } else {
                    i - 1
                },
                broadcast_body_ok(ms@, self.rank as int, tag, message@.push(self.clock.time)),
            decreases self.world_size - i,
        {
            if i != self.rank as usize {
                let m = self.send_with_time(message, i as i32, tag);
                let ghost prior = ms@;
                ms.push(m);
                proof {
                    assert(m.receiver_rank == i as int);
                    assert forall|j: int| 0 <= j < ms@.len() implies broadcast_msg_ok(
                        #[trigger] ms@[j],
                        j,
                        self.rank as int,
                        tag,
                        message@.push(self.clock.time),
                    ) by {
                        if j < prior.len() {
                            assert(ms@[j] == prior[j]);
                        } else {
                            assert(ms@[j] == m);
                        }
                    }
                }
            }
            i = i + 1;
        }
        ms
    }
}

/// Holds when `m`, standing at position `j` of a broadcast by `rank`, is
/// addressed to the `j`-th rank of the group other than `rank` and carries
/// the broadcast's tag and payload.
pub open spec fn broadcast_msg_ok(
    m: OutgoingMessage,
    j: int,
    rank: int,
    tag: MessageTag,
    payload: Seq<u16>,
) -> bool {
    &&& m.receiver_rank == if j < rank {
        j
    } else {
        j + 1
    }
    &&& m.tag == tag
    &&& m.payload@ == payload
}

/// Holds when every message of `msgs` is the broadcast message its position
/// calls for.
pub open spec fn broadcast_body_ok(
    msgs: Seq<OutgoingMessage>,
    rank: int,
    tag: MessageTag,
    payload: Seq<u16>,
) -> bool {
    forall|j: int|
        0 <= j < msgs.len() ==> broadcast_msg_ok(#[trigger] msgs[j], j, rank, tag, payload)
}

/// Holds when `msgs` is a broadcast of one payload with the given tag to
/// every rank of the group but the sender's own, in rank order.
pub open spec fn is_broadcast(
    msgs: Seq<OutgoingMessage>,
    world_size: int,
    rank: int,
    tag: MessageTag,
    payload: Seq<u16>,
) -> bool {
    &&& msgs.len() == world_size - 1
    &&& broadcast_body_ok(msgs, rank, tag, payload)
}

} // verus!
