//! The per-peer protocol core: the six-phase state machine, the two
//! permission vectors, the two queues of deferred grants, and the four
//! message handlers.
//!
//! A peer advances through Rest, Try, Down, Crit, Leaving and Up in a cycle.
//! On leaving Rest it broadcasts an enter request and pessimistically assumes
//! every other peer may claim the whole room capacity and one lift; incoming
//! grants lower those counts until the readiness predicates open the way
//! down. Requests from other peers are granted at once, granted in part, or
//! deferred, depending on the local phase and on the priority rule: the
//! smaller Lamport timestamp wins, and ties are broken by the smaller rank.
//!
//! Every public operation is a step of the state machine, described exactly
//! by a step predicate relating the peer's state before and after, and the
//! messages the step hands to the transport.
use vstd::prelude::*;

use crate::comm::Clock;
use crate::comm::MsgModel;
use crate::comm::OutgoingMessage;
use crate::comm::TimestampedCommunicator;
use crate::comm::is_broadcast;
use crate::comm::msg_model;
use crate::comm::observed_time;
use crate::Config;
use crate::MessageTag;

verus! {

/// The six phases of a peer's cycle.
#[derive(Clone, Copy, PartialEq, Eq, Structural, Debug)]
pub enum AgentState {
    Rest,
    Try,
    Down,
    Crit,
    Leaving,
    Up,
}

/// The successor of each phase in the cycle.
pub open spec fn next_phase(state: AgentState) -> AgentState {
    match state {
        AgentState::Rest => AgentState::Try,
        AgentState::Try => AgentState::Down,
        AgentState::Down => AgentState::Crit,
        AgentState::Crit => AgentState::Leaving,
        AgentState::Leaving => AgentState::Up,
        AgentState::Up => AgentState::Rest,
    }
}

/// The sum of a permission vector.
pub open spec fn sum_of(s: Seq<u8>) -> int
    decreases s.len(),
{
    if s.len() == 0 {
        0
    } else {
        sum_of(s.drop_last()) + s.last()
    }
}

/// How often rank `r` stands in a defer queue.
pub open spec fn count_of(s: Seq<u8>, r: u8) -> int
    decreases s.len(),
{
    if s.len() == 0 {
        0
    } else {
        count_of(s.drop_last(), r) + if s.last() == r {
            1int
        } else {
            0int
        }
    }
}

/// The priority rule: the sender of a request wins against the local peer
/// exactly when the sender's timestamp is smaller, or the timestamps are
/// equal and the sender's rank is smaller.
pub open spec fn sender_priority_spec(
    my_rank: i32,
    my_time: u16,
    sender_time: u16,
    sender_rank: i32,
) -> bool {
    my_time > sender_time || (my_time == sender_time && my_rank > sender_rank)
}

/// One peer of the group. `rooms` and `lifts` are the permission vectors:
/// the largest amount of each resource the peer believes every member of the
/// group may currently claim. `defer_rooms` and `defer_lifts` hold the ranks
/// whose grant the peer has withheld.
pub struct Agent {
    pub need: u8,
    pub rank: i32,
    pub enter_time: u16,
    pub leave_time: u16,
    pub rooms: Vec<u8>,
    pub lifts: Vec<u8>,
    pub defer_rooms: Vec<u8>,
    pub defer_lifts: Vec<u8>,
    pub state: AgentState,
    pub config: Config,
    pub clock: Clock,
}

impl Agent {
    /// The structural invariant of a peer: the vectors span the group, the
    /// own rank lies in the group, every rank fits the one-byte defer-queue
    /// entries, and the declared need is at least one room and within the
    /// room capacity.
    pub open spec fn well_formed(&self) -> bool {
        &&& self.rooms@.len() == self.config.world_size
        &&& self.lifts@.len() == self.config.world_size
        &&& 0 <= self.rank
        &&& (self.rank as int) < self.config.world_size
        &&& self.config.world_size <= 256
        &&& 1 <= self.need
        &&& self.need <= self.config.rooms_count
        &&& forall|j: int|
            0 <= j < self.defer_rooms@.len() ==> (#[trigger] self.defer_rooms@[j]
                as int) < self.config.world_size
        &&& forall|j: int|
            0 <= j < self.defer_lifts@.len() ==> (#[trigger] self.defer_lifts@[j]
                as int) < self.config.world_size
    }

    /// A fresh peer: at Rest, with a zeroed clock, cleared permission
    /// vectors, empty defer queues, and both request timestamps at the
    /// largest representable value, so that the peer loses every priority
    /// comparison until it issues a request of its own.
    pub fn new(rank: i32, need: u8, config: Config) -> (agent: Self)
        requires
            0 <= rank,
            (rank as int) < config.world_size,
            config.world_size <= 256,
            1 <= need,
            need <= config.rooms_count,
        ensures
            agent.well_formed(),
            agent.rank == rank,
            agent.need == need,
            agent.config == config,
            agent.state == AgentState::Rest,
            agent.enter_time == u16::MAX,
            agent.leave_time == u16::MAX,
            agent.clock.time == 0,
            agent.rooms@ =~= Seq::new(config.world_size as nat, |i: int| 0u8),
            agent.lifts@ =~= Seq::new(config.world_size as nat, |i: int| 0u8),
            agent.defer_rooms@ =~= Seq::<u8>::empty(),
            agent.defer_lifts@ =~= Seq::<u8>::empty(),
    {
        Self {
            need,
            rank,
            state: AgentState::Rest,
            enter_time: u16::MAX,
            leave_time: u16::MAX,
            rooms: zero_u8_vec(config.world_size),
            lifts: zero_u8_vec(config.world_size),
            defer_rooms: Vec::new(),
            defer_lifts: Vec::new(),
            config,
            clock: Clock::new(),
        }
    }

    pub fn state(&self) -> (state: AgentState)
        ensures
            state == self.state,
    {
        self.state
    }

    pub fn set_state(&mut self, state: AgentState)
        ensures
            *final(self) == (Agent { state, ..*old(self) }),
    {
        self.state = state;
    }

    pub fn enter_time(&self) -> (time: u16)
        ensures
            time == self.enter_time,
    {
        self.enter_time
    }

    /// Freezes the current logical time as the timestamp of the enter
    /// request being issued.
    pub fn set_enter_time(&mut self)
        ensures
            *final(self) == (Agent { enter_time: old(self).clock.time, ..*old(self) }),
    {
        self.enter_time = self.clock.time();
    }

    pub fn leave_time(&self) -> (time: u16)
        ensures
            time == self.leave_time,
    {
        self.leave_time
    }

    /// Freezes the current logical time as the timestamp of the leave
    /// request being issued.
    pub fn set_leave_time(&mut self)
        ensures
            *final(self) == (Agent { leave_time: old(self).clock.time, ..*old(self) }),
    {
        self.leave_time = self.clock.time();
    }

    pub fn rooms_at_rank(&self, rank: i32) -> (rooms: u8)
        requires
            0 <= rank,
            (rank as int) < self.rooms@.len(),
        ensures
            rooms == self.rooms@[rank as int],
    {
        self.rooms[rank as usize]
    }

    pub fn set_rooms_at_rank(&mut self, rank: i32, rooms: u8)
        requires
            0 <= rank,
            (rank as int) < old(self).rooms@.len(),
        ensures
            final(self).rooms@ == old(self).rooms@.update(rank as int, rooms),
            *final(self) == (Agent { rooms: final(self).rooms, ..*old(self) }),
    {
        self.rooms[rank as usize] = rooms;
    }

    pub fn lifts_at_rank(&self, rank: i32) -> (lifts: u8)
        requires
            0 <= rank,
            (rank as int) < self.lifts@.len(),
        ensures
            lifts == self.lifts@[rank as int],
    {
        self.lifts[rank as usize]
    }

    pub fn set_lifts_at_rank(&mut self, rank: i32, lifts: u8)
        requires
            0 <= rank,
            (rank as int) < old(self).lifts@.len(),
        ensures
            final(self).lifts@ == old(self).lifts@.update(rank as int, lifts),
            *final(self) == (Agent { lifts: final(self).lifts, ..*old(self) }),
    {
        self.lifts[rank as usize] = lifts;
    }

    /// The rooms the peer currently believes to be claimed across the whole
    /// group.
    pub fn taken_rooms_count(&self) -> (total: u16)
        requires
            self.rooms@.len() <= 256,
        ensures
            total == sum_of(self.rooms@),
    {
        sum_u8_vec(&self.rooms)
    }

    /// The lifts the peer currently believes to be claimed across the whole
    /// group.
    pub fn taken_lifts_count(&self) -> (total: u16)
        requires
            self.lifts@.len() <= 256,
        ensures
            total == sum_of(self.lifts@),
    {
        sum_u8_vec(&self.lifts)
    }

    /// The priority rule, read from the local peer's side: true when the
    /// sender of the request wins against this peer.
    pub fn sender_priority(&self, my_time: u16, sender_time: u16, sender_rank: i32) -> (result:
        bool)
        ensures
            result == sender_priority_spec(self.rank, my_time, sender_time, sender_rank),
    {
        (my_time > sender_time) || (my_time == sender_time && self.rank > sender_rank)
    }

    /// Advances the phase to its successor in the cycle, ticking the clock
    /// once, as every transition does.
    pub fn next_state(&mut self)
        requires
            old(self).clock.time < u16::MAX,
        ensures
            *final(self) == (Agent {
                state: next_phase(old(self).state),
                clock: (Clock { time: (old(self).clock.time + 1) as u16 }),
                ..*old(self)
            }),
    {
        let new_state = match self.state {
            AgentState::Rest => AgentState::Try,
            AgentState::Try => AgentState::Down,
            AgentState::Down => AgentState::Crit,
            AgentState::Crit => AgentState::Leaving,
            AgentState::Leaving => AgentState::Up,
            AgentState::Up => AgentState::Rest,
        };
        self.clock.inc();
        self.state = new_state;
    }
}

/// Fields a message handler never touches: who the peer is and what instance
/// it plays in.
pub open spec fn unchanged_identity(pre: Agent, post: Agent) -> bool {
    &&& post.need == pre.need
    &&& post.rank == pre.rank
    &&& post.config == pre.config
}

/// The ghost shape of an optional reply.
pub open spec fn opt_msg_model(reply: Option<OutgoingMessage>) -> Option<MsgModel> {
    match reply {
        Some(m) => Some(msg_model(m)),
        None => None,
    }
}

/// An enter request is granted in full when the local peer rests or the
/// sender wins the priority comparison against the local enter timestamp.
pub open spec fn enter_request_full_grant(pre: Agent, request_time: u16, sender_rank: i32) -> bool {
    pre.state == AgentState::Rest || sender_priority_spec(
        pre.rank,
        pre.enter_time,
        request_time,
        sender_rank,
    )
}

/// What handling an enter request does. The local peer replies exactly once,
/// with a Resources message for the sender carrying the current logical
/// time:
/// - a full grant (the whole room capacity and one lift) when the peer rests
///   or the sender has priority;
/// - everything but the peer's own rooms, and the lift, when the peer sits
///   in the critical section; the rooms reply is deferred;
/// - everything but the peer's own rooms and no lift otherwise; both replies
///   are deferred.
pub open spec fn enter_request_step(
    pre: Agent,
    post: Agent,
    sender_rank: i32,
    request_time: u16,
    reply: MsgModel,
) -> bool {
    &&& unchanged_identity(pre, post)
    &&& post.state == pre.state
    &&& post.clock == pre.clock
    &&& post.enter_time == pre.enter_time
    &&& post.leave_time == pre.leave_time
    &&& post.rooms@ == pre.rooms@
    &&& post.lifts@ == pre.lifts@
    &&& reply.dest == sender_rank as int
    &&& reply.tag == MessageTag::Resources
    &&& if enter_request_full_grant(pre, request_time, sender_rank) {
        &&& reply.payload == seq![pre.config.rooms_count as u16, 1u16, pre.clock.time]
        &&& post.defer_rooms@ == pre.defer_rooms@
        &&& post.defer_lifts@ == pre.defer_lifts@
    } else if pre.state == AgentState::Crit {
        &&& reply.payload == seq![
            (pre.config.rooms_count - pre.need) as u16,
            1u16,
            pre.clock.time,
        ]
        &&& post.defer_rooms@ == pre.defer_rooms@.push(sender_rank as u8)
        &&& post.defer_lifts@ == pre.defer_lifts@
    } else {
        &&& reply.payload == seq![
            (pre.config.rooms_count - pre.need) as u16,
            0u16,
            pre.clock.time,
        ]
        &&& post.defer_rooms@ == pre.defer_rooms@.push(sender_rank as u8)
        &&& post.defer_lifts@ == pre.defer_lifts@.push(sender_rank as u8)
    }
}

/// A leave request is deferred when the local peer is itself on its way up
/// (Leaving or Up) and wins the priority comparison against the sender, by
/// its leave timestamp.
pub open spec fn leave_request_defers(pre: Agent, request_time: u16, sender_rank: i32) -> bool {
    (pre.state == AgentState::Leaving || pre.state == AgentState::Up) && !sender_priority_spec(
        pre.rank,
        pre.leave_time,
        request_time,
        sender_rank,
    )
}

/// What handling a leave request does: either the sender's rank is deferred
/// onto the lift queue and nothing is sent, or the lift is granted: the
/// sender's lift account rises by one and a LeaveResources message goes
/// back.
pub open spec fn leave_request_step(
    pre: Agent,
    post: Agent,
    sender_rank: i32,
    request_time: u16,
    reply: Option<MsgModel>,
) -> bool {
    &&& unchanged_identity(pre, post)
    &&& post.state == pre.state
    &&& post.clock == pre.clock
    &&& post.enter_time == pre.enter_time
    &&& post.leave_time == pre.leave_time
    &&& post.rooms@ == pre.rooms@
    &&& post.defer_rooms@ == pre.defer_rooms@
    &&& if leave_request_defers(pre, request_time, sender_rank) {
        &&& reply is None
        &&& post.lifts@ == pre.lifts@
        &&& post.defer_lifts@ == pre.defer_lifts@.push(sender_rank as u8)
    } else {
        &&& reply == Some(
            MsgModel {
                dest: sender_rank as int,
                tag: MessageTag::LeaveResources,
                payload: seq![0u16, 1u16, pre.clock.time],
            },
        )
        &&& post.lifts@ == pre.lifts@.update(
            sender_rank as int,
            (pre.lifts@[sender_rank as int] + 1) as u8,
        )
        &&& post.defer_lifts@ == pre.defer_lifts@
    }
}

/// What an incoming Resources grant does: the sender's accounts shrink by
/// the granted amounts, and nothing else moves.
pub open spec fn resources_step(
    pre: Agent,
    post: Agent,
    sender_rank: i32,
    msg_rooms: u16,
    msg_lifts: u16,
) -> bool {
    &&& unchanged_identity(pre, post)
    &&& post.state == pre.state
    &&& post.clock == pre.clock
    &&& post.enter_time == pre.enter_time
    &&& post.leave_time == pre.leave_time
    &&& post.defer_rooms@ == pre.defer_rooms@
    &&& post.defer_lifts@ == pre.defer_lifts@
    &&& post.rooms@ == pre.rooms@.update(
        sender_rank as int,
        (pre.rooms@[sender_rank as int] - msg_rooms) as u8,
    )
    &&& post.lifts@ == pre.lifts@.update(
        sender_rank as int,
        (pre.lifts@[sender_rank as int] - msg_lifts) as u8,
    )
}

/// What an incoming LeaveResources message does: the sender's lift account
/// shrinks by one, and its rank is queued for the grant owed back later.
pub open spec fn leave_resources_step(pre: Agent, post: Agent, sender_rank: i32) -> bool {
    &&& unchanged_identity(pre, post)
    &&& post.state == pre.state
    &&& post.clock == pre.clock
    &&& post.enter_time == pre.enter_time
    &&& post.leave_time == pre.leave_time
    &&& post.rooms@ == pre.rooms@
    &&& post.defer_rooms@ == pre.defer_rooms@
    &&& post.lifts@ == pre.lifts@.update(
        sender_rank as int,
        (pre.lifts@[sender_rank as int] - 1) as u8,
    )
    &&& post.defer_lifts@ == pre.defer_lifts@.push(sender_rank as u8)
}

impl Agent {
    /// Answers an enter request from `sender_rank`, timestamped
    /// `request_time` by the sender, as `enter_request_step` describes.
    pub fn handle_enter_request(&mut self, sender_rank: i32, request_time: u16) -> (reply:
        OutgoingMessage)
        requires
            old(self).well_formed(),
            0 <= sender_rank,
            (sender_rank as int) < old(self).config.world_size,
        ensures
            final(self).well_formed(),
            enter_request_step(*old(self), *final(self), sender_rank, request_time, msg_model(
                reply,
            )),
    {
        let full_grant = matches!(self.state, AgentState::Rest) || self.sender_priority(
            self.enter_time,
            request_time,
            sender_rank,
        );
        let mut message: Vec<u16> = Vec::new();
        if full_grant {
            message.push(self.config.rooms_count as u16);
            message.push(1);
        } else if matches!(self.state, AgentState::Crit) {
            message.push((self.config.rooms_count - self.need) as u16);
            message.push(1);
            self.defer_rooms.push(sender_rank as u8);
        } else {
            message.push((self.config.rooms_count - self.need) as u16);
            message.push(0);
            self.defer_rooms.push(sender_rank as u8);
            self.defer_lifts.push(sender_rank as u8);
        }
        let communicator = TimestampedCommunicator::new(
            &self.clock,
            self.config.world_size,
            self.rank,
        );
        let reply = communicator.send_with_time(&message, sender_rank, MessageTag::Resources);
        proof {
            if full_grant {
                assert(reply.payload@ =~= seq![
                    self.config.rooms_count as u16,
                    1u16,
                    self.clock.time,
                ]);
            } else if self.state == AgentState::Crit {
                assert(reply.payload@ =~= seq![
                    (self.config.rooms_count - self.need) as u16,
                    1u16,
                    self.clock.time,
                ]);
            } else {
                assert(reply.payload@ =~= seq![
                    (self.config.rooms_count - self.need) as u16,
                    0u16,
                    self.clock.time,
                ]);
            }
        }
        reply
    }

    /// Answers a leave request from `sender_rank`, timestamped
    /// `request_time` by the sender, as `leave_request_step` describes.
    pub fn handle_leave_request(&mut self, sender_rank: i32, request_time: u16) -> (reply: Option<
        OutgoingMessage,
    >)
        requires
            old(self).well_formed(),
            0 <= sender_rank,
            (sender_rank as int) < old(self).config.world_size,
            !leave_request_defers(*old(self), request_time, sender_rank) ==> old(
                self,
            ).lifts@[sender_rank as int] < 255,
        ensures
            final(self).well_formed(),
            leave_request_step(*old(self), *final(self), sender_rank, request_time, opt_msg_model(
                reply,
            )),
    {
        let defers = matches!(self.state, AgentState::Leaving | AgentState::Up)
            && !self.sender_priority(self.leave_time, request_time, sender_rank);
        if defers {
            self.defer_lifts.push(sender_rank as u8);
            None
        } else {
            let current = self.lifts_at_rank(sender_rank);
            self.set_lifts_at_rank(sender_rank, current + 1);
            let mut message: Vec<u16> = Vec::new();
            message.push(0);
            message.push(1);
            let communicator = TimestampedCommunicator::new(
                &self.clock,
                self.config.world_size,
                self.rank,
            );
            let reply = communicator.send_with_time(
                &message,
                sender_rank,
                MessageTag::LeaveResources,
            );
            proof {
                assert(reply.payload@ =~= seq![0u16, 1u16, self.clock.time]);
            }
            Some(reply)
        }
    }

    /// Books an incoming Resources grant from `sender_rank`, as
    /// `resources_step` describes.
    pub fn handle_resources(&mut self, sender_rank: i32, msg_rooms: u16, msg_lifts: u16)
        requires
            old(self).well_formed(),
            0 <= sender_rank,
            (sender_rank as int) < old(self).config.world_size,
            msg_rooms <= old(self).rooms@[sender_rank as int],
            msg_lifts <= old(self).lifts@[sender_rank as int],
        ensures
            final(self).well_formed(),
            resources_step(*old(self), *final(self), sender_rank, msg_rooms, msg_lifts),
    {
        let index = sender_rank as usize;
        let rooms = self.rooms[index];
        self.rooms[index] = rooms - (msg_rooms as u8);
        let lifts = self.lifts[index];
        self.lifts[index] = lifts - (msg_lifts as u8);
    }

    /// Books an incoming LeaveResources message from `sender_rank`, as
    /// `leave_resources_step` describes.
    pub fn handle_leave_resources(&mut self, sender_rank: i32)
        requires
            old(self).well_formed(),
            0 <= sender_rank,
            (sender_rank as int) < old(self).config.world_size,
            old(self).lifts@[sender_rank as int] >= 1,
        ensures
            final(self).well_formed(),
            leave_resources_step(*old(self), *final(self), sender_rank),
    {
        let index = sender_rank as usize;
        let lifts = self.lifts[index];
        self.lifts[index] = lifts - 1;
        self.defer_lifts.push(sender_rank as u8);
    }
}

/// The readiness predicate of Try: the peer may go down once the rooms it
/// believes claimed fit the room capacity and the lifts it believes claimed
/// fit the lift capacity.
pub open spec fn down_ready(a: Agent) -> bool {
    sum_of(a.rooms@) <= a.config.rooms_count && sum_of(a.lifts@) <= a.config.lifts_count
}

/// The readiness predicate of Leaving: the peer may go up once the lifts it
/// believes claimed fit the lift capacity.
pub open spec fn up_ready(a: Agent) -> bool {
    sum_of(a.lifts@) <= a.config.lifts_count
}

/// The peer advanced one phase: the state moved to its successor, the clock
/// ticked once, and nothing else changed.
pub open spec fn advanced(pre: Agent, post: Agent) -> bool {
    post == (Agent {
        state: next_phase(pre.state),
        clock: (Clock { time: (pre.clock.time + 1) as u16 }),
        ..pre
    })
}

/// What the step out of Rest does: the current logical time is frozen as
/// the enter timestamp, an empty EnterRequest is broadcast with that time,
/// and the permission vectors turn pessimistic: the own entry takes the own
/// need (one lift), every other entry grows by the whole room capacity (one
/// more lift), on top of any grant still outstanding from an earlier cycle.
pub open spec fn rest_step(pre: Agent, post: Agent, msgs: Seq<OutgoingMessage>) -> bool {
    &&& unchanged_identity(pre, post)
    &&& post.state == AgentState::Try
    &&& post.clock.time == pre.clock.time + 1
    &&& post.enter_time == pre.clock.time
    &&& post.leave_time == pre.leave_time
    &&& post.defer_rooms@ == pre.defer_rooms@
    &&& post.defer_lifts@ == pre.defer_lifts@
    &&& post.rooms@.len() == pre.rooms@.len()
    &&& post.lifts@.len() == pre.lifts@.len()
    &&& forall|k: int|
        0 <= k < post.rooms@.len() ==> #[trigger] post.rooms@[k] == if k == pre.rank as int {
            pre.need
        } else {
            (pre.rooms@[k] + pre.config.rooms_count) as u8
        }
    &&& forall|k: int|
        0 <= k < post.lifts@.len() ==> #[trigger] post.lifts@[k] == if k == pre.rank as int {
            1u8
        } else {
            (pre.lifts@[k] + 1) as u8
        }
    &&& is_broadcast(
        msgs,
        pre.config.world_size as int,
        pre.rank as int,
        MessageTag::EnterRequest,
        seq![pre.clock.time],
    )
}

/// What the step at Try does: nothing is sent; the peer advances exactly
/// when it is down-ready, and otherwise stays put, clock included.
pub open spec fn try_step(pre: Agent, post: Agent, msgs: Seq<OutgoingMessage>) -> bool {
    &&& msgs.len() == 0
    &&& if down_ready(pre) {
        advanced(pre, post)
    } else {
        post == pre
    }
}

/// What the step out of Down does: every rank of the lift defer queue gets
/// one granting Resources message (no rooms, one lift, the current time), in
/// queue order, and the queue empties.
pub open spec fn down_step(pre: Agent, post: Agent, msgs: Seq<OutgoingMessage>) -> bool {
    &&& unchanged_identity(pre, post)
    &&& post.state == AgentState::Crit
    &&& post.clock.time == pre.clock.time + 1
    &&& post.enter_time == pre.enter_time
    &&& post.leave_time == pre.leave_time
    &&& post.rooms@ == pre.rooms@
    &&& post.lifts@ == pre.lifts@
    &&& post.defer_rooms@ == pre.defer_rooms@
    &&& post.defer_lifts@ == Seq::<u8>::empty()
    &&& msgs.len() == pre.defer_lifts@.len()
    &&& forall|j: int|
        0 <= j < msgs.len() ==> msg_model(#[trigger] msgs[j]) == (MsgModel {
            dest: pre.defer_lifts@[j] as int,
            tag: MessageTag::Resources,
            payload: seq![0u16, 1u16, pre.clock.time],
        })
}

/// What the step out of Crit does: the lift vector turns pessimistic (the
/// own entry one, every other entry one more than before), the current time
/// is frozen as the leave timestamp, and an empty LeaveRequest is broadcast
/// with that time.
pub open spec fn crit_step(pre: Agent, post: Agent, msgs: Seq<OutgoingMessage>) -> bool {
    &&& unchanged_identity(pre, post)
    &&& post.state == AgentState::Leaving
    &&& post.clock.time == pre.clock.time + 1
    &&& post.enter_time == pre.enter_time
    &&& post.leave_time == pre.clock.time
    &&& post.rooms@ == pre.rooms@
    &&& post.defer_rooms@ == pre.defer_rooms@
    &&& post.defer_lifts@ == pre.defer_lifts@
    &&& post.lifts@.len() == pre.lifts@.len()
    &&& forall|k: int|
        0 <= k < post.lifts@.len() ==> #[trigger] post.lifts@[k] == if k == pre.rank as int {
            1u8
        } else {
            (pre.lifts@[k] + 1) as u8
        }
    &&& is_broadcast(
        msgs,
        pre.config.world_size as int,
        pre.rank as int,
        MessageTag::LeaveRequest,
        seq![pre.clock.time],
    )
}

/// What the step at Leaving does: nothing is sent; the peer advances exactly
/// when it is up-ready, and otherwise stays put, clock included.
pub open spec fn leaving_step(pre: Agent, post: Agent, msgs: Seq<OutgoingMessage>) -> bool {
    &&& msgs.len() == 0
    &&& if up_ready(pre) {
        advanced(pre, post)
    } else {
        post == pre
    }
}

/// The reply the step out of Up owes rank `r`: the deferred rooms (the own
/// need, once per queued occurrence) and the deferred lifts (one per queued
/// occurrence), in a single Resources message — or no message at all when
/// nothing is owed.
pub open spec fn up_reply_to(dr: Seq<u8>, dl: Seq<u8>, need: u8, r: int, t: u16) -> Seq<MsgModel> {
    let rooms_owed = need * count_of(dr, r as u8);
    let lifts_owed = count_of(dl, r as u8);
    if rooms_owed != 0 || lifts_owed != 0 {
        seq![
            MsgModel {
                dest: r,
                tag: MessageTag::Resources,
                payload: seq![rooms_owed as u16, lifts_owed as u16, t],
            },
        ]
    } else {
        Seq::empty()
    }
}

/// The replies the step out of Up sends: one message per owed rank below
/// `upto`, in rank order.
pub open spec fn up_replies(dr: Seq<u8>, dl: Seq<u8>, need: u8, upto: int, t: u16) -> Seq<MsgModel>
    decreases upto,
{
    if upto <= 0 {
        Seq::empty()
    } else {
        up_replies(dr, dl, need, upto - 1, t) + up_reply_to(dr, dl, need, upto - 1, t)
    }
}

/// The ghost shapes of a batch of outgoing messages.
pub open spec fn models_of(msgs: Seq<OutgoingMessage>) -> Seq<MsgModel> {
    msgs.map_values(|m: OutgoingMessage| msg_model(m))
}

/// What the step out of Up does: both defer queues drain into the owed
/// Resources messages, exactly one per owed rank, all carrying the current
/// time, and the peer returns to Rest.
pub open spec fn up_step(pre: Agent, post: Agent, msgs: Seq<OutgoingMessage>) -> bool {
    &&& unchanged_identity(pre, post)
    &&& post.state == AgentState::Rest
    &&& post.clock.time == pre.clock.time + 1
    &&& post.enter_time == pre.enter_time
    &&& post.leave_time == pre.leave_time
    &&& post.rooms@ == pre.rooms@
    &&& post.lifts@ == pre.lifts@
    &&& post.defer_rooms@ == Seq::<u8>::empty()
    &&& post.defer_lifts@ == Seq::<u8>::empty()
    &&& models_of(msgs) == up_replies(
        pre.defer_rooms@,
        pre.defer_lifts@,
        pre.need,
        pre.config.world_size as int,
        pre.clock.time,
    )
}

/// One step of the progress thread, from whichever phase the peer stands
/// in.
pub open spec fn machine_step(pre: Agent, post: Agent, msgs: Seq<OutgoingMessage>) -> bool {
    match pre.state {
        AgentState::Rest => rest_step(pre, post, msgs),
        AgentState::Try => try_step(pre, post, msgs),
        AgentState::Down => down_step(pre, post, msgs),
        AgentState::Crit => crit_step(pre, post, msgs),
        AgentState::Leaving => leaving_step(pre, post, msgs),
        AgentState::Up => up_step(pre, post, msgs),
    }
}

/// The machine bounds a step must respect: the clock has room to tick, the
/// pessimistic vector entries stay one byte, and the owed amounts of an Up
/// drain stay within a payload element. A run is assumed short enough that
/// all of these hold throughout.
pub open spec fn run_enabled(a: Agent) -> bool {
    &&& a.clock.time < u16::MAX
    &&& match a.state {
        AgentState::Rest => {
            &&& forall|k: int|
                0 <= k < a.rooms@.len() && k != a.rank as int ==> (#[trigger] a.rooms@[k])
                    + a.config.rooms_count <= 255
            &&& forall|k: int|
                0 <= k < a.lifts@.len() && k != a.rank as int ==> (#[trigger] a.lifts@[k]) + 1
                    <= 255
        },
        AgentState::Crit => forall|k: int|
            0 <= k < a.lifts@.len() && k != a.rank as int ==> (#[trigger] a.lifts@[k]) + 1 <= 255,
        AgentState::Up => {
            &&& a.need * a.defer_rooms@.len() <= u16::MAX
            &&& a.defer_lifts@.len() <= u16::MAX
        },
        _ => true,
    }
}

impl Agent {
    /// One step of the progress thread: performs the entry action of the
    /// current phase and advances when the phase's exit condition holds,
    /// returning the messages the step owes the transport.
    pub fn run(&mut self) -> (msgs: Vec<OutgoingMessage>)
        requires
            old(self).well_formed(),
            run_enabled(*old(self)),
        ensures
            final(self).well_formed(),
            machine_step(*old(self), *final(self), msgs@),
    {
        match self.state {
            AgentState::Rest => self.step_rest(),
            AgentState::Try => self.step_try(),
            AgentState::Down => self.step_down(),
            AgentState::Crit => self.step_crit(),
            AgentState::Leaving => self.step_leaving(),
            AgentState::Up => self.step_up(),
        }
    }

    fn step_rest(&mut self) -> (msgs: Vec<OutgoingMessage>)
        requires
            old(self).well_formed(),
            old(self).state == AgentState::Rest,
            run_enabled(*old(self)),
        ensures
            final(self).well_formed(),
            rest_step(*old(self), *final(self), msgs@),
    {
        self.set_enter_time();
        let empty_message: Vec<u16> = Vec::new();
        let communicator = TimestampedCommunicator::new(
            &self.clock,
            self.config.world_size,
            self.rank,
        );
        let msgs = communicator.broadcast_with_time(&empty_message, MessageTag::EnterRequest);
        proof {
            assert(empty_message@.push(self.clock.time) =~= seq![self.clock.time]);
        }
        let ws = self.config.world_size;
        let mut index: usize = 0;
        while index < ws
            invariant
                old(self).well_formed(),
                old(self).state == AgentState::Rest,
                run_enabled(*old(self)),
                ws == self.config.world_size,
                index <= ws,
                self.config == old(self).config,
                self.rank == old(self).rank,
                self.need == old(self).need,
                self.clock == old(self).clock,
                self.state == old(self).state,
                self.enter_time == old(self).clock.time,
                self.leave_time == old(self).leave_time,
                self.defer_rooms@ == old(self).defer_rooms@,
                self.defer_lifts@ == old(self).defer_lifts@,
                self.rooms@.len() == ws,
                self.lifts@.len() == ws,
                forall|k: int|
                    0 <= k < index ==> #[trigger] self.rooms@[k] == if k == self.rank as int {
                        self.need
                    } else {
                        (old(self).rooms@[k] + self.config.rooms_count) as u8
                    },
                forall|k: int|
                    0 <= k < index ==> #[trigger] self.lifts@[k] == if k == self.rank as int {
                        1u8
                    } else {
                        (old(self).lifts@[k] + 1) as u8
                    },
                forall|k: int| index <= k < ws ==> #[trigger] self.rooms@[k] == old(self).rooms@[k],
                forall|k: int| index <= k < ws ==> #[trigger] self.lifts@[k] == old(self).lifts@[k],
            decreases ws - index,
        {
            if index == self.rank as usize {
                let need = self.need;
                self.rooms[index] = need;
                self.lifts[index] = 1;
            } else {
                let rooms = self.rooms[index];
                self.rooms[index] = rooms + self.config.rooms_count;
                let lifts = self.lifts[index];
                self.lifts[index] = lifts + 1;
            }
            index = index + 1;
        }
        self.next_state();
        msgs
    }

    fn step_try(&mut self) -> (msgs: Vec<OutgoingMessage>)
        requires
            old(self).well_formed(),
            old(self).state == AgentState::Try,
            old(self).clock.time < u16::MAX,
        ensures
            final(self).well_formed(),
            try_step(*old(self), *final(self), msgs@),
    {
        let rooms_ok = self.taken_rooms_count() <= self.config.rooms_count as u16;
        let lifts_ok = self.taken_lifts_count() <= self.config.lifts_count as u16;
        if rooms_ok && lifts_ok {
            self.next_state();
        }
        Vec::new()
    }

    fn step_down(&mut self) -> (msgs: Vec<OutgoingMessage>)
        requires
            old(self).well_formed(),
            old(self).state == AgentState::Down,
            old(self).clock.time < u16::MAX,
        ensures
            final(self).well_formed(),
            down_step(*old(self), *final(self), msgs@),
    {
        let mut grant: Vec<u16> = Vec::new();
        grant.push(0);
        grant.push(1);
        let communicator = TimestampedCommunicator::new(
            &self.clock,
            self.config.world_size,
            self.rank,
        );
        let mut msgs: Vec<OutgoingMessage> = Vec::new();
        let mut j: usize = 0;
        while j < self.defer_lifts.len()
            invariant
                *self == *old(self),
                j <= self.defer_lifts@.len(),
                grant@ == seq![0u16, 1u16],
                communicator.clock == &self.clock,
                msgs@.len() == j,
                forall|i: int|
                    0 <= i < j ==> msg_model(#[trigger] msgs@[i]) == (MsgModel {
                        dest: self.defer_lifts@[i] as int,
                        tag: MessageTag::Resources,
                        payload: seq![0u16, 1u16, self.clock.time],
                    }),
            decreases self.defer_lifts@.len() - j,
        {
            let deferred_rank = self.defer_lifts[j];
            let m = communicator.send_with_time(&grant, deferred_rank as i32, MessageTag::Resources);
            proof {
                assert(m.payload@ =~= seq![0u16, 1u16, self.clock.time]);
            }
            msgs.push(m);
            j = j + 1;
        }
        self.defer_lifts.clear();
        self.next_state();
        msgs
    }

    fn step_crit(&mut self) -> (msgs: Vec<OutgoingMessage>)
        requires
            old(self).well_formed(),
            old(self).state == AgentState::Crit,
            run_enabled(*old(self)),
        ensures
            final(self).well_formed(),
            crit_step(*old(self), *final(self), msgs@),
    {
        let ws = self.config.world_size;
        let mut index: usize = 0;
        while index < ws
            invariant
                old(self).well_formed(),
                old(self).state == AgentState::Crit,
                run_enabled(*old(self)),
                ws == self.config.world_size,
                index <= ws,
                self.config == old(self).config,
                self.rank == old(self).rank,
                self.need == old(self).need,
                self.clock == old(self).clock,
                self.state == old(self).state,
                self.enter_time == old(self).enter_time,
                self.leave_time == old(self).leave_time,
                self.defer_rooms@ == old(self).defer_rooms@,
                self.defer_lifts@ == old(self).defer_lifts@,
                self.rooms@ == old(self).rooms@,
                self.lifts@.len() == ws,
                forall|k: int|
                    0 <= k < index ==> #[trigger] self.lifts@[k] == if k == self.rank as int {
                        1u8
                    } else {
                        (old(self).lifts@[k] + 1) as u8
                    },
                forall|k: int| index <= k < ws ==> #[trigger] self.lifts@[k] == old(self).lifts@[k],
            decreases ws - index,
        {
            if index == self.rank as usize {
                self.lifts[index] = 1;
            } else {
                let lifts = self.lifts[index];
                self.lifts[index] = lifts + 1;
            }
            index = index + 1;
        }
        self.set_leave_time();
        let empty_message: Vec<u16> = Vec::new();
        let communicator = TimestampedCommunicator::new(
            &self.clock,
            self.config.world_size,
            self.rank,
        );
        let msgs = communicator.broadcast_with_time(&empty_message, MessageTag::LeaveRequest);
        proof {
            assert(empty_message@.push(self.clock.time) =~= seq![self.clock.time]);
        }
        self.next_state();
        msgs
    }

    fn step_leaving(&mut self) -> (msgs: Vec<OutgoingMessage>)
        requires
            old(self).well_formed(),
            old(self).state == AgentState::Leaving,
            old(self).clock.time < u16::MAX,
        ensures
            final(self).well_formed(),
            leaving_step(*old(self), *final(self), msgs@),
    {
        let lifts_ok = self.taken_lifts_count() <= self.config.lifts_count as u16;
        if lifts_ok {
            self.next_state();
        }
        Vec::new()
    }

    fn step_up(&mut self) -> (msgs: Vec<OutgoingMessage>)
        requires
            old(self).well_formed(),
            old(self).state == AgentState::Up,
            run_enabled(*old(self)),
        ensures
            final(self).well_formed(),
            up_step(*old(self), *final(self), msgs@),
    {
        let ws = self.config.world_size;
        let ghost dr0 = self.defer_rooms@;
        let ghost dl0 = self.defer_lifts@;
        let mut owed_rooms: Vec<u16> = zero_u16_vec(ws);
        let mut owed_lifts: Vec<u16> = zero_u16_vec(ws);
        let mut j: usize = 0;
        while j < self.defer_rooms.len()
            invariant
                *self == *old(self),
                old(self).well_formed(),
                run_enabled(*old(self)),
                old(self).state == AgentState::Up,
                dr0 == self.defer_rooms@,
                ws == self.config.world_size,
                j <= dr0.len(),
                owed_rooms@.len() == ws,
                forall|r: int|
                    0 <= r < ws ==> #[trigger] owed_rooms@[r] == self.need * count_of(
                        dr0.take(j as int),
                        r as u8,
                    ),
            decreases dr0.len() - j,
        {
            let deferred_rank = self.defer_rooms[j] as usize;
            let current = owed_rooms[deferred_rank];
            proof {
                assert forall|r: u8| count_of(dr0.take(j as int + 1), r) == count_of(
                    dr0.take(j as int),
                    r,
                ) + if dr0[j as int] == r {
                    1int
                } else {
                    0int
                } by {
                    lemma_count_take_succ(dr0, j as int, r);
                }
                let queued = dr0[j as int];
                let count_before = count_of(dr0.take(j as int), queued);
                let count_after = count_of(dr0.take(j as int + 1), queued);
                lemma_count_le_len(dr0.take(j as int + 1), queued);
                assert(dr0.take(j as int + 1).len() == j + 1);
                assert(deferred_rank as int == queued as int);
                assert(current == self.need * count_before);
                assert(self.need * count_after == self.need * count_before + self.need) by (nonlinear_arith)
                    requires
                        count_after == count_before + 1,
                ;
                assert(self.need * count_after <= self.need * dr0.len()) by (nonlinear_arith)
                    requires
                        0 <= self.need,
                        0 <= count_after <= dr0.len(),
                ;
                assert(current + self.need <= 65535);
            }
            owed_rooms[deferred_rank] = current + self.need as u16;
            j = j + 1;
        }
        proof {
            assert(dr0.take(dr0.len() as int) =~= dr0);
        }
        let mut j: usize = 0;
        while j < self.defer_lifts.len()
            invariant
                *self == *old(self),
                old(self).well_formed(),
                run_enabled(*old(self)),
                old(self).state == AgentState::Up,
                dl0 == self.defer_lifts@,
                ws == self.config.world_size,
                j <= dl0.len(),
                owed_lifts@.len() == ws,
                forall|r: int|
                    0 <= r < ws ==> #[trigger] owed_lifts@[r] == count_of(
                        dl0.take(j as int),
                        r as u8,
                    ),
            decreases dl0.len() - j,
        {
            let deferred_rank = self.defer_lifts[j] as usize;
            let current = owed_lifts[deferred_rank];
            proof {
                assert forall|r: u8| count_of(dl0.take(j as int + 1), r) == count_of(
                    dl0.take(j as int),
                    r,
                ) + if dl0[j as int] == r {
                    1int
                } else {
                    0int
                } by {
                    lemma_count_take_succ(dl0, j as int, r);
                }
                let queued = dl0[j as int];
                lemma_count_le_len(dl0.take(j as int + 1), queued);
                assert(dl0.take(j as int + 1).len() == j + 1);
                assert(deferred_rank as int == queued as int);
                assert(current == count_of(dl0.take(j as int), queued));
                assert(current + 1 <= 65535);
            }
            owed_lifts[deferred_rank] = current + 1;
            j = j + 1;
        }
        proof {
            assert(dl0.take(dl0.len() as int) =~= dl0);
        }
        self.defer_rooms.clear();
        self.defer_lifts.clear();
        let communicator = TimestampedCommunicator::new(
            &self.clock,
            self.config.world_size,
            self.rank,
        );
        let mut msgs: Vec<OutgoingMessage> = Vec::new();
        let mut k: usize = 0;
        while k < ws
            invariant
                old(self).well_formed(),
                run_enabled(*old(self)),
                old(self).state == AgentState::Up,
                ws == self.config.world_size,
                self.config == old(self).config,
                self.rank == old(self).rank,
                self.need == old(self).need,
                self.clock == old(self).clock,
                self.state == old(self).state,
                self.enter_time == old(self).enter_time,
                self.leave_time == old(self).leave_time,
                self.rooms@ == old(self).rooms@,
                self.lifts@ == old(self).lifts@,
                self.defer_rooms@ == Seq::<u8>::empty(),
                self.defer_lifts@ == Seq::<u8>::empty(),
                communicator.clock == &self.clock,
                k <= ws,
                owed_rooms@.len() == ws,
                owed_lifts@.len() == ws,
                dr0 == old(self).defer_rooms@,
                dl0 == old(self).defer_lifts@,
                forall|r: int|
                    0 <= r < ws ==> #[trigger] owed_rooms@[r] == self.need * count_of(dr0, r as u8),
                forall|r: int|
                    0 <= r < ws ==> #[trigger] owed_lifts@[r] == count_of(dl0, r as u8),
                models_of(msgs@) == up_replies(dr0, dl0, self.need, k as int, self.clock.time),
            decreases ws - k,
        {
            let owed_r = owed_rooms[k];
            let owed_l = owed_lifts[k];
            if owed_r != 0 || owed_l != 0 {
                let mut payload: Vec<u16> = Vec::new();
                payload.push(owed_r);
                payload.push(owed_l);
                let m = communicator.send_with_time(&payload, k as i32, MessageTag::Resources);
                proof {
                    assert(m.payload@ =~= seq![owed_r, owed_l, self.clock.time]);
                    lemma_models_push(msgs@, m);
                    assert(up_reply_to(dr0, dl0, self.need, k as int, self.clock.time) =~= seq![
                        msg_model(m),
                    ]);
                    assert(models_of(msgs@.push(m)) =~= up_replies(
                        dr0,
                        dl0,
                        self.need,
                        k as int + 1,
                        self.clock.time,
                    ));
                }
                msgs.push(m);
            } else {
                proof {
                    assert(up_reply_to(dr0, dl0, self.need, k as int, self.clock.time)
                        =~= Seq::<MsgModel>::empty());
                    assert(models_of(msgs@) =~= up_replies(
                        dr0,
                        dl0,
                        self.need,
                        k as int + 1,
                        self.clock.time,
                    ));
                }
            }
            k = k + 1;
        }
        self.next_state();
        msgs
    }
}

/// The timestamp a received payload carries: its last element, or zero for
/// an empty payload.
pub open spec fn message_timestamp(message: Seq<u16>) -> u16 {
    if message.len() > 0 {
        message.last()
    } else {
        0u16
    }
}

/// The peer as it stands right after observing a received timestamp: only
/// the clock has moved.
pub open spec fn after_observe(a: Agent, ts: u16) -> Agent {
    Agent { clock: (Clock { time: observed_time(a.clock.time, ts) as u16 }), ..a }
}

/// What a received message may ask of the peer, by tag: the clock and the
/// carried timestamp have room to advance, the sender lies in the group, a
/// Resources grant carries both amounts and never exceeds the sender's
/// accounts, and the lift accounts have room for the bookings the tag
/// brings. A violation of any of these marks a desynchronized group, which
/// the protocol treats as fatal before the message is handled.
pub open spec fn receive_enabled(a: Agent, sender_rank: i32, tag: int, message: Seq<u16>) -> bool {
    let ts = message_timestamp(message);
    &&& a.clock.time < u16::MAX
    &&& ts < u16::MAX
    &&& 0 <= tag <= 4
    &&& tag != 3 ==> 0 <= sender_rank && (sender_rank as int) < a.config.world_size
    &&& tag == 0 ==> message.len() >= 2 && message[0] <= a.rooms@[sender_rank as int]
        && message[1] <= a.lifts@[sender_rank as int]
    &&& tag == 2 ==> (!leave_request_defers(a, ts, sender_rank) ==> a.lifts@[sender_rank as int]
        < 255)
    &&& tag == 4 ==> a.lifts@[sender_rank as int] >= 1
}

/// One step of the receiver thread: the carried timestamp is folded into
/// the clock, then the message is dispatched on its tag. The replies are
/// what the matching handler sends; a Finish tag asks the receiver loop to
/// stop and changes nothing but the clock.
pub open spec fn receive_step(
    pre: Agent,
    post: Agent,
    sender_rank: i32,
    tag: int,
    message: Seq<u16>,
    replies: Seq<OutgoingMessage>,
    proceed: bool,
) -> bool {
    let ts = message_timestamp(message);
    let mid = after_observe(pre, ts);
    &&& proceed == (tag != 3)
    &&& if tag == 0 {
        replies.len() == 0 && resources_step(mid, post, sender_rank, message[0], message[1])
    } else if tag == 1 {
        replies.len() == 1 && enter_request_step(mid, post, sender_rank, ts, msg_model(replies[0]))
    } else if tag == 2 {
        &&& replies.len() <= 1
        &&& leave_request_step(
            mid,
            post,
            sender_rank,
            ts,
            if replies.len() == 1 {
                Some(msg_model(replies[0]))
            } else {
                None
            },
        )
    } else if tag == 3 {
        replies.len() == 0 && post == mid
    } else {
        replies.len() == 0 && leave_resources_step(mid, post, sender_rank)
    }
}

impl Agent {
    /// Takes one received message: observes its timestamp, dispatches it on
    /// its tag, and hands back the replies to send together with whether the
    /// receiver loop is to go on.
    pub fn handle_message(&mut self, sender_rank: i32, tag: i32, message: &Vec<u16>) -> (result: (
        Vec<OutgoingMessage>,
        bool,
    ))
        requires
            old(self).well_formed(),
            receive_enabled(*old(self), sender_rank, tag as int, message@),
        ensures
            final(self).well_formed(),
            receive_step(
                *old(self),
                *final(self),
                sender_rank,
                tag as int,
                message@,
                result.0@,
                result.1,
            ),
    {
        let ts = if message.len() > 0 {
            message[message.len() - 1]
        } else {
            0
        };
        self.clock.inc_compare(ts);
        proof {
            assert(*self == after_observe(*old(self), message_timestamp(message@)));
        }
        match MessageTag::from_i32(tag) {
            MessageTag::Resources => {
                self.handle_resources(sender_rank, message[0], message[1]);
                (Vec::new(), true)
            },
            MessageTag::EnterRequest => {
                let reply = self.handle_enter_request(sender_rank, ts);
                let mut replies: Vec<OutgoingMessage> = Vec::new();
                replies.push(reply);
                (replies, true)
            },
            MessageTag::LeaveRequest => {
                match self.handle_leave_request(sender_rank, ts) {
                    Some(reply) => {
                        let mut replies: Vec<OutgoingMessage> = Vec::new();
                        replies.push(reply);
                        (replies, true)
                    },
                    None => (Vec::new(), true),
                }
            },
            MessageTag::Finish => (Vec::new(), false),
            MessageTag::LeaveResources => {
                self.handle_leave_resources(sender_rank);
                (Vec::new(), true)
            },
        }
    }
}

/// Pushing a message onto a batch appends its shape to the batch's shapes.
pub proof fn lemma_models_push(msgs: Seq<OutgoingMessage>, m: OutgoingMessage)
    ensures
        models_of(msgs.push(m)) =~= models_of(msgs).push(msg_model(m)),
{
}

/// A vector of `n` zeroes, one payload element wide.
fn zero_u16_vec(n: usize) -> (v: Vec<u16>)
    ensures
        v@.len() == n,
        forall|i: int| 0 <= i < n ==> v@[i] == 0,
{
    let mut v: Vec<u16> = Vec::new();
    let mut i: usize = 0;
    while i < n
        invariant
            i <= n,
            v@.len() == i,
            forall|k: int| 0 <= k < i ==> v@[k] == 0,
        decreases n - i,
    {
        v.push(0);
        i = i + 1;
    }
    v
}

/// Updating one entry of a permission vector moves its sum by the
/// difference of the entry.
pub proof fn lemma_sum_update(s: Seq<u8>, i: int, v: u8)
    requires
        0 <= i < s.len(),
    ensures
        sum_of(s.update(i, v)) == sum_of(s) - s[i] + v,
    decreases s.len(),
{
    if i == s.len() - 1 {
        assert(s.update(i, v).drop_last() =~= s.drop_last());
        assert(s.update(i, v).last() == v);
    } else {
        lemma_sum_update(s.drop_last(), i, v);
        assert(s.update(i, v).drop_last() =~= s.drop_last().update(i, v));
        assert(s.update(i, v).last() == s.last());
    }
}

/// Booking a Resources grant lowers the believed claims by exactly the
/// granted amounts: incoming grants monotonically lower the sums the
/// readiness predicates watch.
pub proof fn lemma_resources_lower_sums(
    pre: Agent,
    post: Agent,
    sender_rank: i32,
    msg_rooms: u16,
    msg_lifts: u16,
)
    requires
        pre.well_formed(),
        0 <= sender_rank,
        (sender_rank as int) < pre.config.world_size,
        msg_rooms <= pre.rooms@[sender_rank as int],
        msg_lifts <= pre.lifts@[sender_rank as int],
        resources_step(pre, post, sender_rank, msg_rooms, msg_lifts),
    ensures
        sum_of(post.rooms@) == sum_of(pre.rooms@) - msg_rooms,
        sum_of(post.lifts@) == sum_of(pre.lifts@) - msg_lifts,
{
    lemma_sum_update(
        pre.rooms@,
        sender_rank as int,
        (pre.rooms@[sender_rank as int] - msg_rooms) as u8,
    );
    lemma_sum_update(
        pre.lifts@,
        sender_rank as int,
        (pre.lifts@[sender_rank as int] - msg_lifts) as u8,
    );
}

/// Room safety at the threshold: the step that takes a peer from Try to Down
/// happens only when the believed room claims of the whole group — the own
/// need included — fit the room capacity, and the believed lift claims fit
/// the lift capacity; the step changes neither vector.
pub proof fn lemma_down_threshold(pre: Agent, post: Agent, msgs: Seq<OutgoingMessage>)
    requires
        pre.state == AgentState::Try,
        machine_step(pre, post, msgs),
        post.state == AgentState::Down,
    ensures
        down_ready(pre),
        sum_of(post.rooms@) <= post.config.rooms_count,
        sum_of(post.lifts@) <= post.config.lifts_count,
{
}

/// Lift safety at the threshold: the step that takes a peer from Leaving to Up
/// happens only when the believed lift claims of the whole group fit the
/// lift capacity; the step changes no vector.
pub proof fn lemma_up_threshold(pre: Agent, post: Agent, msgs: Seq<OutgoingMessage>)
    requires
        pre.state == AgentState::Leaving,
        machine_step(pre, post, msgs),
        post.state == AgentState::Up,
    ensures
        up_ready(pre),
        sum_of(post.lifts@) <= post.config.lifts_count,
{
}

/// Every reply of the step out of Up is a Resources message for a rank of
/// the group, carrying exactly the rooms and lifts owed to that rank and the
/// step's timestamp as its final element.
pub proof fn lemma_up_replies_shape(dr: Seq<u8>, dl: Seq<u8>, need: u8, upto: int, t: u16)
    requires
        upto <= 256,
    ensures
        forall|i: int|
            0 <= i < up_replies(dr, dl, need, upto, t).len() ==> {
                let m = #[trigger] up_replies(dr, dl, need, upto, t)[i];
                &&& m.tag == MessageTag::Resources
                &&& 0 <= m.dest < upto
                &&& m.payload == seq![
                    (need * count_of(dr, m.dest as u8)) as u16,
                    count_of(dl, m.dest as u8) as u16,
                    t,
                ]
                &&& m.payload.len() == 3
                &&& m.payload.last() == t
            },
    decreases upto,
{
    if upto > 0 {
        lemma_up_replies_shape(dr, dl, need, upto - 1, t);
    }
}

/// Deferred-reply conservation: the batch the step out of Up sends answers
/// every rank that stands in either defer queue — there is a message for it
/// — and it answers no rank twice: the destinations are strictly increasing
/// along the batch. Together with `lemma_up_replies_shape`, every
/// enter request deferred onto the room queue and every lift withheld onto
/// the lift queue is answered exactly once, on this step.
pub proof fn lemma_up_replies_conservation(dr: Seq<u8>, dl: Seq<u8>, need: u8, upto: int, t: u16)
    requires
        1 <= need,
        upto <= 256,
    ensures
        forall|r: int|
            #![trigger count_of(dr, r as u8)]
            #![trigger count_of(dl, r as u8)]
            0 <= r < upto && (count_of(dr, r as u8) > 0 || count_of(dl, r as u8) > 0)
                ==> exists|i: int|
                0 <= i < up_replies(dr, dl, need, upto, t).len() && (#[trigger] up_replies(
                    dr,
                    dl,
                    need,
                    upto,
                    t,
                )[i]).dest == r,
        forall|i: int, i2: int|
            0 <= i < i2 < up_replies(dr, dl, need, upto, t).len() ==> (#[trigger] up_replies(
                dr,
                dl,
                need,
                upto,
                t,
            )[i]).dest < (#[trigger] up_replies(dr, dl, need, upto, t)[i2]).dest,
    decreases upto,
{
    if upto > 0 {
        lemma_up_replies_conservation(dr, dl, need, upto - 1, t);
        lemma_up_replies_shape(dr, dl, need, upto - 1, t);
        let prefix = up_replies(dr, dl, need, upto - 1, t);
        let whole = up_replies(dr, dl, need, upto, t);
        let r = upto - 1;
        if count_of(dr, r as u8) > 0 || count_of(dl, r as u8) > 0 {
            if count_of(dr, r as u8) > 0 {
                assert(need * count_of(dr, r as u8) > 0) by (nonlinear_arith)
                    requires
                        1 <= need,
                        count_of(dr, r as u8) > 0,
                ;
            }
            assert(whole[prefix.len() as int].dest == r);
        }
        assert forall|q: int|
            #![trigger count_of(dr, q as u8)]
            #![trigger count_of(dl, q as u8)]
            0 <= q < upto && (count_of(dr, q as u8) > 0 || count_of(dl, q as u8) > 0) implies exists|
            i: int,
        | 0 <= i < whole.len() && (#[trigger] whole[i]).dest == q by {
            if q < upto - 1 {
                let i = choose|i: int| 0 <= i < prefix.len() && (#[trigger] prefix[i]).dest == q;
                assert(whole[i].dest == q);
            } else {
                assert(whole[prefix.len() as int].dest == q);
            }
        }
    }
}

/// A rank that stands in a queue has a positive count there.
pub proof fn lemma_member_counts(s: Seq<u8>, j: int)
    requires
        0 <= j < s.len(),
    ensures
        count_of(s, s[j]) > 0,
    decreases s.len(),
{
    lemma_count_le_len(s.drop_last(), s[j]);
    if j < s.len() - 1 {
        lemma_member_counts(s.drop_last(), j);
        assert(s.drop_last()[j] == s[j]);
    } else {
        assert(s.last() == s[j]);
    }
}

/// Deferred-reply conservation over the whole step out of Up: both queues
/// end empty, every rank that stood in either queue has a message of the
/// batch addressed to it, and no rank has two — the destinations strictly
/// increase along the batch.
pub proof fn lemma_up_step_conservation(pre: Agent, post: Agent, msgs: Seq<OutgoingMessage>)
    requires
        pre.well_formed(),
        pre.state == AgentState::Up,
        machine_step(pre, post, msgs),
    ensures
        post.defer_rooms@.len() == 0,
        post.defer_lifts@.len() == 0,
        forall|j: int|
            #![trigger pre.defer_rooms@[j]]
            0 <= j < pre.defer_rooms@.len() ==> exists|i: int|
                0 <= i < msgs.len() && (#[trigger] msgs[i]).receiver_rank == pre.defer_rooms@[j] as int,
        forall|j: int|
            #![trigger pre.defer_lifts@[j]]
            0 <= j < pre.defer_lifts@.len() ==> exists|i: int|
                0 <= i < msgs.len() && (#[trigger] msgs[i]).receiver_rank == pre.defer_lifts@[j] as int,
        forall|i1: int, i2: int|
            0 <= i1 < i2 < msgs.len() ==> (#[trigger] msgs[i1]).receiver_rank < (
            #[trigger] msgs[i2]).receiver_rank,
{
    let dr = pre.defer_rooms@;
    let dl = pre.defer_lifts@;
    let ws = pre.config.world_size as int;
    let t = pre.clock.time;
    let shapes = up_replies(dr, dl, pre.need, ws, t);
    lemma_up_replies_conservation(dr, dl, pre.need, ws, t);
    lemma_up_replies_shape(dr, dl, pre.need, ws, t);
    assert(models_of(msgs).len() == msgs.len());
    assert forall|j: int|
        #![trigger dr[j]]
        0 <= j < dr.len() implies exists|i: int|
        0 <= i < msgs.len() && (#[trigger] msgs[i]).receiver_rank == dr[j] as int by {
        lemma_member_counts(dr, j);
        let r = dr[j] as int;
        assert(count_of(dr, r as u8) > 0);
        let i = choose|i: int| 0 <= i < shapes.len() && (#[trigger] shapes[i]).dest == r;
        assert(models_of(msgs)[i] == msg_model(msgs[i]));
        assert(msgs[i].receiver_rank == r);
    }
    assert forall|j: int|
        #![trigger dl[j]]
        0 <= j < dl.len() implies exists|i: int|
        0 <= i < msgs.len() && (#[trigger] msgs[i]).receiver_rank == dl[j] as int by {
        lemma_member_counts(dl, j);
        let r = dl[j] as int;
        assert(count_of(dl, r as u8) > 0);
        let i = choose|i: int| 0 <= i < shapes.len() && (#[trigger] shapes[i]).dest == r;
        assert(models_of(msgs)[i] == msg_model(msgs[i]));
        assert(msgs[i].receiver_rank == r);
    }
    assert forall|i1: int, i2: int|
        0 <= i1 < i2 < msgs.len() implies (#[trigger] msgs[i1]).receiver_rank < (
    #[trigger] msgs[i2]).receiver_rank by {
        assert(models_of(msgs)[i1] == msg_model(msgs[i1]));
        assert(models_of(msgs)[i2] == msg_model(msgs[i2]));
        assert(shapes[i1].dest < shapes[i2].dest);
    }
}

/// The request timestamps are frozen outside the steps that set them: the
/// enter timestamp moves only on the step out of Rest, the leave timestamp
/// only on the step out of Crit, and no received message moves either.
pub proof fn lemma_request_timestamps_frozen(pre: Agent, post: Agent, msgs: Seq<OutgoingMessage>)
    requires
        machine_step(pre, post, msgs),
    ensures
        pre.state != AgentState::Rest ==> post.enter_time == pre.enter_time,
        pre.state != AgentState::Crit ==> post.leave_time == pre.leave_time,
{
}

/// No receive step moves either request timestamp: replies and bookings
/// leave the peer's standing in every priority comparison unchanged.
pub proof fn lemma_receive_keeps_request_timestamps(
    pre: Agent,
    post: Agent,
    sender_rank: i32,
    tag: int,
    message: Seq<u16>,
    replies: Seq<OutgoingMessage>,
    proceed: bool,
)
    requires
        receive_step(pre, post, sender_rank, tag, message, replies, proceed),
    ensures
        post.enter_time == pre.enter_time,
        post.leave_time == pre.leave_time,
{
}

/// Every message a progress step sends is stamped with the logical time at
/// the step's start, the payload's final element; a step that sends ticks
/// the clock strictly past that stamp, and no step rolls the clock back.
pub proof fn lemma_machine_step_stamps(pre: Agent, post: Agent, msgs: Seq<OutgoingMessage>)
    requires
        pre.well_formed(),
        pre.clock.time < u16::MAX,
        machine_step(pre, post, msgs),
    ensures
        forall|i: int|
            0 <= i < msgs.len() ==> (#[trigger] msgs[i].payload@).len() > 0
                && msgs[i].payload@.last() == pre.clock.time,
        post.clock.time >= pre.clock.time,
        msgs.len() > 0 ==> post.clock.time > pre.clock.time,
{
    match pre.state {
        AgentState::Rest => {
            assert forall|i: int|
                0 <= i < msgs.len() implies (#[trigger] msgs[i].payload@).len() > 0
                && msgs[i].payload@.last() == pre.clock.time by {
                assert(crate::comm::broadcast_msg_ok(
                    msgs[i],
                    i,
                    pre.rank as int,
                    MessageTag::EnterRequest,
                    seq![pre.clock.time],
                ));
            }
        },
        AgentState::Crit => {
            assert forall|i: int|
                0 <= i < msgs.len() implies (#[trigger] msgs[i].payload@).len() > 0
                && msgs[i].payload@.last() == pre.clock.time by {
                assert(crate::comm::broadcast_msg_ok(
                    msgs[i],
                    i,
                    pre.rank as int,
                    MessageTag::LeaveRequest,
                    seq![pre.clock.time],
                ));
            }
        },
        AgentState::Down => {
            assert forall|i: int|
                0 <= i < msgs.len() implies (#[trigger] msgs[i].payload@).len() > 0
                && msgs[i].payload@.last() == pre.clock.time by {
                assert(msg_model(msgs[i]).payload == seq![0u16, 1u16, pre.clock.time]);
            }
        },
        AgentState::Up => {
            lemma_up_replies_shape(
                pre.defer_rooms@,
                pre.defer_lifts@,
                pre.need,
                pre.config.world_size as int,
                pre.clock.time,
            );
            let shapes = up_replies(
                pre.defer_rooms@,
                pre.defer_lifts@,
                pre.need,
                pre.config.world_size as int,
                pre.clock.time,
            );
            assert forall|i: int|
                0 <= i < msgs.len() implies (#[trigger] msgs[i].payload@).len() > 0
                && msgs[i].payload@.last() == pre.clock.time by {
                assert(models_of(msgs)[i] == msg_model(msgs[i]));
                assert(msg_model(msgs[i]).payload == shapes[i].payload);
            }
        },
        AgentState::Try => {},
        AgentState::Leaving => {},
    }
}

/// Clock monotonicity along the progress thread: the stamps of two sending
/// steps in sequence strictly increase, whatever the phases.
pub proof fn lemma_outgoing_timestamps_strictly_increase(
    pre: Agent,
    mid: Agent,
    post: Agent,
    first: Seq<OutgoingMessage>,
    second: Seq<OutgoingMessage>,
)
    requires
        pre.well_formed(),
        mid.well_formed(),
        pre.clock.time < u16::MAX,
        mid.clock.time < u16::MAX,
        machine_step(pre, mid, first),
        machine_step(mid, post, second),
        first.len() > 0,
    ensures
        forall|i: int, j: int|
            0 <= i < first.len() && 0 <= j < second.len() ==> (#[trigger] second[j].payload@).last()
                > (#[trigger] first[i].payload@).last(),
{
    lemma_machine_step_stamps(pre, mid, first);
    lemma_machine_step_stamps(mid, post, second);
}

/// Every reply a receive step sends is stamped with the clock as observed —
/// strictly past the clock before the step.
pub proof fn lemma_receive_step_stamps(
    pre: Agent,
    post: Agent,
    sender_rank: i32,
    tag: int,
    message: Seq<u16>,
    replies: Seq<OutgoingMessage>,
    proceed: bool,
)
    requires
        receive_enabled(pre, sender_rank, tag, message),
        receive_step(pre, post, sender_rank, tag, message, replies, proceed),
    ensures
        forall|i: int|
            0 <= i < replies.len() ==> (#[trigger] replies[i].payload@).len() > 0
                && replies[i].payload@.last() == post.clock.time,
        post.clock.time > pre.clock.time,
{
}

/// Clock monotonicity along the receiver thread: the stamps of the replies
/// of two receive steps in sequence strictly increase, whatever the tags —
/// every receive observes the carried timestamp before any reply is built.
pub proof fn lemma_reply_timestamps_strictly_increase(
    pre: Agent,
    mid: Agent,
    post: Agent,
    first_sender: i32,
    first_tag: int,
    first_message: Seq<u16>,
    first_replies: Seq<OutgoingMessage>,
    first_proceed: bool,
    second_sender: i32,
    second_tag: int,
    second_message: Seq<u16>,
    second_replies: Seq<OutgoingMessage>,
    second_proceed: bool,
)
    requires
        receive_enabled(pre, first_sender, first_tag, first_message),
        receive_step(pre, mid, first_sender, first_tag, first_message, first_replies, first_proceed),
        receive_enabled(mid, second_sender, second_tag, second_message),
        receive_step(
            mid,
            post,
            second_sender,
            second_tag,
            second_message,
            second_replies,
            second_proceed,
        ),
    ensures
        forall|i: int, j: int|
            0 <= i < first_replies.len() && 0 <= j < second_replies.len() ==> (
            #[trigger] second_replies[j].payload@).last() > (
            #[trigger] first_replies[i].payload@).last(),
{
    lemma_receive_step_stamps(
        pre,
        mid,
        first_sender,
        first_tag,
        first_message,
        first_replies,
        first_proceed,
    );
    lemma_receive_step_stamps(
        mid,
        post,
        second_sender,
        second_tag,
        second_message,
        second_replies,
        second_proceed,
    );
}

/// The priority rule is asymmetric over distinct peers: of two requests
/// stamped by different ranks, exactly one wins against the other. No two
/// competing peers can each believe they precede the other, and none can be
/// blocked by a peer it precedes.
pub proof fn lemma_priority_asymmetric(rank_a: i32, time_a: u16, rank_b: i32, time_b: u16)
    requires
        rank_a != rank_b,
    ensures
        sender_priority_spec(rank_a, time_a, time_b, rank_b) <==> !sender_priority_spec(
            rank_b,
            time_b,
            time_a,
            rank_a,
        ),
{
}

/// A vector of `n` zeroes.
fn zero_u8_vec(n: usize) -> (v: Vec<u8>)
    ensures
        v@.len() == n,
        forall|i: int| 0 <= i < n ==> v@[i] == 0,
{
    let mut v: Vec<u8> = Vec::new();
    let mut i: usize = 0;
    while i < n
        invariant
            i <= n,
            v@.len() == i,
            forall|k: int| 0 <= k < i ==> v@[k] == 0,
        decreases n - i,
    {
        v.push(0);
        i = i + 1;
    }
    v
}

/// The sum of a permission vector, at most 255 per entry over at most 256
/// entries, so the total always fits the result type.
fn sum_u8_vec(v: &Vec<u8>) -> (total: u16)
    requires
        v@.len() <= 256,
    ensures
        total == sum_of(v@),
{
    let mut total: u16 = 0;
    let mut i: usize = 0;
    while i < v.len()
        invariant
            i <= v@.len(),
            v@.len() <= 256,
            total == sum_of(v@.take(i as int)),
            total <= 255 * i,
        decreases v@.len() - i,
    {
        proof {
            lemma_sum_take_succ(v@, i as int);
        }
        total = total + (v[i] as u16);
        i = i + 1;
    }
    proof {
        assert(v@.take(v@.len() as int) =~= v@);
    }
    total
}

/// Extending a summed prefix by one element adds that element to the sum.
pub proof fn lemma_sum_take_succ(s: Seq<u8>, i: int)
    requires
        0 <= i < s.len(),
    ensures
        sum_of(s.take(i + 1)) == sum_of(s.take(i)) + s[i],
{
    assert(s.take(i + 1).drop_last() =~= s.take(i));
    assert(s.take(i + 1).last() == s[i]);
}

/// Extending a counted prefix by one element raises exactly that element's
/// count by one.
pub proof fn lemma_count_take_succ(s: Seq<u8>, i: int, r: u8)
    requires
        0 <= i < s.len(),
    ensures
        count_of(s.take(i + 1), r) == count_of(s.take(i), r) + if s[i] == r {
            1int
        } else {
            0int
        },
{
    assert(s.take(i + 1).drop_last() =~= s.take(i));
    assert(s.take(i + 1).last() == s[i]);
}

/// A rank's count in a queue never exceeds the queue's length.
pub proof fn lemma_count_le_len(s: Seq<u8>, r: u8)
    ensures
        0 <= count_of(s, r) <= s.len(),
    decreases s.len(),
{
    if s.len() > 0 {
        lemma_count_le_len(s.drop_last(), r);
    }
}

} // verus!
