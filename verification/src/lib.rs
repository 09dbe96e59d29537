//! A fully distributed mutual-exclusion protocol for two classes of bounded
//! shared resources: a fixed number of rooms below ground and a fixed number
//! of lifts that travel between the two levels. Every peer runs the same
//! six-phase state machine (Rest, Try, Down, Crit, Leaving, Up), orders
//! competing requests by Lamport timestamp with rank as the tie-break, and
//! keeps per-peer permission vectors plus two queues of deferred grants.
//!
//! The crate holds the protocol core: the logical clock, the timestamped
//! message facade, the state machine, and the four message handlers. The
//! transport that actually carries messages between processes, the threads,
//! and the shutdown signal live outside; they hand ranks, tags and payloads
//! in, and send the returned messages out.
use vstd::prelude::*;

pub mod agent;
pub mod comm;
pub mod util;

verus! {

/// The tag carried by every message of the protocol. The numeric values are
/// fixed by the wire format: Resources 0, EnterRequest 1, LeaveRequest 2,
/// Finish 3, LeaveResources 4.
#[derive(Clone, Copy, PartialEq, Eq, Structural, Debug)]
pub enum MessageTag {
    Resources,
    EnterRequest,
    LeaveRequest,
    Finish,
    LeaveResources,
}

/// The numeric wire value of each tag.
pub open spec fn tag_value(tag: MessageTag) -> int {
    match tag {
        MessageTag::Resources => 0,
        MessageTag::EnterRequest => 1,
        MessageTag::LeaveRequest => 2,
        MessageTag::Finish => 3,
        MessageTag::LeaveResources => 4,
    }
}

impl MessageTag {
    /// Decodes a wire value. A value outside the enumerated set indicates a
    /// desynchronized peer; the caller must reject it before decoding.
    pub fn from_i32(value: i32) -> (tag: Self)
        requires
            0 <= value <= 4,
        ensures
            tag_value(tag) == value,
    {
        match value {
            0 => MessageTag::Resources,
            1 => MessageTag::EnterRequest,
            2 => MessageTag::LeaveRequest,
            3 => MessageTag::Finish,
            _ => MessageTag::LeaveResources,
        }
    }

    /// Encodes the tag as its wire value.
    pub fn to_i32(&self) -> (value: i32)
        ensures
            value == tag_value(*self),
    {
        match self {
            MessageTag::Resources => 0,
            MessageTag::EnterRequest => 1,
            MessageTag::LeaveRequest => 2,
            MessageTag::Finish => 3,
            MessageTag::LeaveResources => 4,
        }
    }
}

/// Decoding a tag's wire value gives the tag back: the wire values are a
/// faithful encoding of the tag set.
pub proof fn lemma_tag_round_trip(tag: MessageTag)
    ensures
        forall|t: MessageTag| tag_value(t) == tag_value(tag) ==> t == tag,
        0 <= tag_value(tag) <= 4,
{
}

/// The fixed problem instance: the room capacity, the lift capacity, and the
/// number of peers in the group.
#[derive(Clone, Copy, PartialEq, Eq, Structural, Debug)]
pub struct Config {
    pub rooms_count: u8,
    pub lifts_count: u8,
    pub world_size: usize,
}

impl Config {
    pub fn new(rooms_count: u8, lifts_count: u8, world_size: usize) -> (config: Self)
        ensures
            config.rooms_count == rooms_count,
            config.lifts_count == lifts_count,
            config.world_size == world_size,
    {
        Self { rooms_count, lifts_count, world_size }
    }
}

} // verus!
