//! The log signature a peer stamps on its console lines: its rank plus the
//! logical time at which the line was written. The rendering itself (colour,
//! console output) is done by the caller that owns the console.
use vstd::prelude::*;

use crate::comm::Clock;

verus! {

/// A handle for stamping log lines: it remembers the peer's rank and reads
/// the peer's clock at each line.
#[derive(Clone)]
pub struct Logger<'clock_lifetime> {
    pub clock: &'clock_lifetime Clock,
    pub rank: i32,
}

impl<'clock_lifetime> Logger<'clock_lifetime> {
    pub fn new(clock: &'clock_lifetime Clock, rank: i32) -> (logger: Self)
        ensures
            logger.clock == clock,
            logger.rank == rank,
    {
        Self { clock, rank }
    }

    /// The rank and logical time a log line written now would be stamped
    /// with.
    pub fn signature(&self) -> (stamp: (i32, u16))
        ensures
            stamp.0 == self.rank,
            stamp.1 == self.clock.time,
    {
        (self.rank, self.clock.time())
    }
}

} // verus!
