//! The election timer: how long to wait, and what a wait that ended means.

use crate::node::Raft;
use rand::Rng;
use vstd::prelude::*;

verus! {

/// The pause between two heartbeats of a leader, in milliseconds.
pub const HEARTBEAT_INTERVAL: u64 = 50;

/// The shortest election timeout, in milliseconds.
pub const MIN_TIMEOUT: u64 = 200;

/// The bound below which every election timeout lies, in milliseconds.
pub const MAX_TIMEOUT: u64 = 400;

/// How a wait of the election timer ended.
#[derive(Clone, Copy, Debug, PartialEq, Eq, Structural)]
pub enum TimerEvent {
    /// A reset signal arrived before the timeout.
    Reset,
    /// The timeout passed without a signal.
    Elapsed,
    /// The channel that carries the signals is closed.
    Closed,
}

/// What the election timer does after a wait.
#[derive(Clone, Copy, Debug, PartialEq, Eq, Structural)]
pub struct TimerStep {
    /// Whether the host starts a campaign.
    pub campaign: bool,
    /// How long the next wait lasts at most, in milliseconds.
    pub wait_ms: u64,
}

impl Raft {
    /// Draws an election timeout in milliseconds.
    ///
    /// Trusted: calls `gen_range` of `rand::Rng` on the generator that
    /// `rand::thread_rng` returns. The contract claims what the method's
    /// documentation says of every draw: the value lies in `[min, max)`.
    /// `gen_range` panics when `min >= max`, which `requires` rules out.
    /// `thread_rng` panics when the operating system cannot seed the
    /// generator, which no argument can rule out. Nothing is claimed about
    /// which value is drawn, and two calls may differ.
    #[verifier::external_body]
    pub(crate) fn random_timeout(min: u64, max: u64) -> (timeout: u64)
        requires
            min < max,
        ensures
            min <= timeout < max,
    {
        rand::thread_rng().gen_range(min, max)
    }

    /// One step of the election timer. A wait that ended with a reset signal
    /// or on a closed channel starts no campaign; a wait that ran out starts
    /// one. In every case the timer waits again, for a freshly drawn timeout
    /// between [`MIN_TIMEOUT`] and [`MAX_TIMEOUT`].
    pub fn tick_election(event: TimerEvent) -> (step: TimerStep)
        ensures
            step.campaign == (event is Elapsed),
            MIN_TIMEOUT <= step.wait_ms < MAX_TIMEOUT,
    {
        let campaign = match event {
            TimerEvent::Elapsed => true,
            _ => false,
        };
        TimerStep { campaign, wait_ms: Self::random_timeout(MIN_TIMEOUT, MAX_TIMEOUT) }
    }
}

} // verus!
