//! The core of a Raft consensus node, without I/O.
//!
//! A [`Raft`] value is the state of one peer. Every entry point takes the
//! state, consumes one event (a client command, an inbound RPC, a reply to
//! an outbound RPC, a timer tick) and returns what the surrounding program
//! has to do next: the reply to send, the requests to issue, the timer to
//! restart, the messages to hand to the state machine. The surrounding
//! program owns the lock, the threads, the sockets and the clock.
//!
//! Each entry point is specified as a transition of [`NodeState`], the
//! mathematical model of a node. The theorems about one node are in
//! [`laws`], those about a cluster of nodes in [`cluster`].

pub mod cluster;
pub mod laws;
pub mod model;
pub mod node;
pub mod ranking;
pub mod types;

pub use crate::model::NodeState;
pub use crate::node::{
    AppendReplyOutcome, Raft, TimerEvent, TimerStep, VoteReplyOutcome, HEARTBEAT_INTERVAL,
    MAX_TIMEOUT, MIN_TIMEOUT,
};
pub use crate::types::{
    AppendEntriesArgs, AppendEntriesReply, AppendOutcome, ApplyMsg, LogEntry, RequestVoteArgs,
    RequestVoteReply, State, APPEND_ENTRIES_METHOD, REQUEST_VOTE_METHOD,
};
