//! The values that peers exchange and that a node hands to its host.

use vstd::prelude::*;

verus! {

/// The name by which peers call the handler of requests for votes.
pub const REQUEST_VOTE_METHOD: &'static str = "Raft.RequestVote";

/// The name by which peers call the handler of requests to append.
pub const APPEND_ENTRIES_METHOD: &'static str = "Raft.AppendEntries";

/// The role a node plays in its current term.
#[derive(Clone, Copy, Debug, PartialEq, Eq, Structural)]
pub enum State {
    Follower,
    Candidate,
    Leader,
}

/// One slot of the replicated log as the model sees it.
pub struct Entry {
    pub term: u64,
    pub command: Seq<u8>,
}

/// The entry that occupies index 0 of every log. It is never applied.
pub open spec fn sentinel() -> Entry {
    Entry { term: 0, command: Seq::empty() }
}

/// One slot of the replicated log: the term in which a leader received the
/// command, and the command itself, which the node never interprets.
#[derive(Debug, PartialEq)]
pub struct LogEntry {
    pub term: u64,
    pub command: Vec<u8>,
}

impl View for LogEntry {
    type V = Entry;

    open spec fn view(&self) -> Entry {
        Entry { term: self.term, command: self.command@ }
    }
}

impl Clone for LogEntry {
    fn clone(&self) -> (copy: Self)
        ensures
            copy@ == self@,
    {
        LogEntry { term: self.term, command: copy_bytes(&self.command) }
    }
}

/// A fresh vector holding the same bytes as `bytes`.
pub fn copy_bytes(bytes: &Vec<u8>) -> (copy: Vec<u8>)
    ensures
        copy@ == bytes@,
{
    let mut copy: Vec<u8> = Vec::new();
    let mut i: usize = 0;
    while i < bytes.len()
        invariant
            i <= bytes.len(),
            copy@ == bytes@.subrange(0, i as int),
        decreases bytes.len() - i,
    {
        copy.push(bytes[i]);
        i = i + 1;
    }
    copy
}

/// The entries of a vector of log slots, in order.
pub open spec fn entries_of(slots: Seq<LogEntry>) -> Seq<Entry> {
    Seq::new(slots.len(), |i: int| slots[i]@)
}

/// A committed entry as the model sees it.
pub struct Applied {
    pub valid: bool,
    pub index: usize,
    pub term: u64,
    pub command: Seq<u8>,
}

/// A committed entry, handed to the host state machine.
#[derive(Debug, PartialEq)]
pub struct ApplyMsg {
    pub valid: bool,
    pub index: usize,
    pub term: u64,
    pub command: Vec<u8>,
}

impl View for ApplyMsg {
    type V = Applied;

    open spec fn view(&self) -> Applied {
        Applied { valid: self.valid, index: self.index, term: self.term, command: self.command@ }
    }
}

/// The messages of a vector of apply messages, in order.
pub open spec fn applied_of(msgs: Seq<ApplyMsg>) -> Seq<Applied> {
    Seq::new(msgs.len(), |i: int| msgs[i]@)
}

/// A candidate's request for a vote.
#[derive(Clone, Copy, Debug, PartialEq)]
pub struct RequestVoteArgs {
    pub term: u64,
    pub candidate_id: i32,
    pub last_log_index: usize,
    pub last_log_term: u64,
}

/// A peer's answer to a request for a vote.
#[derive(Clone, Copy, Debug, PartialEq)]
pub struct RequestVoteReply {
    pub term: u64,
    pub vote_granted: bool,
}

/// A leader's request to append entries, as the model sees it.
pub struct AppendArgs {
    pub term: u64,
    pub leader_id: i32,
    pub prev_log_index: usize,
    pub prev_log_term: u64,
    pub entries: Seq<Entry>,
    pub leader_commit: usize,
}

/// A leader's request to append entries after the slot `prev_log_index`.
/// With no entries it is a heartbeat.
#[derive(Debug, PartialEq)]
pub struct AppendEntriesArgs {
    pub term: u64,
    pub leader_id: i32,
    pub prev_log_index: usize,
    pub prev_log_term: u64,
    pub entries: Vec<LogEntry>,
    pub leader_commit: usize,
}

impl View for AppendEntriesArgs {
    type V = AppendArgs;

    open spec fn view(&self) -> AppendArgs {
        AppendArgs {
            term: self.term,
            leader_id: self.leader_id,
            prev_log_index: self.prev_log_index,
            prev_log_term: self.prev_log_term,
            entries: entries_of(self.entries@),
            leader_commit: self.leader_commit,
        }
    }
}

/// A follower's answer to a request to append entries. When the request
/// did not match, `first_index` tells the leader where to retry.
#[derive(Clone, Copy, Debug, PartialEq)]
pub struct AppendEntriesReply {
    pub term: u64,
    pub success: bool,
    pub first_index: usize,
}

/// What a node answers to a request to append, and what its host must do.
#[derive(Clone, Copy, Debug, PartialEq)]
pub struct AppendOutcome {
    pub reply: AppendEntriesReply,
    /// Whether the host restarts the election timer.
    pub reset_timer: bool,
    /// The index up to which the host asks the committer to advance, if any.
    pub commit_to: Option<usize>,
}

} // verus!
