//! The executable node.

use crate::laws::start_keeps_well_formed;
use crate::model::{NodeState, MAX_PEERS, NO_VOTE};
use crate::types::{copy_bytes, entries_of, LogEntry, State};
use vstd::prelude::*;

mod commit;
mod election;
mod replication;
mod timer;

pub use self::commit::ranked;
pub use self::election::VoteReplyOutcome;
pub use self::replication::AppendReplyOutcome;
pub use self::timer::{TimerEvent, TimerStep, HEARTBEAT_INTERVAL, MAX_TIMEOUT, MIN_TIMEOUT};

verus! {

/// The state of one Raft peer.
///
/// The fields are private. [`Raft::new`] makes a state that the model calls
/// well formed, and every method keeps it so.
pub struct Raft {
    me: i32,
    state: State,
    current_term: u64,
    vote_for: i32,
    commit_index: usize,
    log: Vec<LogEntry>,
    next_index: Vec<usize>,
    match_index: Vec<usize>,
    voted_cnt: i32,
}

impl View for Raft {
    type V = NodeState;

    closed spec fn view(&self) -> NodeState {
        NodeState {
            me: self.me,
            role: self.state,
            current_term: self.current_term,
            voted_for: self.vote_for,
            log: entries_of(self.log@),
            commit_index: self.commit_index,
            next_index: self.next_index@,
            match_index: self.match_index@,
            voted_cnt: self.voted_cnt,
        }
    }
}

/// A vector of `len` copies of `value`.
pub(crate) fn filled(len: usize, value: usize) -> (v: Vec<usize>)
    ensures
        v@ == Seq::new(len as nat, |p: int| value),
{
    let mut v: Vec<usize> = Vec::new();
    let mut i: usize = 0;
    while i < len
        invariant
            i <= len,
            v@ == Seq::new(i as nat, |p: int| value),
        decreases len - i,
    {
        v.push(value);
        i = i + 1;
    }
    v
}

impl Raft {
    /// A node that boots as peer `id` of a cluster of `peers`.
    pub fn new(id: i32, peers: usize) -> (node: Raft)
        requires
            0 <= id < peers <= MAX_PEERS,
        ensures
            node@ == NodeState::init(id, peers as nat),
            node@.wf(),
    {
        let mut log: Vec<LogEntry> = Vec::new();
        log.push(LogEntry { term: 0, command: Vec::new() });
        let node = Raft {
            me: id,
            state: State::Follower,
            current_term: 0,
            vote_for: NO_VOTE,
            commit_index: 0,
            log,
            next_index: filled(peers, 0),
            match_index: filled(peers, 0),
            voted_cnt: 0,
        };
        assert(node@.log =~= NodeState::init(id, peers as nat).log);
        node
    }

    /// This node's id.
    pub fn me(&self) -> (id: i32)
        ensures
            id == self@.me,
    {
        self.me
    }

    /// The role the node plays.
    pub fn state(&self) -> (role: State)
        ensures
            role == self@.role,
    {
        self.state
    }

    /// The latest term the node has seen.
    pub fn current_term(&self) -> (term: u64)
        ensures
            term == self@.current_term,
    {
        self.current_term
    }

    /// The peer that got the node's vote in its term, or -1.
    pub fn vote_for(&self) -> (peer: i32)
        ensures
            peer == self@.voted_for,
    {
        self.vote_for
    }

    /// The highest index known to be committed.
    pub fn commit_index(&self) -> (index: usize)
        ensures
            index == self@.commit_index,
    {
        self.commit_index
    }

    /// The log, the sentinel included.
    pub fn log(&self) -> (log: &Vec<LogEntry>)
        ensures
            entries_of(log@) == self@.log,
    {
        &self.log
    }

    /// For each peer, the index of the next entry to send to it.
    pub fn next_index(&self) -> (next: &Vec<usize>)
        ensures
            next@ == self@.next_index,
    {
        &self.next_index
    }

    /// For each peer, the highest index known to be replicated on it.
    pub fn match_index(&self) -> (matched: &Vec<usize>)
        ensures
            matched@ == self@.match_index,
    {
        &self.match_index
    }

    /// The votes that other peers granted in the current campaign.
    pub fn voted_cnt(&self) -> (votes: i32)
        ensures
            votes == self@.voted_cnt,
    {
        self.voted_cnt
    }

    /// The index of the last entry of the log.
    pub fn last_index(&self) -> (index: usize)
        requires
            self@.wf(),
        ensures
            index == self@.last_index(),
    {
        self.log.len() - 1
    }

    /// The node's term, and whether it believes it is the leader.
    pub fn get_state(&self) -> (res: (u64, bool))
        ensures
            res.0 == self@.current_term,
            res.1 == (self@.role is Leader),
    {
        let is_leader = match self.state {
            State::Leader => true,
            _ => false,
        };
        (self.current_term, is_leader)
    }

    /// Submits a command. A leader appends it to its log in its term; any
    /// other node leaves its state as it is. Returns the index the command
    /// has or would have had, the node's term, and whether the node is the
    /// leader. Does not wait for the entry to commit.
    pub fn start(&mut self, command: &Vec<u8>) -> (res: (usize, u64, bool))
        requires
            old(self)@.wf(),
        ensures
            final(self)@ == old(self)@.start(command@),
            final(self)@.wf(),
            res.0 == old(self)@.log.len(),
            res.1 == old(self)@.current_term,
            res.2 == (old(self)@.role is Leader),
    {
        let index: usize = self.log.len();
        let term: u64 = self.current_term;
        let is_leader = match self.state {
            State::Leader => true,
            _ => false,
        };
        if is_leader {
            let me: usize = self.me as usize;
            self.log.push(LogEntry { term, command: copy_bytes(command) });
            self.match_index.set(me, index);
            proof {
                assert(self.log.len() <= usize::MAX);
                assert(self@.log =~= old(self)@.start(command@).log);
                start_keeps_well_formed(old(self)@, command@);
            }
        }
        (index, term, is_leader)
    }
}

} // verus!
