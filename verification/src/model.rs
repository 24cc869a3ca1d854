//! The mathematical model of one node: its state and its transitions.
//!
//! Every executable entry point of [`crate::node::Raft`] is specified as one
//! of the transitions below, and the theorems of the crate are stated over
//! them.

use crate::types::{
    sentinel, AppendArgs, AppendEntriesReply, AppendOutcome, Applied, Entry, RequestVoteArgs,
    RequestVoteReply, State,
};
use vstd::prelude::*;

verus! {

/// How many entries one request to append carries at most.
pub const APPEND_WINDOW: usize = 10;

/// The largest cluster whose peers all have an id.
pub const MAX_PEERS: usize = 0x8000_0000;

/// What `voted_for` holds while the node has not voted in its term.
pub const NO_VOTE: i32 = -1;

/// The order by which match indices are ranked.
pub open spec fn ascending() -> spec_fn(usize, usize) -> bool {
    |a: usize, b: usize| a <= b
}

/// The first index of the run of equal terms that ends at `index`, never
/// below 1 unless `index` is 0 itself.
pub open spec fn run_start(log: Seq<Entry>, index: int) -> int
    decreases index,
{
    if index <= 1 {
        index
    } else if log[index - 1].term == log[index].term {
        run_start(log, index - 1)
    } else {
        index
    }
}

/// What can happen to a node and change its state.
pub enum Event {
    /// A client submits a command.
    Start { command: Seq<u8> },
    /// A candidate's request for a vote arrives.
    RequestVote { request: RequestVoteArgs },
    /// A leader's request to append arrives.
    AppendEntries { args: AppendArgs },
    /// The election timer runs out.
    Campaign,
    /// An answer to the node's request for a vote arrives.
    VoteReply { answer: RequestVoteReply },
    /// An answer to the node's request to append arrives.
    AppendReply { peer: usize, prev_index: usize, num_entries: usize, reply: AppendEntriesReply },
    /// The committer is asked to advance.
    CommitTo { index: usize },
}

/// The state of one node.
pub struct NodeState {
    /// This node's id, its position among the peers.
    pub me: i32,
    pub role: State,
    /// The latest term this node has seen.
    pub current_term: u64,
    /// The peer that got this node's vote in `current_term`, or -1.
    pub voted_for: i32,
    /// The log. Slot 0 holds the sentinel.
    pub log: Seq<Entry>,
    /// The highest index known to be committed.
    pub commit_index: usize,
    /// For each peer, the index of the next entry to send to it.
    pub next_index: Seq<usize>,
    /// For each peer, the highest index known to be replicated on it.
    pub match_index: Seq<usize>,
    /// The votes other peers granted in the current campaign.
    pub voted_cnt: i32,
}

impl NodeState {
    /// The size of the cluster, this node included.
    pub open spec fn peers(self) -> nat {
        self.next_index.len()
    }

    pub open spec fn last_index(self) -> int {
        self.log.len() - 1
    }

    pub open spec fn last_term(self) -> u64 {
        self.log[self.last_index()].term
    }

    /// What holds of every state a node can be in.
    pub open spec fn wf(self) -> bool {
        &&& 0 <= self.me < self.peers() <= MAX_PEERS
        &&& self.match_index.len() == self.peers()
        &&& 1 <= self.log.len() <= usize::MAX
        &&& self.log[0] == sentinel()
        &&& 0 <= self.voted_cnt <= self.peers()
        &&& self.role is Candidate ==> self.voted_cnt <= self.peers() / 2
        &&& !(self.role is Follower) ==> self.voted_for == self.me
        &&& self.role is Leader ==> forall|p: int|
            0 <= p < self.peers() ==> 1 <= #[trigger] self.next_index[p] <= self.log.len()
        &&& self.role is Leader ==> forall|p: int|
            0 <= p < self.peers() ==> #[trigger] self.match_index[p] < self.log.len()
    }

    /// A node as it boots: a follower in term 0 that holds the sentinel.
    pub open spec fn init(me: i32, peers: nat) -> NodeState {
        NodeState {
            me,
            role: State::Follower,
            current_term: 0,
            voted_for: NO_VOTE,
            log: seq![sentinel()],
            commit_index: 0,
            next_index: Seq::new(peers, |p: int| 0usize),
            match_index: Seq::new(peers, |p: int| 0usize),
            voted_cnt: 0,
        }
    }

    /// The node after it has seen the higher term `term`: it adopts the
    /// term, forgets its vote and becomes a follower.
    pub open spec fn step_down(self, term: u64) -> NodeState {
        NodeState { current_term: term, voted_for: NO_VOTE, role: State::Follower, ..self }
    }

    /// The node after a client submitted `command`.
    pub open spec fn start(self, command: Seq<u8>) -> NodeState {
        if self.role is Leader {
            NodeState {
                log: self.log.push(Entry { term: self.current_term, command }),
                match_index: self.match_index.update(self.me as int, self.log.len() as usize),
                ..self
            }
        } else {
            self
        }
    }

    /// Whether a log that ends in (`last_log_index`, `last_log_term`) is at
    /// least as up to date as this node's.
    pub open spec fn up_to_date(self, last_log_index: usize, last_log_term: u64) -> bool {
        last_log_term > self.last_term() || (last_log_term == self.last_term() && last_log_index
            >= self.last_index())
    }

    /// Whether the node grants the vote that `args` asks for.
    pub open spec fn grants_vote(self, args: RequestVoteArgs) -> bool {
        &&& args.term >= self.current_term
        &&& self.up_to_date(args.last_log_index, args.last_log_term)
        &&& (args.term > self.current_term || self.voted_for == NO_VOTE)
    }

    /// The node after it handled the request for a vote `args`.
    pub open spec fn request_vote(self, args: RequestVoteArgs) -> NodeState {
        if args.term < self.current_term {
            self
        } else {
            let seen = if args.term > self.current_term {
                self.step_down(args.term)
            } else {
                self
            };
            if self.grants_vote(args) {
                NodeState { voted_for: args.candidate_id, role: State::Follower, ..seen }
            } else {
                seen
            }
        }
    }

    /// The answer to the request for a vote `args`.
    pub open spec fn vote_reply_to(self, args: RequestVoteArgs) -> RequestVoteReply {
        RequestVoteReply {
            term: self.request_vote(args).current_term,
            vote_granted: self.grants_vote(args),
        }
    }

    /// Whether the node's log holds, at the slot before the new entries,
    /// an entry of the term that the leader names.
    pub open spec fn prev_matches(self, args: AppendArgs) -> bool {
        args.prev_log_index < self.log.len() && self.log[args.prev_log_index as int].term
            == args.prev_log_term
    }

    /// Whether the node takes the entries of `args` into its log.
    pub open spec fn takes_entries(self, args: AppendArgs) -> bool {
        args.term >= self.current_term && self.prev_matches(args)
    }

    /// Where the leader is told to retry after a request that did not
    /// match: the start of the run of terms that ends at the slot it named,
    /// or the end of the log if the log is too short.
    pub open spec fn conflict_hint(self, prev_log_index: usize) -> int {
        if prev_log_index < self.log.len() {
            run_start(self.log, prev_log_index as int)
        } else {
            self.log.len() as int
        }
    }

    /// The node after it handled the request to append `args`.
    pub open spec fn append_entries(self, args: AppendArgs) -> NodeState {
        if args.term < self.current_term {
            self
        } else {
            let seen = if args.term > self.current_term {
                self.step_down(args.term)
            } else {
                NodeState { role: State::Follower, ..self }
            };
            if self.takes_entries(args) && args.entries.len() > 0 {
                NodeState {
                    log: self.log.subrange(0, args.prev_log_index + 1) + args.entries,
                    ..seen
                }
            } else {
                seen
            }
        }
    }

    /// The answer to the request to append `args`, and what follows from it.
    pub open spec fn append_effect(self, args: AppendArgs) -> AppendOutcome {
        let term = self.append_entries(args).current_term;
        let last = args.prev_log_index + args.entries.len();
        let upto = if args.leader_commit <= last {
            args.leader_commit as int
        } else {
            last
        };
        if args.term < self.current_term {
            AppendOutcome {
                reply: AppendEntriesReply {
                    term,
                    success: false,
                    first_index: (args.prev_log_index + 1) as usize,
                },
                reset_timer: false,
                commit_to: None,
            }
        } else if self.prev_matches(args) {
            AppendOutcome {
                reply: AppendEntriesReply {
                    term,
                    success: true,
                    first_index: (args.prev_log_index + 1) as usize,
                },
                reset_timer: true,
                commit_to: if self.commit_index < upto {
                    Some(upto as usize)
                } else {
                    None
                },
            }
        } else {
            AppendOutcome {
                reply: AppendEntriesReply {
                    term,
                    success: false,
                    first_index: self.conflict_hint(args.prev_log_index) as usize,
                },
                reset_timer: true,
                commit_to: None,
            }
        }
    }

    /// The node after its election timer ran out: a candidate in the next
    /// term that has voted for itself.
    pub open spec fn campaign(self) -> NodeState {
        NodeState {
            voted_cnt: 0,
            voted_for: self.me,
            role: State::Candidate,
            current_term: (self.current_term + 1) as u64,
            ..self
        }
    }

    /// The request for a vote that a candidate sends to every other peer.
    pub open spec fn vote_request(self) -> RequestVoteArgs {
        RequestVoteArgs {
            term: self.current_term,
            candidate_id: self.me,
            last_log_index: self.last_index() as usize,
            last_log_term: self.last_term(),
        }
    }

    /// The node as it takes office: it expects every peer to need the entry
    /// after its last one, and knows of no entry replicated but its own.
    pub open spec fn promote(self) -> NodeState {
        NodeState {
            role: State::Leader,
            next_index: Seq::new(self.peers(), |p: int| self.log.len() as usize),
            match_index: Seq::new(self.peers(), |p: int| 0usize).update(
                self.me as int,
                self.last_index() as usize,
            ),
            ..self
        }
    }

    /// Whether the vote that `reply` brings is counted.
    pub open spec fn counts_vote(self, reply: RequestVoteReply) -> bool {
        self.role is Candidate && reply.vote_granted && reply.term == self.current_term
    }

    /// Whether the vote that `reply` brings makes the node leader: with its
    /// own vote it then holds more than half of all votes.
    pub open spec fn wins_with(self, reply: RequestVoteReply) -> bool {
        self.counts_vote(reply) && self.voted_cnt + 1 >= self.peers() / 2
    }

    /// The node after the answer `reply` to its request for a vote arrived.
    pub open spec fn vote_reply(self, reply: RequestVoteReply) -> NodeState {
        if self.counts_vote(reply) {
            let counted = NodeState { voted_cnt: (self.voted_cnt + 1) as i32, ..self };
            if self.wins_with(reply) {
                counted.promote()
            } else {
                counted
            }
        } else if self.role is Candidate && reply.term > self.current_term {
            self.step_down(reply.term)
        } else {
            self
        }
    }

    /// The slot before the entries that the leader sends to `peer`.
    pub open spec fn prev_index_for(self, peer: int) -> int {
        if self.next_index[peer] - 1 <= self.last_index() {
            self.next_index[peer] - 1
        } else {
            self.last_index()
        }
    }

    /// The entries that the leader sends to `peer`: those from the peer's
    /// next index on, at most [`APPEND_WINDOW`] of them.
    pub open spec fn window_for(self, peer: int) -> Seq<Entry> {
        let from = self.next_index[peer] as int;
        if from >= self.log.len() {
            Seq::empty()
        } else if from + APPEND_WINDOW <= self.log.len() {
            self.log.subrange(from, from + APPEND_WINDOW)
        } else {
            self.log.subrange(from, self.log.len() as int)
        }
    }

    /// The request to append that the leader sends to `peer` at a heartbeat.
    pub open spec fn append_request(self, peer: int) -> AppendArgs {
        AppendArgs {
            term: self.current_term,
            leader_id: self.me,
            prev_log_index: self.prev_index_for(peer) as usize,
            prev_log_term: self.log[self.prev_index_for(peer)].term,
            entries: self.window_for(peer),
            leader_commit: self.commit_index,
        }
    }

    /// The peer that the `k`-th request of a heartbeat goes to: the peers in
    /// order, this node left out.
    pub open spec fn heartbeat_peer(self, k: int) -> int {
        if k < self.me {
            k
        } else {
            k + 1
        }
    }

    /// Whether an answer to a request that named the slot `prev_index` and
    /// carried `num_entries` entries to `peer` can belong to this log.
    pub open spec fn reply_in_range(
        self,
        peer: usize,
        prev_index: usize,
        num_entries: usize,
    ) -> bool {
        peer < self.peers() && prev_index + num_entries < self.log.len()
    }

    /// The next index that a follower's hint `first_index` leads to: the
    /// hint, kept between 1 and the length of the log.
    pub open spec fn backed_off(self, first_index: usize) -> usize {
        if first_index < 1 {
            1
        } else if first_index > self.log.len() {
            self.log.len() as usize
        } else {
            first_index
        }
    }

    /// The next index for a peer that took `num_entries` more entries: not
    /// beyond the end of the log.
    pub open spec fn advanced(self, peer: int, num_entries: usize) -> usize {
        if self.next_index[peer] + num_entries <= self.log.len() {
            (self.next_index[peer] + num_entries) as usize
        } else {
            self.log.len() as usize
        }
    }

    /// The node after `peer` answered `reply` to a request to append that
    /// named the slot `prev_index` and carried `num_entries` entries.
    pub open spec fn append_reply(
        self,
        peer: usize,
        prev_index: usize,
        num_entries: usize,
        reply: AppendEntriesReply,
    ) -> NodeState {
        if !(self.role is Leader) || peer >= self.peers() {
            self
        } else if reply.success {
            if self.reply_in_range(peer, prev_index, num_entries) {
                NodeState {
                    match_index: self.match_index.update(
                        peer as int,
                        (prev_index + num_entries) as usize,
                    ),
                    next_index: self.next_index.update(
                        peer as int,
                        self.advanced(peer as int, num_entries),
                    ),
                    ..self
                }
            } else {
                self
            }
        } else if reply.term > self.current_term {
            self.step_down(reply.term)
        } else {
            NodeState {
                next_index: self.next_index.update(peer as int, self.backed_off(reply.first_index)),
                ..self
            }
        }
    }

    /// The match index at the middle of the ranking: with `n` peers, the
    /// one at rank `n / 2` counted from the lowest.
    pub open spec fn majority_match(self) -> usize {
        self.match_index.sort_by(ascending())[(self.peers() / 2) as int]
    }

    /// The index up to which a leader may commit: the majority match, if it
    /// lies beyond the commit index and holds an entry of the leader's term.
    pub open spec fn leader_commit(self) -> Option<usize> {
        if self.role is Leader && self.log[self.majority_match() as int].term == self.current_term
            && self.commit_index < self.majority_match() {
            Some(self.majority_match())
        } else {
            None
        }
    }

    /// The commit index after the committer was asked to advance to
    /// `index`: it never moves back and never passes the end of the log.
    pub open spec fn committed_up_to(self, index: usize) -> usize {
        if self.commit_index < index && self.commit_index < self.last_index() {
            if index <= self.last_index() {
                index
            } else {
                self.last_index() as usize
            }
        } else {
            self.commit_index
        }
    }

    /// The node after the committer was asked to advance to `index`.
    pub open spec fn commit_to_index(self, index: usize) -> NodeState {
        NodeState { commit_index: self.committed_up_to(index), ..self }
    }

    /// The message that hands the entry at `index` to the host.
    pub open spec fn apply_msg(self, index: int) -> Applied {
        Applied {
            valid: true,
            index: index as usize,
            term: self.log[index].term,
            command: self.log[index].command,
        }
    }

    /// The messages that the committer emits when asked to advance to
    /// `index`: one for each newly committed slot, in order.
    pub open spec fn applied(self, index: usize) -> Seq<Applied> {
        Seq::new(
            (self.committed_up_to(index) - self.commit_index) as nat,
            |k: int| self.apply_msg(self.commit_index + 1 + k),
        )
    }

    /// Whether the node can take the event within the limits of the
    /// machine: the term can still grow, and the log can hold the entries.
    pub open spec fn accepts(self, event: Event) -> bool {
        match event {
            Event::Start { command } => self.log.len() < usize::MAX,
            Event::AppendEntries { args } => args.prev_log_index + 1 + args.entries.len()
                <= usize::MAX,
            Event::Campaign => self.current_term < u64::MAX,
            _ => true,
        }
    }

    /// The node after the event.
    pub open spec fn next(self, event: Event) -> NodeState {
        match event {
            Event::Start { command } => self.start(command),
            Event::RequestVote { request } => self.request_vote(request),
            Event::AppendEntries { args } => self.append_entries(args),
            Event::Campaign => self.campaign(),
            Event::VoteReply { answer } => self.vote_reply(answer),
            Event::AppendReply { peer, prev_index, num_entries, reply } => self.append_reply(
                peer,
                prev_index,
                num_entries,
                reply,
            ),
            Event::CommitTo { index } => self.commit_to_index(index),
        }
    }

    /// The messages that the node hands to its host at the event.
    pub open spec fn emits(self, event: Event) -> Seq<Applied> {
        match event {
            Event::CommitTo { index } => self.applied(index),
            _ => Seq::empty(),
        }
    }

    /// Whether the node can take the events one after the other.
    pub open spec fn accepts_all(self, events: Seq<Event>) -> bool
        decreases events.len(),
    {
        events.len() > 0 ==> self.accepts_all(events.drop_last()) && self.run(
            events.drop_last(),
        ).accepts(events.last())
    }

    /// The node after the events, taken one after the other.
    pub open spec fn run(self, events: Seq<Event>) -> NodeState
        decreases events.len(),
    {
        if events.len() == 0 {
            self
        } else {
            self.run(events.drop_last()).next(events.last())
        }
    }

    /// All messages that the node hands to its host during the events.
    pub open spec fn emitted(self, events: Seq<Event>) -> Seq<Applied>
        decreases events.len(),
    {
        if events.len() == 0 {
            Seq::empty()
        } else {
            self.emitted(events.drop_last()) + self.run(events.drop_last()).emits(events.last())
        }
    }
}

} // verus!
