//! A cluster of nodes and the messages between them.
//!
//! A [`Cluster`] is a moment in the life of a cluster: the state of every
//! node, the messages that have been sent, and records of what has
//! happened so far. The records are bookkeeping for the proofs. No node
//! reads them, and no step depends on them.
//!
//! A [`Step`] is one thing that happens to one node while it holds its
//! lock. The network may lose, delay, reorder and repeat requests. A
//! granted vote reaches its candidate at most once, as the answer to the
//! one call that asked for it. Refusals of votes, answers to requests to
//! append and the indices that committers are asked to advance to are left
//! arbitrary.
//!
//! What is proved:
//!
//! - [`election::election_safety`] and [`matching::log_matching`] hold of
//!   every run.
//! - [`commitment::leader_completeness`] holds of every run whose steps are
//!   faithful: no request to append cuts a log down to a proper prefix of
//!   itself, and every report of success that a leader counts answers a
//!   request that it sent in its current term. Without either condition it
//!   fails: a request that arrives after a later one of the same leader
//!   removes entries that the leader has counted as stored, and a report
//!   that arrives after the leader lost and regained office is counted for
//!   a log that the peer no longer holds.
//! - [`applying::state_machine_safety`] and
//!   [`applying::committed_entries_reach_later_leaders`] hold of every run
//!   whose steps are orderly: faithful, and a committer advances only to an
//!   index that it was ordered to advance to.

use crate::model::{Event, NodeState};
use crate::types::{
    sentinel, AppendArgs, AppendEntriesReply, Applied, Entry, RequestVoteArgs, RequestVoteReply,
};
use vstd::prelude::*;

pub mod applying;
pub mod ballots;
pub mod commitment;
pub mod election;
pub mod matching;
pub mod office;

verus! {

/// A vote: `voter` has voted for `candidate` in `term`.
pub struct Ballot {
    pub voter: int,
    pub candidate: int,
    pub term: u64,
}

/// A request to append on its way, with the log that it was cut from.
pub struct Shipment {
    pub request: AppendArgs,
    pub log: Seq<Entry>,
}

/// A log in a node's hands: `node` has held `log` while in `term`.
pub struct Holding {
    pub node: int,
    pub term: u64,
    pub log: Seq<Entry>,
}

/// An answer on record: `peer` has answered `reply` to the request of
/// `shipment`.
pub struct Receipt {
    pub peer: int,
    pub shipment: Shipment,
    pub reply: AppendEntriesReply,
}

/// An order to commit: `node`'s committer has been asked to advance to
/// `index`, by the commit rule of `node` as leader or by a request to
/// append that `node` took.
pub struct Order {
    pub node: int,
    pub index: usize,
}

/// A term of office: `node` has been leader in `term`.
pub struct Seat {
    pub node: int,
    pub term: u64,
}

/// A cluster at one moment.
pub struct Cluster {
    /// The nodes; node `i` is the peer with id `i`.
    pub nodes: Seq<NodeState>,
    /// The requests for votes sent so far.
    pub vote_requests: Set<RequestVoteArgs>,
    /// The votes cast so far, a candidate's vote for itself included.
    pub votes: Set<Ballot>,
    /// The votes that have reached their candidate.
    pub counted: Set<Ballot>,
    /// The requests to append sent so far.
    pub shipments: Set<Shipment>,
    /// The terms of office held so far.
    pub elected: Set<Seat>,
    /// Every log that a node has held so far.
    pub archive: Set<Seq<Entry>>,
    /// Every log that a node has held so far, with the node and its term.
    pub held: Set<Holding>,
    /// Every log that a leader has held in office so far.
    pub served: Set<Holding>,
    /// The answers given so far to requests to append.
    pub receipts: Set<Receipt>,
    /// For each vote cast, the log that the voter held when it cast it.
    pub ballot_log: Map<Ballot, Seq<Entry>>,
    /// The votes cast in a term before any node took office in that term.
    pub prompt: Set<Ballot>,
    /// The orders to commit given so far.
    pub orders: Set<Order>,
}

/// What can happen in a cluster.
pub enum Step {
    /// A client submits a command to a node.
    Start { node: int, command: Seq<u8> },
    /// A node's election timer runs out: it campaigns and sends requests
    /// for votes.
    Campaign { node: int },
    /// A request for a vote that was sent reaches a node other than the
    /// candidate.
    VoteRequest { node: int, args: RequestVoteArgs },
    /// A vote that was granted and has not been delivered reaches its
    /// candidate.
    Vote { ballot: Ballot },
    /// A refusal of a vote reaches a node.
    Refusal { node: int, refusal: RequestVoteReply },
    /// A leader's heart beats: it sends requests to append to all others.
    Heartbeat { node: int },
    /// A request to append that was sent reaches a node other than its
    /// sender.
    AppendRequest { node: int, shipment: Shipment },
    /// An answer to a request to append reaches a node.
    AppendReply {
        node: int,
        peer: usize,
        prev_index: usize,
        num_entries: usize,
        reply: AppendEntriesReply,
    },
    /// A node's committer is asked to advance.
    Commit { node: int, index: usize },
}

impl Step {
    /// The node that takes the step.
    pub open spec fn actor(self) -> int {
        match self {
            Step::Start { node, .. } => node,
            Step::Campaign { node } => node,
            Step::VoteRequest { node, .. } => node,
            Step::Vote { ballot } => ballot.candidate,
            Step::Refusal { node, .. } => node,
            Step::Heartbeat { node } => node,
            Step::AppendRequest { node, .. } => node,
            Step::AppendReply { node, .. } => node,
            Step::Commit { node, .. } => node,
        }
    }

    /// The event that the step is for the node that takes it, if it changes
    /// the node at all.
    pub open spec fn event(self) -> Option<Event> {
        match self {
            Step::Start { command, .. } => Some(Event::Start { command }),
            Step::Campaign { .. } => Some(Event::Campaign),
            Step::VoteRequest { args, .. } => Some(Event::RequestVote { request: args }),
            Step::Vote { ballot } => Some(
                Event::VoteReply {
                    answer: RequestVoteReply { term: ballot.term, vote_granted: true },
                },
            ),
            Step::Refusal { refusal, .. } => Some(Event::VoteReply { answer: refusal }),
            Step::Heartbeat { .. } => None,
            Step::AppendRequest { shipment, .. } => Some(
                Event::AppendEntries { args: shipment.request },
            ),
            Step::AppendReply { peer, prev_index, num_entries, reply, .. } => Some(
                Event::AppendReply { peer, prev_index, num_entries, reply },
            ),
            Step::Commit { index, .. } => Some(Event::CommitTo { index }),
        }
    }
}

impl Cluster {
    /// Whether `node` is a peer of the cluster.
    pub open spec fn has(self, node: int) -> bool {
        0 <= node < self.nodes.len()
    }

    /// Whether `node` is leader of `term` at this moment.
    pub open spec fn leads(self, node: int, term: u64) -> bool {
        self.has(node) && self.nodes[node].role is Leader && self.nodes[node].current_term == term
    }

    /// A cluster of `size` nodes as it boots, with nothing sent.
    pub open spec fn init(size: nat) -> Cluster {
        Cluster {
            nodes: Seq::new(size, |i: int| NodeState::init(i as i32, size)),
            vote_requests: Set::empty(),
            votes: Set::empty(),
            counted: Set::empty(),
            shipments: Set::empty(),
            elected: Set::empty(),
            archive: Set::empty().insert(seq![sentinel()]),
            held: Set::new(
                |h: Holding| 0 <= h.node < size && h.term == 0 && h.log == seq![sentinel()],
            ),
            served: Set::empty(),
            receipts: Set::empty(),
            ballot_log: Map::empty(),
            prompt: Set::empty(),
            orders: Set::empty(),
        }
    }

    /// Whether the step can be taken at this moment.
    pub open spec fn enabled(self, step: Step) -> bool {
        &&& self.has(step.actor())
        &&& step.event() matches Some(event) ==> self.nodes[step.actor()].accepts(event)
        &&& match step {
            Step::VoteRequest { node, args } => self.vote_requests.contains(args)
                && args.candidate_id != node,
            Step::Vote { ballot } => self.votes.contains(ballot) && !self.counted.contains(ballot)
                && ballot.voter != ballot.candidate,
            Step::Refusal { refusal, .. } => !refusal.vote_granted,
            Step::Heartbeat { node } => self.nodes[node].role is Leader,
            Step::AppendRequest { node, shipment } => self.shipments.contains(shipment)
                && shipment.request.leader_id != node,
            _ => true,
        }
    }

    /// The nodes after the step.
    pub open spec fn nodes_after(self, step: Step) -> Seq<NodeState> {
        match step.event() {
            Some(event) => self.nodes.update(step.actor(), self.nodes[step.actor()].next(event)),
            None => self.nodes,
        }
    }

    /// The requests to append that a leader sends at a heartbeat.
    pub open spec fn shipped_by(self, node: int) -> Set<Shipment> {
        Set::new(
            |sent: Shipment|
                exists|peer: int|
                    self.has(peer) && peer != node && #[trigger] self.nodes[node].append_request(
                        peer,
                    ) == sent.request && sent.log == self.nodes[node].log,
        )
    }

    /// Whether some node has been leader in `term`.
    pub open spec fn term_was_led(self, term: u64) -> bool {
        exists|seat: Seat| #[trigger] self.elected.contains(seat) && seat.term == term
    }

    /// The vote that the step casts, if it casts one: a candidate's vote
    /// for itself, or the vote that a request for a vote is granted.
    pub open spec fn cast(self, step: Step) -> Option<Ballot> {
        match step {
            Step::Campaign { node } => Some(
                Ballot {
                    voter: node,
                    candidate: node,
                    term: self.nodes_after(step)[node].current_term,
                },
            ),
            Step::VoteRequest { node, args } => if self.nodes[node].grants_vote(args) {
                Some(Ballot { voter: node, candidate: args.candidate_id as int, term: args.term })
            } else {
                None
            },
            _ => None,
        }
    }

    /// Whether the step gives the order `o`: the commit rule of the node
    /// that took the step returns the index once the step is taken, or the
    /// step is a request to append whose outcome asks the committer to
    /// advance to the index.
    pub open spec fn gives(self, step: Step, o: Order) -> bool {
        &&& o.node == step.actor()
        &&& {
            ||| self.nodes_after(step)[o.node].leader_commit() == Some(o.index)
            ||| step matches Step::AppendRequest { shipment, .. }
                && self.nodes[o.node].append_effect(shipment.request).commit_to == Some(o.index)
        }
    }

    /// The cluster after the step.
    pub open spec fn step(self, step: Step) -> Cluster {
        let nodes = self.nodes_after(step);
        let after = Cluster { nodes, ..self };
        let holding = Holding {
            node: step.actor(),
            term: nodes[step.actor()].current_term,
            log: nodes[step.actor()].log,
        };
        Cluster {
            nodes,
            vote_requests: match step {
                Step::Campaign { node } => self.vote_requests.insert(nodes[node].vote_request()),
                _ => self.vote_requests,
            },
            votes: match self.cast(step) {
                Some(ballot) => self.votes.insert(ballot),
                None => self.votes,
            },
            counted: match step {
                Step::Vote { ballot } => self.counted.insert(ballot),
                _ => self.counted,
            },
            shipments: match step {
                Step::Heartbeat { node } => self.shipments.union(self.shipped_by(node)),
                _ => self.shipments,
            },
            elected: Set::new(
                |seat: Seat| self.elected.contains(seat) || after.leads(seat.node, seat.term),
            ),
            archive: self.archive.insert(nodes[step.actor()].log),
            held: self.held.insert(holding),
            served: if nodes[step.actor()].role is Leader {
                self.served.insert(holding)
            } else {
                self.served
            },
            receipts: match step {
                Step::AppendRequest { node, shipment } => self.receipts.insert(
                    Receipt {
                        peer: node,
                        shipment,
                        reply: self.nodes[node].append_effect(shipment.request).reply,
                    },
                ),
                _ => self.receipts,
            },
            ballot_log: match self.cast(step) {
                Some(ballot) => if self.ballot_log.dom().contains(ballot) {
                    self.ballot_log
                } else {
                    self.ballot_log.insert(ballot, nodes[step.actor()].log)
                },
                None => self.ballot_log,
            },
            prompt: match self.cast(step) {
                Some(ballot) => if self.votes.contains(ballot) || self.term_was_led(ballot.term) {
                    self.prompt
                } else {
                    self.prompt.insert(ballot)
                },
                None => self.prompt,
            },
            orders: Set::new(|o: Order| self.orders.contains(o) || self.gives(step, o)),
        }
    }

    /// The messages that the node taking the step hands to its host.
    pub open spec fn emits(self, step: Step) -> Seq<Applied> {
        match step.event() {
            Some(event) => self.nodes[step.actor()].emits(event),
            None => Seq::empty(),
        }
    }

    /// Whether the steps can be taken one after the other.
    pub open spec fn enabled_all(self, steps: Seq<Step>) -> bool
        decreases steps.len(),
    {
        steps.len() > 0 ==> self.enabled_all(steps.drop_last()) && self.run(
            steps.drop_last(),
        ).enabled(steps.last())
    }

    /// The cluster after the steps, taken one after the other.
    pub open spec fn run(self, steps: Seq<Step>) -> Cluster
        decreases steps.len(),
    {
        if steps.len() == 0 {
            self
        } else {
            self.run(steps.drop_last()).step(steps.last())
        }
    }
}

} // verus!
