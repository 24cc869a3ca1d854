//! What a vote says about logs: the log of a candidate that gets a vote is
//! at least as fresh as the log of the voter.

use crate::cluster::election::{
    one_seat_per_term, records_only_grow, step_changes_one_node, step_keeps_election_invariant,
    voters_are_peers,
};
use crate::cluster::office::how_a_log_changes;
use crate::cluster::{Ballot, Cluster, Holding, Seat, Step};
use crate::laws::{
    a_log_is_its_own_prefix, a_prefix_of_a_prefix, is_prefix, leader_only_appends,
};
use crate::model::MAX_PEERS;
use crate::types::{Entry, RequestVoteArgs};
use vstd::prelude::*;
use vstd::set_lib::lemma_len_subset;

verus! {

/// Whether a log that ends like `fresh` is at least as up to date as one
/// that ends like `other`: its last term is higher, or the same and it is
/// no shorter.
pub open spec fn at_least_as_fresh(fresh: Seq<Entry>, other: Seq<Entry>) -> bool {
    fresh.last().term > other.last().term || (fresh.last().term == other.last().term
        && fresh.len() >= other.len())
}

/// The vote of `node` for itself in `term`.
pub open spec fn own_vote(node: int, term: u64) -> Ballot {
    Ballot { voter: node, candidate: node, term }
}

impl Cluster {
    /// The peers that voted for `candidate` in `term` before any node took
    /// office in that term.
    pub open spec fn prompt_supporters(self, candidate: int, term: u64) -> Set<int> {
        Set::new(
            |voter: int|
                self.has(voter) && self.prompt.contains(Ballot { voter, candidate, term }),
        )
    }

    /// The log of every vote is on record, and the log of a candidate that
    /// got a vote was at least as fresh as the voter's.
    #[verifier::opaque]
    pub open spec fn ballot_logs_on_record(self) -> bool {
        &&& forall|b: Ballot| #[trigger]
            self.ballot_log.dom().contains(b) ==> self.votes.contains(b)
        &&& forall|b: Ballot| #[trigger]
            self.votes.contains(b) ==> self.ballot_log.dom().contains(b) && self.archive.contains(
                self.ballot_log[b],
            )
        &&& forall|b: Ballot, j: int|
            #![trigger self.votes.contains(b), self.ballot_log[b][j]]
            self.votes.contains(b) && 0 <= j < self.ballot_log[b].len() ==> {
                &&& self.ballot_log[b][j].term <= b.term
                &&& b.voter == b.candidate ==> self.ballot_log[b][j].term < b.term
            }
        &&& forall|args: RequestVoteArgs| #[trigger]
            self.vote_requests.contains(args) ==> {
                let own = own_vote(args.candidate_id as int, args.term);
                &&& self.votes.contains(own)
                &&& args.last_log_index == self.ballot_log[own].len() - 1
                &&& args.last_log_term == self.ballot_log[own].last().term
            }
        &&& forall|b: Ballot| #[trigger]
            self.votes.contains(b) ==> self.votes.contains(own_vote(b.candidate, b.term))
                && at_least_as_fresh(
                self.ballot_log[own_vote(b.candidate, b.term)],
                self.ballot_log[b],
            )
    }

    /// A candidate holds the log it campaigned with, and a leader's logs in
    /// office begin with it.
    #[verifier::opaque]
    pub open spec fn campaign_logs_lead(self) -> bool {
        &&& forall|i: int|
            self.has(i) && (#[trigger] self.nodes[i]).role is Candidate ==> self.nodes[i].log
                == self.ballot_log[own_vote(i, self.nodes[i].current_term)]
        &&& forall|h: Holding| #[trigger]
            self.served.contains(h) ==> self.votes.contains(own_vote(h.node, h.term))
                && is_prefix(self.ballot_log[own_vote(h.node, h.term)], h.log)
    }

    /// Every term of office rests on votes that were cast before anyone
    /// took office in that term.
    #[verifier::opaque]
    pub open spec fn seats_rest_on_prompt_votes(self) -> bool {
        &&& forall|b: Ballot| #[trigger] self.prompt.contains(b) ==> self.votes.contains(b)
        &&& forall|b: Ballot| #[trigger]
            self.votes.contains(b) && !self.term_was_led(b.term) ==> self.prompt.contains(b)
        &&& forall|seat: Seat| #[trigger]
            self.elected.contains(seat) ==> self.prompt_supporters(seat.node, seat.term).len()
                >= self.nodes.len() / 2 + 1
    }

    /// What holds of the votes of every cluster that can be reached.
    pub open spec fn ballot_invariant(self) -> bool {
        &&& self.ballot_logs_on_record()
        &&& self.campaign_logs_lead()
        &&& self.seats_rest_on_prompt_votes()
    }
}

/// A cluster boots in a state that the ballot invariant admits.
pub proof fn boot_meets_ballot_invariant(size: nat)
    requires
        1 <= size <= MAX_PEERS,
    ensures
        Cluster::init(size).ballot_invariant(),
{
    reveal(Cluster::ballot_logs_on_record);
    reveal(Cluster::campaign_logs_lead);
    reveal(Cluster::seats_rest_on_prompt_votes);
}

/// The vote that a step casts was not cast before; it is the vote of the
/// node that takes the step, in the term that the step leaves it in, and
/// the step leaves the node's log as it was.
pub proof fn a_cast_vote_is_new(c: Cluster, step: Step)
    requires
        c.election_invariant(),
        c.enabled(step),
        c.cast(step) is Some,
    ensures
        !c.votes.contains(c.cast(step).unwrap()),
        c.cast(step).unwrap().voter == step.actor(),
        c.cast(step).unwrap().term == c.step(step).nodes[step.actor()].current_term,
        c.step(step).nodes[step.actor()].log == c.nodes[step.actor()].log,
        c.step(step).votes == c.votes.insert(c.cast(step).unwrap()),
{
    reveal(Cluster::votes_on_record);
    let b = c.cast(step).unwrap();
    step_changes_one_node(c, step);
    if c.votes.contains(b) {
        assert(b.term <= c.nodes[b.voter].current_term);
    }
}

/// A step keeps the logs of the votes on record.
#[verifier::rlimit(50)]
pub proof fn step_keeps_ballot_logs_on_record(c: Cluster, step: Step)
    requires
        c.sound(),
        c.ballot_logs_on_record(),
        c.enabled(step),
    ensures
        c.step(step).ballot_logs_on_record(),
{
    reveal(Cluster::log_invariant);
    reveal(Cluster::ballot_logs_on_record);
    let d = c.step(step);
    let node = step.actor();
    let old = c.nodes[node];
    let new = d.nodes[node];
    step_changes_one_node(c, step);
    records_only_grow(c, step);
    if c.cast(step) is Some {
        a_cast_vote_is_new(c, step);
        assert(c.archive.contains(old.log));
    }
    assert forall|b: Ballot| #[trigger] d.votes.contains(b) implies d.ballot_log.dom().contains(b)
        && d.archive.contains(d.ballot_log[b]) by {
        if c.votes.contains(b) {
            assert(c.archive.contains(c.ballot_log[b]));
        }
    }
    assert forall|b: Ballot, j: int|
        #![trigger d.votes.contains(b), d.ballot_log[b][j]]
        d.votes.contains(b) && 0 <= j < d.ballot_log[b].len() implies d.ballot_log[b][j].term
            <= b.term && (b.voter == b.candidate ==> d.ballot_log[b][j].term < b.term) by {
        if c.votes.contains(b) {
            assert(c.ballot_log[b][j].term <= b.term);
        } else {
            assert(old.log[j].term <= old.current_term);
        }
    }
    assert forall|args: RequestVoteArgs| #[trigger] d.vote_requests.contains(args) implies {
        let own = own_vote(args.candidate_id as int, args.term);
        &&& d.votes.contains(own)
        &&& args.last_log_index == d.ballot_log[own].len() - 1
        &&& args.last_log_term == d.ballot_log[own].last().term
    } by {
        if c.vote_requests.contains(args) {
            assert(c.votes.contains(own_vote(args.candidate_id as int, args.term)));
        }
    }
    assert forall|b: Ballot| #[trigger] d.votes.contains(b) implies d.votes.contains(
        own_vote(b.candidate, b.term),
    ) && at_least_as_fresh(d.ballot_log[own_vote(b.candidate, b.term)], d.ballot_log[b]) by {
        if c.votes.contains(b) {
            assert(c.votes.contains(own_vote(b.candidate, b.term)));
        } else if step is VoteRequest {
            let args = step->args;
            assert(c.vote_requests.contains(args));
            assert(c.votes.contains(own_vote(args.candidate_id as int, args.term)));
        }
    }
}

/// A step keeps candidates on the logs they campaigned with and leaders on
/// extensions of them.
#[verifier::rlimit(50)]
pub proof fn step_keeps_campaign_logs_leading(c: Cluster, step: Step)
    requires
        c.sound(),
        c.ballot_logs_on_record(),
        c.campaign_logs_lead(),
        c.enabled(step),
    ensures
        c.step(step).campaign_logs_lead(),
{
    reveal(Cluster::votes_on_record);
    reveal(Cluster::office_invariant);
    reveal(Cluster::ballot_logs_on_record);
    reveal(Cluster::campaign_logs_lead);
    let d = c.step(step);
    let node = step.actor();
    let old = c.nodes[node];
    let new = d.nodes[node];
    step_changes_one_node(c, step);
    records_only_grow(c, step);
    how_a_log_changes(c, step);
    if c.cast(step) is Some {
        a_cast_vote_is_new(c, step);
    }
    assert forall|i: int|
        d.has(i) && (#[trigger] d.nodes[i]).role is Candidate implies d.nodes[i].log
        == d.ballot_log[own_vote(i, d.nodes[i].current_term)] by {
        if i != node || !(step is Campaign) {
            assert(c.nodes[i].role is Candidate);
            assert(c.votes.contains(own_vote(i, c.nodes[i].current_term)));
        }
    }
    assert forall|h: Holding| #[trigger] d.served.contains(h) implies d.votes.contains(
        own_vote(h.node, h.term),
    ) && is_prefix(d.ballot_log[own_vote(h.node, h.term)], h.log) by {
        if c.served.contains(h) {
            assert(c.votes.contains(own_vote(h.node, h.term)));
        } else {
            assert(h == d.holding(node));
            if old.role is Leader {
                assert(c.served.contains(c.holding(node)));
                if step.event() is Some {
                    leader_only_appends(old, step.event()->Some_0);
                } else {
                    a_log_is_its_own_prefix(old.log);
                }
                a_prefix_of_a_prefix(
                    c.ballot_log[own_vote(node, old.current_term)],
                    old.log,
                    new.log,
                );
            } else {
                assert(old.role is Candidate);
                assert(c.votes.contains(own_vote(node, old.current_term)));
                a_log_is_its_own_prefix(new.log);
            }
        }
    }
}

/// A step keeps every term of office resting on prompt votes.
#[verifier::rlimit(50)]
pub proof fn step_keeps_seats_on_prompt_votes(c: Cluster, step: Step)
    requires
        c.election_invariant(),
        c.seats_rest_on_prompt_votes(),
        c.enabled(step),
    ensures
        c.step(step).seats_rest_on_prompt_votes(),
{
    reveal(Cluster::seats_are_backed);
    reveal(Cluster::seats_rest_on_prompt_votes);
    let d = c.step(step);
    step_changes_one_node(c, step);
    step_keeps_election_invariant(c, step);
    records_only_grow(c, step);
    assert forall|b: Ballot| #[trigger] d.votes.contains(b) && !d.term_was_led(
        b.term,
    ) implies d.prompt.contains(b) by {
        if c.term_was_led(b.term) {
            let s = choose|s: Seat| #[trigger] c.elected.contains(s) && s.term == b.term;
            assert(d.elected.contains(s));
        }
    }
    assert forall|seat: Seat| #[trigger] d.elected.contains(seat) implies d.prompt_supporters(
        seat.node,
        seat.term,
    ).len() >= d.nodes.len() / 2 + 1 by {
        voters_are_peers(d, seat.node, seat.term);
        assert(d.prompt_supporters(seat.node, seat.term).subset_of(
            d.supporters(seat.node, seat.term),
        ));
        lemma_len_subset(
            d.prompt_supporters(seat.node, seat.term),
            d.supporters(seat.node, seat.term),
        );
        if c.elected.contains(seat) {
            assert(c.prompt_supporters(seat.node, seat.term).subset_of(
                d.prompt_supporters(seat.node, seat.term),
            ));
            lemma_len_subset(
                c.prompt_supporters(seat.node, seat.term),
                d.prompt_supporters(seat.node, seat.term),
            );
        } else {
            if c.term_was_led(seat.term) {
                let s = choose|s: Seat| #[trigger] c.elected.contains(s) && s.term == seat.term;
                assert(d.elected.contains(s));
                one_seat_per_term(d, s, seat);
                assert(false);
            }
            assert(d.supporters(seat.node, seat.term) =~= d.prompt_supporters(
                seat.node,
                seat.term,
            ));
        }
    }
}

/// The ballot invariant is inductive: every step that can be taken keeps
/// it.
pub proof fn step_keeps_ballot_invariant(c: Cluster, step: Step)
    requires
        c.sound(),
        c.ballot_invariant(),
        c.enabled(step),
    ensures
        c.step(step).ballot_invariant(),
{
    step_keeps_ballot_logs_on_record(c, step);
    step_keeps_campaign_logs_leading(c, step);
    step_keeps_seats_on_prompt_votes(c, step);
}

} // verus!
