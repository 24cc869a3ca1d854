//! Election safety: a term has at most one leader.

use crate::cluster::{Ballot, Cluster, Seat, Step};
use crate::laws::{
    next_keeps_well_formed, term_never_decreases, vote_is_cast_once_per_term,
};
use crate::model::MAX_PEERS;
use vstd::prelude::*;
use vstd::set_lib::{lemma_int_range, lemma_len_subset, set_int_range};

verus! {

impl Cluster {
    /// The peers whose vote for `candidate` in `term` has reached it.
    pub open spec fn tally(self, candidate: int, term: u64) -> Set<int> {
        Set::new(
            |voter: int|
                self.has(voter) && self.counted.contains(Ballot { voter, candidate, term }),
        )
    }

    /// The peers that have voted for `candidate` in `term`.
    pub open spec fn supporters(self, candidate: int, term: u64) -> Set<int> {
        Set::new(
            |voter: int| self.has(voter) && self.votes.contains(Ballot { voter, candidate, term }),
        )
    }

    /// Every node is well formed and knows its place in the cluster.
    pub open spec fn nodes_in_place(self) -> bool {
        &&& 1 <= self.nodes.len() <= MAX_PEERS
        &&& forall|i: int|
            self.has(i) ==> {
                &&& (#[trigger] self.nodes[i]).wf()
                &&& self.nodes[i].me == i
                &&& self.nodes[i].peers() == self.nodes.len()
            }
    }

    /// The votes on record are what the voters remember.
    #[verifier::opaque]
    pub open spec fn votes_on_record(self) -> bool {
        &&& forall|b: Ballot| #[trigger]
            self.votes.contains(b) ==> {
                &&& self.has(b.voter)
                &&& self.has(b.candidate)
                &&& b.term <= self.nodes[b.voter].current_term
                &&& b.term == self.nodes[b.voter].current_term ==> self.nodes[b.voter].voted_for
                    == b.candidate
            }
        &&& forall|a: Ballot, b: Ballot|
            #![trigger self.votes.contains(a), self.votes.contains(b)]
            self.votes.contains(a) && self.votes.contains(b) && a.voter == b.voter && a.term
                == b.term ==> a.candidate == b.candidate
        &&& forall|args: crate::types::RequestVoteArgs| #[trigger]
            self.vote_requests.contains(args) ==> self.has(args.candidate_id as int)
        &&& forall|i: int|
            self.has(i) && !((#[trigger] self.nodes[i]).role is Follower) ==> self.votes.contains(
                Ballot { voter: i, candidate: i, term: self.nodes[i].current_term },
            )
    }

    /// A candidate has counted no more votes than have reached it.
    #[verifier::opaque]
    pub open spec fn counts_are_backed(self) -> bool {
        &&& forall|b: Ballot| #[trigger]
            self.counted.contains(b) ==> self.votes.contains(b) && b.voter != b.candidate
        &&& forall|i: int|
            self.has(i) && (#[trigger] self.nodes[i]).role is Candidate ==> self.nodes[i].voted_cnt
                <= self.tally(i, self.nodes[i].current_term).len()
    }

    /// Every term of office rests on the votes of more than half of the
    /// peers, and every leader holds a term of office.
    #[verifier::opaque]
    pub open spec fn seats_are_backed(self) -> bool {
        &&& forall|seat: Seat| #[trigger]
            self.elected.contains(seat) ==> {
                &&& self.has(seat.node)
                &&& self.supporters(seat.node, seat.term).len() >= self.nodes.len() / 2 + 1
                &&& seat.term <= self.nodes[seat.node].current_term
                &&& seat.term == self.nodes[seat.node].current_term
                    ==> !(self.nodes[seat.node].role is Candidate)
            }
        &&& forall|i: int|
            self.has(i) && (#[trigger] self.nodes[i]).role is Leader ==> self.elected.contains(
                Seat { node: i, term: self.nodes[i].current_term },
            )
    }

    /// What holds of every cluster that elections have shaped.
    pub open spec fn election_invariant(self) -> bool {
        &&& self.nodes_in_place()
        &&& self.votes_on_record()
        &&& self.counts_are_backed()
        &&& self.seats_are_backed()
    }
}

/// A cluster boots in a state that the election invariant admits.
pub proof fn boot_meets_election_invariant(size: nat)
    requires
        1 <= size <= MAX_PEERS,
    ensures
        Cluster::init(size).election_invariant(),
{
    reveal(Cluster::votes_on_record);
    reveal(Cluster::counts_are_backed);
    reveal(Cluster::seats_are_backed);
    let c = Cluster::init(size);
    assert forall|i: int| c.has(i) implies (#[trigger] c.nodes[i]).wf() by {
        crate::laws::init_is_well_formed(i as i32, size);
    }
}

/// What a step does to the node that takes it, and that it leaves the
/// others alone.
pub proof fn step_changes_one_node(c: Cluster, step: Step)
    requires
        c.nodes_in_place(),
        c.enabled(step),
    ensures
        c.step(step).nodes_in_place(),
        c.step(step).nodes.len() == c.nodes.len(),
        forall|i: int| c.has(i) && i != step.actor() ==> c.step(step).nodes[i] == c.nodes[i],
        forall|i: int|
            c.has(i) ==> (#[trigger] c.step(step).nodes[i]).current_term
                >= c.nodes[i].current_term,
        step.event() matches Some(event) ==> c.step(step).nodes[step.actor()]
            == c.nodes[step.actor()].next(event),
        step.event() is None ==> c.step(step).nodes == c.nodes,
{
    let node = step.actor();
    match step.event() {
        Some(event) => {
            next_keeps_well_formed(c.nodes[node], event);
            term_never_decreases(c.nodes[node], event);
        },
        None => {},
    }
}

/// A step keeps the votes on record in line with what the voters remember.
#[verifier::rlimit(50)]
pub proof fn step_keeps_votes_on_record(c: Cluster, step: Step)
    requires
        c.nodes_in_place(),
        c.votes_on_record(),
        c.enabled(step),
    ensures
        c.step(step).votes_on_record(),
{
    reveal(Cluster::votes_on_record);
    let d = c.step(step);
    let node = step.actor();
    step_changes_one_node(c, step);
    assert forall|b: Ballot| #[trigger] d.votes.contains(b) implies {
        &&& d.has(b.voter)
        &&& d.has(b.candidate)
        &&& b.term <= d.nodes[b.voter].current_term
        &&& b.term == d.nodes[b.voter].current_term ==> d.nodes[b.voter].voted_for == b.candidate
    } by {
        if c.votes.contains(b) {
            if b.voter == node && step.event() is Some {
                let event = step.event()->Some_0;
                if b.term == d.nodes[node].current_term {
                    vote_is_cast_once_per_term(c.nodes[node], event);
                }
            }
        }
    }
    assert forall|a: Ballot, b: Ballot|
        #![trigger d.votes.contains(a), d.votes.contains(b)]
        d.votes.contains(a) && d.votes.contains(b) && a.voter == b.voter && a.term
            == b.term implies a.candidate == b.candidate by {
        if !c.votes.contains(a) && c.votes.contains(b) {
            assert(b.term <= c.nodes[b.voter].current_term);
        }
        if !c.votes.contains(b) && c.votes.contains(a) {
            assert(a.term <= c.nodes[a.voter].current_term);
        }
    }
    assert forall|i: int|
        d.has(i) && !((#[trigger] d.nodes[i]).role is Follower) implies d.votes.contains(
        Ballot { voter: i, candidate: i, term: d.nodes[i].current_term },
    ) by {
        if i != node {
            assert(d.nodes[i] == c.nodes[i]);
        } else if step.event() is Some {
            let event = step.event()->Some_0;
            if !(c.nodes[i].role is Follower) && !(step is Campaign) {
                assert(c.votes.contains(
                    Ballot { voter: i, candidate: i, term: c.nodes[i].current_term },
                ));
            }
        }
    }
}

/// The peers that voted for a candidate are among the peers of the
/// cluster, and so are those whose vote has reached it.
pub proof fn voters_are_peers(c: Cluster, candidate: int, term: u64)
    ensures
        c.tally(candidate, term).finite(),
        c.supporters(candidate, term).finite(),
        c.tally(candidate, term).len() <= c.nodes.len(),
        c.supporters(candidate, term).len() <= c.nodes.len(),
{
    let peers = set_int_range(0, c.nodes.len() as int);
    lemma_int_range(0, c.nodes.len() as int);
    lemma_len_subset(c.tally(candidate, term), peers);
    lemma_len_subset(c.supporters(candidate, term), peers);
}

/// Votes are never taken back: as the record grows, so does the support
/// of every candidate.
pub proof fn support_only_grows(c: Cluster, d: Cluster, candidate: int, term: u64)
    requires
        c.nodes.len() == d.nodes.len(),
        c.votes.subset_of(d.votes),
        c.counted.subset_of(d.counted),
    ensures
        c.tally(candidate, term).len() <= d.tally(candidate, term).len(),
        c.supporters(candidate, term).len() <= d.supporters(candidate, term).len(),
{
    voters_are_peers(d, candidate, term);
    lemma_len_subset(c.tally(candidate, term), d.tally(candidate, term));
    lemma_len_subset(c.supporters(candidate, term), d.supporters(candidate, term));
}

/// A vote that reaches its candidate adds one to the candidate's tally.
pub proof fn delivered_vote_adds_one(c: Cluster, d: Cluster, ballot: Ballot)
    requires
        c.nodes.len() == d.nodes.len(),
        c.has(ballot.voter),
        !c.counted.contains(ballot),
        d.counted == c.counted.insert(ballot),
    ensures
        d.tally(ballot.candidate, ballot.term).len() == c.tally(
            ballot.candidate,
            ballot.term,
        ).len() + 1,
{
    voters_are_peers(c, ballot.candidate, ballot.term);
    assert(d.tally(ballot.candidate, ballot.term) =~= c.tally(
        ballot.candidate,
        ballot.term,
    ).insert(ballot.voter));
}

/// A candidate that has voted for itself has one supporter more than votes
/// that have reached it.
pub proof fn own_vote_adds_one(c: Cluster, candidate: int, term: u64)
    requires
        c.has(candidate),
        c.votes.contains(Ballot { voter: candidate, candidate, term }),
        forall|b: Ballot| #[trigger]
            c.counted.contains(b) ==> c.votes.contains(b) && b.voter != b.candidate,
    ensures
        c.supporters(candidate, term).len() >= c.tally(candidate, term).len() + 1,
{
    voters_are_peers(c, candidate, term);
    let with_own = c.tally(candidate, term).insert(candidate);
    assert(!c.tally(candidate, term).contains(candidate));
    assert(with_own.subset_of(c.supporters(candidate, term)));
    lemma_len_subset(with_own, c.supporters(candidate, term));
}

/// Two candidates that more than half of the peers each voted for in one
/// term share a voter.
pub proof fn majorities_share_a_voter(c: Cluster, x: int, y: int, term: u64) -> (voter: int)
    requires
        c.supporters(x, term).len() >= c.nodes.len() / 2 + 1,
        c.supporters(y, term).len() >= c.nodes.len() / 2 + 1,
    ensures
        c.has(voter),
        c.votes.contains(Ballot { voter, candidate: x, term }),
        c.votes.contains(Ballot { voter, candidate: y, term }),
{
    let a = c.supporters(x, term);
    let b = c.supporters(y, term);
    let peers = set_int_range(0, c.nodes.len() as int);
    voters_are_peers(c, x, term);
    voters_are_peers(c, y, term);
    lemma_int_range(0, c.nodes.len() as int);
    if a.disjoint(b) {
        vstd::set_lib::lemma_set_disjoint_lens(a, b);
        lemma_len_subset(a + b, peers);
        assert(false);
    }
    let voter = choose|v: int| a.contains(v) && b.contains(v);
    voter
}

/// A step adds to the records and takes nothing from them.
pub proof fn records_only_grow(c: Cluster, step: Step)
    ensures
        c.votes.subset_of(c.step(step).votes),
        c.counted.subset_of(c.step(step).counted),
        c.vote_requests.subset_of(c.step(step).vote_requests),
        c.shipments.subset_of(c.step(step).shipments),
        c.elected.subset_of(c.step(step).elected),
        c.archive.subset_of(c.step(step).archive),
        c.held.subset_of(c.step(step).held),
        c.served.subset_of(c.step(step).served),
        c.receipts.subset_of(c.step(step).receipts),
        c.prompt.subset_of(c.step(step).prompt),
        c.orders.subset_of(c.step(step).orders),
        forall|b: Ballot| #[trigger]
            c.ballot_log.dom().contains(b) ==> c.step(step).ballot_log.dom().contains(b)
                && c.step(step).ballot_log[b] == c.ballot_log[b],
{
}

/// A step keeps every candidate's count backed by votes that reached it.
#[verifier::rlimit(50)]
pub proof fn step_keeps_counts_backed(c: Cluster, step: Step)
    requires
        c.nodes_in_place(),
        c.votes_on_record(),
        c.counts_are_backed(),
        c.enabled(step),
    ensures
        c.step(step).counts_are_backed(),
{
    reveal(Cluster::votes_on_record);
    reveal(Cluster::counts_are_backed);
    let d = c.step(step);
    let node = step.actor();
    step_changes_one_node(c, step);
    records_only_grow(c, step);
    assert forall|i: int|
        d.has(i) && (#[trigger] d.nodes[i]).role is Candidate implies d.nodes[i].voted_cnt
        <= d.tally(i, d.nodes[i].current_term).len() by {
        let term = d.nodes[i].current_term;
        support_only_grows(c, d, i, term);
        if i == node && step.event() is Some {
            match step {
                Step::Vote { ballot } => {
                    if c.nodes[i].counts_vote(
                        crate::types::RequestVoteReply { term: ballot.term, vote_granted: true },
                    ) {
                        delivered_vote_adds_one(c, d, ballot);
                    }
                },
                _ => {},
            }
        }
    }
}

/// A step keeps every term of office backed by more than half of the votes.
#[verifier::rlimit(50)]
pub proof fn step_keeps_seats_backed(c: Cluster, step: Step)
    requires
        c.election_invariant(),
        c.enabled(step),
    ensures
        c.step(step).seats_are_backed(),
{
    reveal(Cluster::votes_on_record);
    reveal(Cluster::counts_are_backed);
    reveal(Cluster::seats_are_backed);
    let d = c.step(step);
    let node = step.actor();
    step_changes_one_node(c, step);
    step_keeps_votes_on_record(c, step);
    step_keeps_counts_backed(c, step);
    records_only_grow(c, step);
    assert forall|seat: Seat| #[trigger] d.elected.contains(seat) implies {
        &&& d.has(seat.node)
        &&& d.supporters(seat.node, seat.term).len() >= d.nodes.len() / 2 + 1
        &&& seat.term <= d.nodes[seat.node].current_term
        &&& seat.term == d.nodes[seat.node].current_term ==> !(d.nodes[seat.node].role
            is Candidate)
    } by {
        support_only_grows(c, d, seat.node, seat.term);
        if !c.elected.contains(seat) {
            assert(d.leads(seat.node, seat.term));
            assert(!c.leads(seat.node, seat.term));
            assert(seat.node == node);
            match step {
                Step::Vote { ballot } => {
                    delivered_vote_adds_one(c, d, ballot);
                    own_vote_adds_one(d, seat.node, seat.term);
                },
                _ => {},
            }
        }
    }
}

/// The election invariant is inductive: every step that can be taken keeps
/// it.
pub proof fn step_keeps_election_invariant(c: Cluster, step: Step)
    requires
        c.election_invariant(),
        c.enabled(step),
    ensures
        c.step(step).election_invariant(),
{
    step_changes_one_node(c, step);
    step_keeps_votes_on_record(c, step);
    step_keeps_counts_backed(c, step);
    step_keeps_seats_backed(c, step);
}

/// Under the election invariant a term has one leader at most, among all
/// that ever held office.
pub proof fn one_seat_per_term(c: Cluster, a: Seat, b: Seat)
    requires
        c.election_invariant(),
        c.elected.contains(a),
        c.elected.contains(b),
        a.term == b.term,
    ensures
        a.node == b.node,
{
    reveal(Cluster::votes_on_record);
    reveal(Cluster::seats_are_backed);
    let voter = majorities_share_a_voter(c, a.node, b.node, a.term);
    assert(c.votes.contains(Ballot { voter, candidate: a.node, term: a.term }));
    assert(c.votes.contains(Ballot { voter, candidate: b.node, term: a.term }));
}

/// Every cluster that can be reached from boot meets the election
/// invariant.
pub proof fn run_keeps_election_invariant(size: nat, steps: Seq<Step>)
    requires
        1 <= size <= MAX_PEERS,
        Cluster::init(size).enabled_all(steps),
    ensures
        Cluster::init(size).run(steps).election_invariant(),
    decreases steps.len(),
{
    if steps.len() == 0 {
        boot_meets_election_invariant(size);
    } else {
        run_keeps_election_invariant(size, steps.drop_last());
        step_keeps_election_invariant(Cluster::init(size).run(steps.drop_last()), steps.last());
    }
}

/// The first `k` steps of a run are a run, the step after them can be
/// taken, and every term of office and every log on record after them is
/// still on record at the end.
pub proof fn earlier_records_stay(c: Cluster, steps: Seq<Step>, k: int)
    requires
        c.enabled_all(steps),
        0 <= k <= steps.len(),
    ensures
        c.enabled_all(steps.take(k)),
        k < steps.len() ==> c.run(steps.take(k)).enabled(steps[k]),
        c.run(steps.take(k)).elected.subset_of(c.run(steps).elected),
        c.run(steps.take(k)).archive.subset_of(c.run(steps).archive),
        c.run(steps.take(k)).held.subset_of(c.run(steps).held),
        c.run(steps.take(k)).served.subset_of(c.run(steps).served),
    decreases steps.len(),
{
    if k == steps.len() {
        assert(steps.take(k) =~= steps);
    } else {
        assert(steps.drop_last().take(k) =~= steps.take(k));
        earlier_records_stay(c, steps.drop_last(), k);
        records_only_grow(c.run(steps.drop_last()), steps.last());
        if k == steps.len() - 1 {
            assert(steps.take(k) =~= steps.drop_last());
        }
    }
}

/// The term of office that a leader holds at some moment of a run is on
/// record at the end of the run.
pub proof fn a_leader_has_a_seat_at_the_end(
    size: nat,
    steps: Seq<Step>,
    i: int,
    x: int,
    term: u64,
)
    requires
        1 <= size <= MAX_PEERS,
        Cluster::init(size).enabled_all(steps),
        0 <= i <= steps.len(),
        Cluster::init(size).run(steps.take(i)).leads(x, term),
    ensures
        Cluster::init(size).run(steps).elected.contains(Seat { node: x, term }),
{
    let boot = Cluster::init(size);
    earlier_records_stay(boot, steps, i);
    run_keeps_election_invariant(size, steps.take(i));
    assert(boot.run(steps.take(i)).elected.contains(Seat { node: x, term }));
}

/// Election safety. Take any run of a cluster from boot, and any two
/// moments of it: a node that is leader at the one and a node that is
/// leader at the other, both in the same term, are the same node.
pub proof fn election_safety(
    size: nat,
    steps: Seq<Step>,
    i: int,
    j: int,
    x: int,
    y: int,
    term: u64,
)
    requires
        1 <= size <= MAX_PEERS,
        Cluster::init(size).enabled_all(steps),
        0 <= i <= steps.len(),
        0 <= j <= steps.len(),
        Cluster::init(size).run(steps.take(i)).leads(x, term),
        Cluster::init(size).run(steps.take(j)).leads(y, term),
    ensures
        x == y,
{
    a_leader_has_a_seat_at_the_end(size, steps, i, x, term);
    a_leader_has_a_seat_at_the_end(size, steps, j, y, term);
    run_keeps_election_invariant(size, steps);
    one_seat_per_term(
        Cluster::init(size).run(steps),
        Seat { node: x, term },
        Seat { node: y, term },
    );
}

} // verus!
