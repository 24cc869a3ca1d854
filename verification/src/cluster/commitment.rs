//! Commitment: what a quorum has stored, later leaders hold.
//!
//! This needs more of the network than the other theorems do. Two things
//! can take a stored entry away from a quorum or make a leader count a peer
//! that has not stored it, and both are ruled out here: a request to append
//! that arrives late and cuts a log down to what the request brings, and an
//! answer to a request to append that a leader counts although the request
//! was not sent in its term of office. A step that does neither is called
//! faithful.

use crate::cluster::ballots::{
    a_cast_vote_is_new, at_least_as_fresh, boot_meets_ballot_invariant, own_vote,
    step_keeps_ballot_invariant,
};
use crate::cluster::election::{
    boot_meets_election_invariant, earlier_records_stay, records_only_grow,
    step_changes_one_node, step_keeps_election_invariant,
};
use crate::cluster::matching::{
    a_taken_request_leaves_a_prefix, boot_meets_log_invariant, logs_match,
    step_keeps_log_invariant,
};
use crate::cluster::office::{
    boot_meets_office_invariant, how_a_log_changes, step_keeps_office_invariant, terms_rise,
};
use crate::cluster::{Ballot, Cluster, Holding, Receipt, Seat, Shipment, Step};
use crate::laws::{
    a_log_is_its_own_prefix, a_prefix_of_a_prefix, how_a_match_index_comes_about, is_prefix,
    prefixes_are_comparable,
};
use crate::model::MAX_PEERS;
use crate::ranking::majority_match_is_backed;
use crate::types::Entry;
use vstd::prelude::*;
use vstd::set_lib::{
    lemma_int_range, lemma_len_subset, lemma_set_disjoint_lens, set_int_range,
};

verus! {

impl Cluster {
    /// Whether `node` has held, while in `term`, a log that begins with
    /// `p`.
    pub open spec fn stored(self, node: int, term: u64, p: Seq<Entry>) -> bool {
        exists|h: Holding| #[trigger]
            self.held.contains(h) && h.node == node && h.term == term && is_prefix(p, h.log)
    }

    /// Whether `node` has held a log that begins with `p` while in the term
    /// of the last entry of `p`.
    pub open spec fn kept(self, node: int, p: Seq<Entry>) -> bool {
        self.stored(node, p.last().term, p)
    }

    /// The peers that have kept `p`.
    pub open spec fn keepers(self, p: Seq<Entry>) -> Set<int> {
        Set::new(|v: int| self.has(v) && self.kept(v, p))
    }

    /// Whether `p` is sealed: it holds an entry beside the sentinel, and so
    /// many peers have kept it that they share a peer with every group of
    /// more than half of the peers.
    pub open spec fn sealed(self, p: Seq<Entry>) -> bool {
        p.len() >= 2 && self.keepers(p).len() + (self.nodes.len() / 2 + 1) > self.nodes.len()
    }

    /// Whether a leader of a term after that of the last entry of `p` and
    /// below `bound` has held in office a log that does not begin with `p`.
    pub open spec fn broken(self, p: Seq<Entry>, bound: int) -> bool {
        exists|h: Holding| #[trigger]
            self.served.contains(h) && p.last().term < h.term < bound && !is_prefix(p, h.log)
    }

    /// Whether `receipt` is `peer`'s answer to a request that `node` sent
    /// in its current term, naming the slot `prev_index` and bringing
    /// `num_entries` entries.
    pub open spec fn answers(
        self,
        receipt: Receipt,
        node: int,
        peer: usize,
        prev_index: usize,
        num_entries: usize,
    ) -> bool {
        &&& receipt.peer == peer
        &&& receipt.reply.success
        &&& receipt.shipment.request.leader_id == node
        &&& receipt.shipment.request.term == self.nodes[node].current_term
        &&& receipt.shipment.request.prev_log_index == prev_index
        &&& receipt.shipment.request.entries.len() == num_entries
    }

    /// Whether the step is faithful: a request to append does not cut the
    /// node's log down to a proper prefix of itself, and an answer that
    /// reports success is on record as `peer`'s answer to a request that
    /// the node sent in its current term, with the slot and the number of
    /// entries that come with the answer.
    pub open spec fn faithful(self, step: Step) -> bool {
        match step {
            Step::AppendRequest { node, shipment } => {
                let old = self.nodes[node].log;
                let new = self.nodes[node].append_entries(shipment.request).log;
                !(is_prefix(new, old) && new.len() < old.len())
            },
            Step::AppendReply { node, peer, prev_index, num_entries, reply } => reply.success
                ==> exists|receipt: Receipt| #[trigger]
                self.receipts.contains(receipt) && self.answers(
                    receipt,
                    node,
                    peer,
                    prev_index,
                    num_entries,
                ),
            _ => true,
        }
    }

    /// Whether the steps can be taken one after the other and each is
    /// faithful when it is taken.
    pub open spec fn faithful_all(self, steps: Seq<Step>) -> bool
        decreases steps.len(),
    {
        steps.len() > 0 ==> self.faithful_all(steps.drop_last()) && self.run(
            steps.drop_last(),
        ).enabled(steps.last()) && self.run(steps.drop_last()).faithful(steps.last())
    }

    /// A node still holds what it has kept, unless a leader of a later term
    /// that the node has seen held a log without it.
    #[verifier::opaque]
    pub open spec fn kept_logs_stay(self) -> bool {
        forall|v: int, p: Seq<Entry>| #[trigger]
            self.kept(v, p) && self.has(v) && p.len() >= 1 ==> is_prefix(p, self.nodes[v].log)
                || self.broken(p, self.nodes[v].current_term + 1)
    }

    /// A voter whose vote was prompt held, when it voted, what it had kept
    /// in earlier terms, unless a leader of a term between held a log
    /// without it.
    #[verifier::opaque]
    pub open spec fn prompt_voters_held_their_logs(self) -> bool {
        forall|b: Ballot, p: Seq<Entry>|
            #![trigger self.prompt.contains(b), self.kept(b.voter, p)]
            self.prompt.contains(b) && self.kept(b.voter, p) && p.len() >= 1 && p.last().term
                < b.term ==> is_prefix(p, self.ballot_log[b]) || self.broken(p, b.term as int)
    }

    /// A peer that answered a request with success has stored, in the term
    /// of the request, the log that the request was cut from, up to the
    /// last entry that the request brought.
    #[verifier::opaque]
    pub open spec fn receipts_are_true(self) -> bool {
        forall|r: Receipt| #[trigger]
            self.receipts.contains(r) && r.reply.success ==> {
                &&& self.shipments.contains(r.shipment)
                &&& self.has(r.peer)
                &&& self.stored(
                    r.peer,
                    r.shipment.request.term,
                    r.shipment.log.subrange(
                        0,
                        r.shipment.request.prev_log_index + r.shipment.request.entries.len() + 1,
                    ),
                )
            }
    }

    /// A peer whose match index a leader has raised has stored the leader's
    /// log up to that index in the leader's term.
    #[verifier::opaque]
    pub open spec fn match_indices_are_true(self) -> bool {
        forall|i: int, v: int|
            #![trigger self.nodes[i].match_index[v]]
            self.has(i) && self.has(v) && self.nodes[i].role is Leader
                && self.nodes[i].match_index[v] >= 1 ==> self.stored(
                v,
                self.nodes[i].current_term,
                self.nodes[i].log.subrange(0, self.nodes[i].match_index[v] + 1),
            )
    }

    /// What holds of what nodes have stored in every cluster that faithful
    /// steps have led to.
    pub open spec fn commitment_invariant(self) -> bool {
        &&& self.kept_logs_stay()
        &&& self.prompt_voters_held_their_logs()
        &&& self.receipts_are_true()
        &&& self.match_indices_are_true()
    }
}

/// What was stored stays on record, and a broken seal stays broken.
pub proof fn stored_logs_stay_on_record(c: Cluster, step: Step)
    ensures
        forall|v: int, term: u64, p: Seq<Entry>| #[trigger]
            c.stored(v, term, p) ==> c.step(step).stored(v, term, p),
        forall|p: Seq<Entry>, bound: int| #[trigger]
            c.broken(p, bound) ==> c.step(step).broken(p, bound),
{
    let d = c.step(step);
    records_only_grow(c, step);
    assert forall|v: int, term: u64, p: Seq<Entry>| #[trigger]
        c.stored(v, term, p) implies d.stored(v, term, p) by {
        let h = choose|h: Holding| #[trigger]
            c.held.contains(h) && h.node == v && h.term == term && is_prefix(p, h.log);
        assert(d.held.contains(h));
    }
    assert forall|p: Seq<Entry>, bound: int| #[trigger] c.broken(p, bound) implies d.broken(
        p,
        bound,
    ) by {
        let h = choose|h: Holding| #[trigger]
            c.served.contains(h) && p.last().term < h.term < bound && !is_prefix(p, h.log);
        assert(d.served.contains(h));
    }
}

/// A broken seal is broken for every higher bound.
pub proof fn broken_below_is_broken_above(c: Cluster, p: Seq<Entry>, low: int, high: int)
    requires
        c.broken(p, low),
        low <= high,
    ensures
        c.broken(p, high),
{
    let h = choose|h: Holding| #[trigger]
        c.served.contains(h) && p.last().term < h.term < low && !is_prefix(p, h.log);
    assert(c.served.contains(h) && p.last().term < h.term < high && !is_prefix(p, h.log));
}

/// A cluster boots in a state that the commitment invariant admits.
pub proof fn boot_meets_commitment_invariant(size: nat)
    requires
        1 <= size <= MAX_PEERS,
    ensures
        Cluster::init(size).commitment_invariant(),
{
    reveal(Cluster::kept_logs_stay);
    reveal(Cluster::prompt_voters_held_their_logs);
    reveal(Cluster::receipts_are_true);
    reveal(Cluster::match_indices_are_true);
    let c = Cluster::init(size);
    assert forall|v: int, p: Seq<Entry>| #[trigger]
        c.kept(v, p) && c.has(v) && p.len() >= 1 implies is_prefix(p, c.nodes[v].log) by {
        let h = choose|h: Holding| #[trigger]
            c.held.contains(h) && h.node == v && h.term == p.last().term && is_prefix(p, h.log);
        assert(c.nodes[v].log =~= h.log);
    }
}

/// A log that begins with `p` and holds an entry of the term of the last
/// entry of `p` where `p` ends was held in office by the leader of that
/// term, or `p` is the sentinel alone.
pub proof fn a_kept_log_was_held_in_office(c: Cluster, x: Seq<Entry>, p: Seq<Entry>) -> (h:
    Holding)
    requires
        c.sound(),
        c.archive.contains(x),
        is_prefix(p, x),
        p.len() >= 2,
    ensures
        c.served.contains(h),
        h.term == p.last().term,
        is_prefix(p, h.log),
{
    reveal(Cluster::log_invariant);
    reveal(Cluster::office_invariant);
    let m = p.len() - 1;
    assert(p[m] == x.subrange(0, p.len() as int)[m]);
    assert(c.made_in_office(m, x[m].term));
    let h = choose|h: Holding| #[trigger]
        c.served.contains(h) && h.term == x[m].term && 0 <= m < h.log.len() && h.log[m].term
            == x[m].term;
    assert(c.held.contains(h));
    assert(c.holds(h.log) && c.holds(x));
    assert(logs_match(x, h.log));
    assert(x[m].term == h.log[m].term);
    assert(x.subrange(0, m + 1) == h.log.subrange(0, m + 1));
    h
}

/// A faithful request to append leaves the node with what it held of `p`,
/// unless the leader that sent the request, in a term after that of the
/// last entry of `p`, held a log without `p`.
#[verifier::rlimit(50)]
pub proof fn a_faithful_request_keeps_what_was_kept(
    c: Cluster,
    node: int,
    shipment: Shipment,
    p: Seq<Entry>,
)
    requires
        c.sound(),
        c.enabled(Step::AppendRequest { node, shipment }),
        c.faithful(Step::AppendRequest { node, shipment }),
        p.len() >= 1,
        is_prefix(p, c.nodes[node].log),
        p.last().term <= shipment.request.term,
    ensures
        is_prefix(p, c.nodes[node].append_entries(shipment.request).log) || c.broken(
            p,
            shipment.request.term + 1,
        ),
{
    reveal(Cluster::log_invariant);
    reveal(Cluster::office_invariant);
    let old = c.nodes[node].log;
    let new = c.nodes[node].append_entries(shipment.request).log;
    let g = Holding {
        node: shipment.request.leader_id as int,
        term: shipment.request.term,
        log: shipment.log,
    };
    assert(c.served.contains(g));
    assert(c.archive.contains(old));
    if new != old {
        a_taken_request_leaves_a_prefix(c, node, shipment);
        assert(is_prefix(new, shipment.log));
        if p.last().term < shipment.request.term && !is_prefix(p, shipment.log) {
            assert(c.served.contains(g) && p.last().term < g.term < shipment.request.term + 1
                && !is_prefix(p, g.log));
        } else if p.len() == 1 {
            assert(c.archive.contains(shipment.log));
            assert(new[0] == shipment.log.subrange(0, new.len() as int)[0]);
            assert(p[0] == old.subrange(0, 1)[0]);
            assert(new.subrange(0, 1) =~= p);
        } else {
            let whole = if p.last().term < shipment.request.term {
                shipment.log
            } else {
                let h = a_kept_log_was_held_in_office(c, old, p);
                if is_prefix(g.log, h.log) {
                    a_prefix_of_a_prefix(new, g.log, h.log);
                    h.log
                } else {
                    a_prefix_of_a_prefix(p, h.log, g.log);
                    g.log
                }
            };
            assert(is_prefix(p, whole) && is_prefix(new, whole));
            if new.len() >= p.len() {
                prefixes_are_comparable(p, new, whole);
            } else {
                prefixes_are_comparable(new, p, whole);
                a_prefix_of_a_prefix(new, p, old);
                assert(false);
            }
        }
    }
}

/// A faithful step leaves every node with what it has kept.
#[verifier::rlimit(50)]
pub proof fn step_keeps_kept_logs(c: Cluster, step: Step)
    requires
        c.sound(),
        c.kept_logs_stay(),
        c.enabled(step),
        c.faithful(step),
    ensures
        c.step(step).kept_logs_stay(),
{
    reveal(Cluster::office_invariant);
    reveal(Cluster::kept_logs_stay);
    let d = c.step(step);
    let node = step.actor();
    step_changes_one_node(c, step);
    records_only_grow(c, step);
    stored_logs_stay_on_record(c, step);
    how_a_log_changes(c, step);
    assert forall|v: int, p: Seq<Entry>| #[trigger]
        d.kept(v, p) && d.has(v) && p.len() >= 1 implies is_prefix(p, d.nodes[v].log) || d.broken(
        p,
        d.nodes[v].current_term + 1,
    ) by {
        let h = choose|h: Holding| #[trigger]
            d.held.contains(h) && h.node == v && h.term == p.last().term && is_prefix(p, h.log);
        if c.held.contains(h) {
            assert(c.kept(v, p));
            assert(h.term <= c.nodes[v].current_term);
            if c.broken(p, c.nodes[v].current_term + 1) {
                broken_below_is_broken_above(
                    c,
                    p,
                    c.nodes[v].current_term + 1,
                    d.nodes[v].current_term + 1,
                );
            } else if v == node && d.nodes[v].log != c.nodes[v].log {
                if step is Start {
                    a_prefix_of_a_prefix(p, c.nodes[v].log, d.nodes[v].log);
                } else {
                    let shipment = step->shipment;
                    a_faithful_request_keeps_what_was_kept(c, node, shipment, p);
                }
            }
        }
    }
}

/// A step keeps the record of what prompt voters held when they voted.
#[verifier::rlimit(50)]
pub proof fn step_keeps_prompt_voters_logs(c: Cluster, step: Step)
    requires
        c.sound(),
        c.ballot_invariant(),
        c.kept_logs_stay(),
        c.prompt_voters_held_their_logs(),
        c.enabled(step),
    ensures
        c.step(step).prompt_voters_held_their_logs(),
{
    reveal(Cluster::votes_on_record);
    reveal(Cluster::office_invariant);
    reveal(Cluster::ballot_logs_on_record);
    reveal(Cluster::seats_rest_on_prompt_votes);
    reveal(Cluster::kept_logs_stay);
    reveal(Cluster::prompt_voters_held_their_logs);
    let d = c.step(step);
    let node = step.actor();
    step_changes_one_node(c, step);
    records_only_grow(c, step);
    stored_logs_stay_on_record(c, step);
    if c.cast(step) is Some {
        a_cast_vote_is_new(c, step);
    }
    assert forall|b: Ballot, p: Seq<Entry>|
        #![trigger d.prompt.contains(b), d.kept(b.voter, p)]
        d.prompt.contains(b) && d.kept(b.voter, p) && p.len() >= 1 && p.last().term
            < b.term implies is_prefix(p, d.ballot_log[b]) || d.broken(p, b.term as int) by {
        let h = choose|h: Holding| #[trigger]
            d.held.contains(h) && h.node == b.voter && h.term == p.last().term && is_prefix(
                p,
                h.log,
            );
        if c.prompt.contains(b) {
            assert(c.votes.contains(b));
            assert(b.term <= c.nodes[b.voter].current_term);
            assert(c.held.contains(h));
            assert(c.kept(b.voter, p));
            assert(c.ballot_log.dom().contains(b));
        } else {
            assert(c.cast(step) == Some(b));
            assert(b.voter == node);
            assert(c.held.contains(h));
            assert(c.kept(node, p));
            assert(d.ballot_log[b] == c.nodes[node].log);
            if !is_prefix(p, c.nodes[node].log) {
                assert(c.broken(p, c.nodes[node].current_term + 1));
                let g = choose|g: Holding| #[trigger]
                    c.served.contains(g) && p.last().term < g.term < c.nodes[node].current_term
                        + 1 && !is_prefix(p, g.log);
                assert(c.elected.contains(Seat { node: g.node, term: g.term }));
                if g.term == b.term {
                    assert(c.term_was_led(b.term));
                }
                assert(d.served.contains(g));
                assert(d.served.contains(g) && p.last().term < g.term < b.term as int
                    && !is_prefix(p, g.log));
            }
        }
    }
}

/// A step keeps the receipts true.
#[verifier::rlimit(50)]
pub proof fn step_keeps_receipts_true(c: Cluster, step: Step)
    requires
        c.sound(),
        c.receipts_are_true(),
        c.enabled(step),
    ensures
        c.step(step).receipts_are_true(),
{
    reveal(Cluster::log_invariant);
    reveal(Cluster::receipts_are_true);
    let d = c.step(step);
    let node = step.actor();
    step_changes_one_node(c, step);
    records_only_grow(c, step);
    stored_logs_stay_on_record(c, step);
    assert forall|r: Receipt| #[trigger] d.receipts.contains(r) && r.reply.success implies {
        &&& d.shipments.contains(r.shipment)
        &&& d.has(r.peer)
        &&& d.stored(
            r.peer,
            r.shipment.request.term,
            r.shipment.log.subrange(
                0,
                r.shipment.request.prev_log_index + r.shipment.request.entries.len() + 1,
            ),
        )
    } by {
        if c.receipts.contains(r) {
            assert(c.stored(
                r.peer,
                r.shipment.request.term,
                r.shipment.log.subrange(
                    0,
                    r.shipment.request.prev_log_index + r.shipment.request.entries.len() + 1,
                ),
            ));
        } else {
            let shipment = r.shipment;
            let args = shipment.request;
            let prev = args.prev_log_index as int;
            let taken = shipment.log.subrange(0, prev + args.entries.len() + 1);
            assert(step == Step::AppendRequest { node, shipment });
            assert(c.nodes[node].takes_entries(args));
            a_taken_request_leaves_a_prefix(c, node, shipment);
            assert(shipment.well_cut());
            let h = d.holding(node);
            assert(d.held.contains(h));
            assert(h.term == args.term);
            if args.entries.len() > 0 {
                assert(h.log == taken);
                a_log_is_its_own_prefix(taken);
            } else {
                assert(h.log == c.nodes[node].log);
                assert(h.log.subrange(0, prev + 1) == taken);
            }
            assert(is_prefix(taken, h.log));
        }
    }
}

/// A match index that a step leaves alone stays true.
pub proof fn an_untouched_match_index_stays_true(c: Cluster, step: Step, i: int, v: int)
    requires
        c.sound(),
        c.match_indices_are_true(),
        c.enabled(step),
        c.has(i),
        c.has(v),
        c.nodes[i].role is Leader,
        c.step(step).nodes[i].role is Leader,
        c.step(step).nodes[i].current_term == c.nodes[i].current_term,
        c.step(step).nodes[i].match_index[v] == c.nodes[i].match_index[v],
        c.nodes[i].match_index[v] >= 1,
    ensures
        c.step(step).stored(
            v,
            c.step(step).nodes[i].current_term,
            c.step(step).nodes[i].log.subrange(0, c.step(step).nodes[i].match_index[v] + 1),
        ),
{
    reveal(Cluster::match_indices_are_true);
    let d = c.step(step);
    let old = c.nodes[i];
    let new = d.nodes[i];
    let k = old.match_index[v] as int;
    step_changes_one_node(c, step);
    stored_logs_stay_on_record(c, step);
    how_a_log_changes(c, step);
    assert(old.wf());
    assert(k < old.log.len());
    assert(c.stored(v, old.current_term, old.log.subrange(0, k + 1)));
    assert(is_prefix(old.log, new.log)) by {
        if new.log == old.log {
            a_log_is_its_own_prefix(old.log);
        }
    }
    assert(new.log.subrange(0, k + 1) =~= old.log.subrange(0, k + 1)) by {
        assert forall|j: int| 0 <= j <= k implies new.log[j] == old.log[j] by {
            assert(old.log[j] == new.log.subrange(0, old.log.len() as int)[j]);
        }
    }
}

/// The match index that a faithful report of success sets is true.
pub proof fn a_counted_answer_is_true(c: Cluster, step: Step)
    requires
        c.sound(),
        c.receipts_are_true(),
        c.enabled(step),
        c.faithful(step),
        step is AppendReply,
        step->AppendReply_reply.success,
        c.nodes[step.actor()].role is Leader,
        c.nodes[step.actor()].reply_in_range(step->peer, step->prev_index, step->num_entries),
    ensures
        c.stored(
            step->peer as int,
            c.nodes[step.actor()].current_term,
            c.nodes[step.actor()].log.subrange(0, step->prev_index + step->num_entries + 1),
        ),
{
    reveal(Cluster::log_invariant);
    reveal(Cluster::office_invariant);
    reveal(Cluster::receipts_are_true);
    let node = step.actor();
    let old = c.nodes[node];
    let peer = step->peer;
    let prev_index = step->prev_index;
    let num_entries = step->num_entries;
    let k = prev_index + num_entries;
    let r = choose|r: Receipt| #[trigger]
        c.receipts.contains(r) && c.answers(r, node, peer, prev_index, num_entries);
    let sent = r.shipment;
    let taken = sent.log.subrange(0, k + 1);
    assert(c.stored(peer as int, sent.request.term, taken));
    assert(c.shipments.contains(sent));
    assert(sent.well_cut());
    let g = Holding { node, term: old.current_term, log: sent.log };
    assert(c.served.contains(g));
    assert(is_prefix(sent.log, old.log));
    assert(old.log.subrange(0, k + 1) =~= taken) by {
        assert forall|j: int| 0 <= j <= k implies old.log[j] == sent.log[j] by {
            assert(sent.log[j] == old.log.subrange(0, sent.log.len() as int)[j]);
        }
    }
}

/// A faithful step keeps the match indices true.
#[verifier::rlimit(50)]
pub proof fn step_keeps_match_indices_true(c: Cluster, step: Step)
    requires
        c.sound(),
        c.receipts_are_true(),
        c.match_indices_are_true(),
        c.enabled(step),
        c.faithful(step),
    ensures
        c.step(step).match_indices_are_true(),
{
    reveal(Cluster::match_indices_are_true);
    let d = c.step(step);
    let node = step.actor();
    step_changes_one_node(c, step);
    assert forall|i: int, v: int|
        #![trigger d.nodes[i].match_index[v]]
        d.has(i) && d.has(v) && d.nodes[i].role is Leader && d.nodes[i].match_index[v]
            >= 1 implies d.stored(
        v,
        d.nodes[i].current_term,
        d.nodes[i].log.subrange(0, d.nodes[i].match_index[v] + 1),
    ) by {
        let old = c.nodes[i];
        let new = d.nodes[i];
        if i != node || step.event() is None {
            an_untouched_match_index_stays_true(c, step, i, v);
        } else {
            let event = step.event()->Some_0;
            how_a_match_index_comes_about(old, event, v);
            if old.role is Leader && new.match_index[v] == old.match_index[v] {
                an_untouched_match_index_stays_true(c, step, i, v);
            } else if v == i && new.match_index[v] == new.log.len() - 1 {
                let h = d.holding(i);
                records_only_grow(c, step);
                assert(d.held.contains(h));
                assert(new.log.subrange(0, new.match_index[v] + 1) =~= new.log);
                a_log_is_its_own_prefix(new.log);
                assert(d.held.contains(h) && h.node == v && h.term == new.current_term
                    && is_prefix(new.log, h.log));
            } else {
                a_counted_answer_is_true(c, step);
                stored_logs_stay_on_record(c, step);
                assert(old.reply_in_range(step->peer, step->prev_index, step->num_entries));
            }
        }
    }
}

/// The commitment invariant is inductive over faithful steps.
pub proof fn step_keeps_commitment_invariant(c: Cluster, step: Step)
    requires
        c.sound(),
        c.ballot_invariant(),
        c.commitment_invariant(),
        c.enabled(step),
        c.faithful(step),
    ensures
        c.step(step).commitment_invariant(),
{
    step_keeps_kept_logs(c, step);
    step_keeps_prompt_voters_logs(c, step);
    step_keeps_receipts_true(c, step);
    step_keeps_match_indices_true(c, step);
}

/// Two groups of peers that together are more than all peers share a
/// peer.
pub proof fn groups_share_a_peer(size: nat, a: Set<int>, b: Set<int>) -> (v: int)
    requires
        a.subset_of(set_int_range(0, size as int)),
        b.subset_of(set_int_range(0, size as int)),
        a.len() + b.len() > size,
    ensures
        a.contains(v),
        b.contains(v),
{
    let peers = set_int_range(0, size as int);
    lemma_int_range(0, size as int);
    lemma_len_subset(a, peers);
    lemma_len_subset(b, peers);
    if a.disjoint(b) {
        lemma_set_disjoint_lens(a, b);
        lemma_len_subset(a + b, peers);
        assert(false);
    }
    choose|v: int| a.contains(v) && b.contains(v)
}

/// No leader of a later term has held in office a log without a sealed
/// prefix.
pub proof fn no_leader_breaks_a_seal(c: Cluster, p: Seq<Entry>, bound: nat)
    requires
        c.sound(),
        c.ballot_invariant(),
        c.commitment_invariant(),
        c.sealed(p),
    ensures
        !c.broken(p, bound as int),
    decreases bound,
{
    if c.broken(p, bound as int) {
        let h = choose|h: Holding| #[trigger]
            c.served.contains(h) && p.last().term < h.term < bound as int && !is_prefix(p, h.log);
        no_leader_breaks_a_seal(c, p, h.term as nat);
        a_later_leader_holds_a_seal(c, p, h);
    }
}

/// A leader of a later term has held in office only logs that begin with
/// a sealed prefix, if no leader of a term between has held one without.
#[verifier::rlimit(50)]
pub proof fn a_later_leader_holds_a_seal(c: Cluster, p: Seq<Entry>, h: Holding)
    requires
        c.sound(),
        c.ballot_invariant(),
        c.commitment_invariant(),
        c.sealed(p),
        c.served.contains(h),
        p.last().term < h.term,
        !c.broken(p, h.term as int),
    ensures
        is_prefix(p, h.log),
{
    reveal(Cluster::votes_on_record);
    reveal(Cluster::seats_are_backed);
    reveal(Cluster::ballot_logs_on_record);
    reveal(Cluster::office_invariant);
    reveal(Cluster::campaign_logs_lead);
    reveal(Cluster::seats_rest_on_prompt_votes);
    reveal(Cluster::prompt_voters_held_their_logs);
    let size = c.nodes.len();
    let own = own_vote(h.node, h.term);
    let campaign = c.ballot_log[own];
    assert(c.votes.contains(own) && is_prefix(campaign, h.log));
    let seat = Seat { node: h.node, term: h.term };
    assert(c.elected.contains(seat));
    let v = groups_share_a_peer(size, c.keepers(p), c.prompt_supporters(h.node, h.term));
    let b = Ballot { voter: v, candidate: h.node, term: h.term };
    assert(c.prompt.contains(b) && c.kept(v, p));
    assert(c.votes.contains(b));
    let x = c.ballot_log[b];
    assert(is_prefix(p, x));
    if v != h.node {
        the_fresher_log_holds_the_seal(c, p, b);
    }
    a_prefix_of_a_prefix(p, campaign, h.log);
}

/// A candidate whose log was at least as fresh as the log of a voter that
/// held a sealed prefix held the prefix too when it campaigned, if no
/// leader of a term between has held a log without it.
#[verifier::rlimit(50)]
pub proof fn the_fresher_log_holds_the_seal(c: Cluster, p: Seq<Entry>, b: Ballot)
    requires
        c.sound(),
        c.ballot_invariant(),
        c.votes.contains(b),
        p.len() >= 2,
        p.last().term < b.term,
        is_prefix(p, c.ballot_log[b]),
        !c.broken(p, b.term as int),
    ensures
        is_prefix(p, c.ballot_log[own_vote(b.candidate, b.term)]),
{
    reveal(Cluster::office_invariant);
    reveal(Cluster::ballot_logs_on_record);
    let own = own_vote(b.candidate, b.term);
    let campaign = c.ballot_log[own];
    let x = c.ballot_log[b];
    let m = p.len() - 1;
    assert(c.votes.contains(own));
    assert(c.archive.contains(x) && c.archive.contains(campaign));
    assert(at_least_as_fresh(campaign, x));
    assert(terms_rise(x));
    assert(p[m] == x.subrange(0, p.len() as int)[m]);
    assert(x[m].term <= x[x.len() - 1].term);
    assert(campaign.last().term >= p.last().term);
    assert(campaign[0].term == 0);
    if campaign.len() < 2 {
        assert(campaign.last().term == 0);
        assert(x.len() <= campaign.len());
        assert(false);
    }
    let last = campaign.len() - 1;
    a_log_is_its_own_prefix(campaign);
    let led = a_kept_log_was_held_in_office(c, campaign, campaign);
    assert(campaign[last].term < b.term);
    if campaign.last().term > p.last().term {
        assert(is_prefix(p, led.log)) by {
            if !is_prefix(p, led.log) {
                assert(c.served.contains(led) && p.last().term < led.term < b.term as int
                    && !is_prefix(p, led.log));
            }
        }
        if p.len() <= campaign.len() {
            prefixes_are_comparable(p, campaign, led.log);
        } else {
            prefixes_are_comparable(campaign, p, led.log);
            assert(campaign[last] == p.subrange(0, campaign.len() as int)[last]);
            assert(p[last] == x.subrange(0, p.len() as int)[last]);
            assert(x[last].term <= x[m].term);
            assert(false);
        }
    } else {
        let made = a_kept_log_was_held_in_office(c, x, p);
        assert(p.len() <= campaign.len());
        if is_prefix(led.log, made.log) {
            a_prefix_of_a_prefix(campaign, led.log, made.log);
            prefixes_are_comparable(p, campaign, made.log);
        } else {
            a_prefix_of_a_prefix(p, made.log, led.log);
            prefixes_are_comparable(p, campaign, led.log);
        }
    }
}

/// Faithful steps are steps that can be taken, and the first steps of a
/// faithful run are a faithful run.
pub proof fn faithful_steps_can_be_taken(c: Cluster, steps: Seq<Step>, k: int)
    requires
        c.faithful_all(steps),
        0 <= k <= steps.len(),
    ensures
        c.enabled_all(steps),
        c.faithful_all(steps.take(k)),
    decreases steps.len(),
{
    if steps.len() > 0 {
        if k == steps.len() {
            assert(steps.take(k) =~= steps);
            faithful_steps_can_be_taken(c, steps.drop_last(), k - 1);
        } else {
            assert(steps.drop_last().take(k) =~= steps.take(k));
            faithful_steps_can_be_taken(c, steps.drop_last(), k);
        }
    } else {
        assert(steps.take(k) =~= steps);
    }
}

/// Every cluster that faithful steps lead to from boot is sound and meets
/// the ballot and the commitment invariant.
#[verifier::rlimit(50)]
pub proof fn a_faithful_run_is_sound(size: nat, steps: Seq<Step>)
    requires
        1 <= size <= MAX_PEERS,
        Cluster::init(size).faithful_all(steps),
    ensures
        Cluster::init(size).run(steps).sound(),
        Cluster::init(size).run(steps).ballot_invariant(),
        Cluster::init(size).run(steps).commitment_invariant(),
    decreases steps.len(),
{
    if steps.len() == 0 {
        boot_meets_election_invariant(size);
        boot_meets_log_invariant(size);
        boot_meets_office_invariant(size);
        boot_meets_ballot_invariant(size);
        boot_meets_commitment_invariant(size);
    } else {
        let before = Cluster::init(size).run(steps.drop_last());
        a_faithful_run_is_sound(size, steps.drop_last());
        step_changes_one_node(before, steps.last());
        step_keeps_election_invariant(before, steps.last());
        step_keeps_log_invariant(before, steps.last());
        step_keeps_office_invariant(before, steps.last());
        step_keeps_ballot_invariant(before, steps.last());
        step_keeps_commitment_invariant(before, steps.last());
    }
}

/// What the commit rule lets a leader commit is sealed: the leader's log
/// up to the index that the rule returns.
pub proof fn what_a_leader_may_commit_is_sealed(c: Cluster, x: int)
    requires
        c.sound(),
        c.commitment_invariant(),
        c.has(x),
        c.nodes[x].leader_commit() is Some,
    ensures
        c.sealed(c.nodes[x].log.subrange(0, c.nodes[x].leader_commit().unwrap() + 1)),
{
    reveal(Cluster::match_indices_are_true);
    let s = c.nodes[x];
    let m = s.leader_commit().unwrap() as int;
    let p = s.log.subrange(0, m + 1);
    assert(s.wf());
    majority_match_is_backed(s);
    crate::laws::leader_commits_in_its_own_term(s);
    assert(p.last() == s.log[m]);
    assert forall|v: int| s.backers(m as usize).contains(v) implies c.keepers(p).contains(v) by {
        let k = s.match_index[v] as int;
        assert(c.stored(v, s.current_term, s.log.subrange(0, k + 1)));
        let h = choose|h: Holding| #[trigger]
            c.held.contains(h) && h.node == v && h.term == s.current_term && is_prefix(
                s.log.subrange(0, k + 1),
                h.log,
            );
        assert(is_prefix(p, s.log.subrange(0, k + 1))) by {
            assert(s.log.subrange(0, k + 1).subrange(0, m + 1) =~= p);
        }
        a_prefix_of_a_prefix(p, s.log.subrange(0, k + 1), h.log);
    }
    let peers = set_int_range(0, c.nodes.len() as int);
    lemma_int_range(0, c.nodes.len() as int);
    lemma_len_subset(c.keepers(p), peers);
    lemma_len_subset(s.backers(m as usize), c.keepers(p));
}

/// What is sealed stays sealed as the records grow.
pub proof fn a_seal_lasts(c: Cluster, d: Cluster, p: Seq<Entry>)
    requires
        c.sealed(p),
        c.nodes.len() == d.nodes.len(),
        c.held.subset_of(d.held),
    ensures
        d.sealed(p),
{
    let peers = set_int_range(0, d.nodes.len() as int);
    lemma_int_range(0, d.nodes.len() as int);
    assert forall|v: int| c.keepers(p).contains(v) implies d.keepers(p).contains(v) by {
        let h = choose|h: Holding| #[trigger]
            c.held.contains(h) && h.node == v && h.term == p.last().term && is_prefix(p, h.log);
        assert(d.held.contains(h));
    }
    lemma_len_subset(d.keepers(p), peers);
    lemma_len_subset(c.keepers(p), d.keepers(p));
}

/// A leader of a later term has held in office only logs that begin with
/// what is sealed.
pub proof fn a_seal_binds_later_leaders(c: Cluster, p: Seq<Entry>, h: Holding)
    requires
        c.sound(),
        c.ballot_invariant(),
        c.commitment_invariant(),
        c.sealed(p),
        c.served.contains(h),
        p.last().term < h.term,
    ensures
        is_prefix(p, h.log),
{
    no_leader_breaks_a_seal(c, p, h.term as nat);
    a_later_leader_holds_a_seal(c, p, h);
}

/// What a leader's commit rule lets it commit at some moment of a faithful
/// run is sealed at the end of the run.
pub proof fn a_commit_is_sealed_at_the_end(size: nat, steps: Seq<Step>, i: int, x: int)
    requires
        1 <= size <= MAX_PEERS,
        Cluster::init(size).faithful_all(steps),
        0 <= i <= steps.len(),
        Cluster::init(size).run(steps.take(i)).has(x),
        Cluster::init(size).run(steps.take(i)).nodes[x].leader_commit() is Some,
    ensures
        ({
            let then = Cluster::init(size).run(steps.take(i)).nodes[x];
            let p = then.log.subrange(0, then.leader_commit().unwrap() + 1);
            &&& Cluster::init(size).run(steps).sealed(p)
            &&& p.last().term == then.current_term
            &&& then.leader_commit().unwrap() < then.log.len()
        }),
{
    let boot = Cluster::init(size);
    let a = boot.run(steps.take(i));
    let c = boot.run(steps);
    faithful_steps_can_be_taken(boot, steps, i);
    earlier_records_stay(boot, steps, i);
    a_faithful_run_is_sound(size, steps.take(i));
    a_run_keeps_its_size(size, steps);
    a_run_keeps_its_size(size, steps.take(i));
    let m = a.nodes[x].leader_commit().unwrap() as int;
    let p = a.nodes[x].log.subrange(0, m + 1);
    what_a_leader_may_commit_is_sealed(a, x);
    crate::laws::leader_commits_in_its_own_term(a.nodes[x]);
    a_seal_lasts(a, c, p);
    assert(p.last() == a.nodes[x].log[m]);
}

/// A run leaves the cluster with as many nodes as it booted with.
pub proof fn a_run_keeps_its_size(size: nat, steps: Seq<Step>)
    requires
        Cluster::init(size).enabled_all(steps),
    ensures
        Cluster::init(size).run(steps).nodes.len() == size,
    decreases steps.len(),
{
    if steps.len() > 0 {
        a_run_keeps_its_size(size, steps.drop_last());
        assert(Cluster::init(size).run(steps.drop_last()).has(steps.last().actor()));
    }
}

/// The log that a leader holds at some moment of a faithful run is on
/// record at the end of the run as held in office.
pub proof fn a_leader_is_on_record_at_the_end(size: nat, steps: Seq<Step>, j: int, y: int)
    requires
        1 <= size <= MAX_PEERS,
        Cluster::init(size).faithful_all(steps),
        0 <= j <= steps.len(),
        Cluster::init(size).run(steps.take(j)).has(y),
        Cluster::init(size).run(steps.take(j)).nodes[y].role is Leader,
    ensures
        Cluster::init(size).run(steps).served.contains(
            Cluster::init(size).run(steps.take(j)).holding(y),
        ),
{
    reveal(Cluster::office_invariant);
    let boot = Cluster::init(size);
    let b = boot.run(steps.take(j));
    faithful_steps_can_be_taken(boot, steps, j);
    earlier_records_stay(boot, steps, j);
    a_faithful_run_is_sound(size, steps.take(j));
    assert(b.served.contains(b.holding(y)));
}

/// Leader completeness, for faithful runs. Take any faithful run of a
/// cluster from boot and two moments of it. If at the one a leader's
/// commit rule lets it commit up to some index, then a node that is leader
/// of a later term at the other holds, up to that index, the very entries
/// that the first leader held.
pub proof fn leader_completeness(
    size: nat,
    steps: Seq<Step>,
    i: int,
    j: int,
    x: int,
    y: int,
    index: int,
)
    requires
        1 <= size <= MAX_PEERS,
        Cluster::init(size).faithful_all(steps),
        0 <= i <= steps.len(),
        0 <= j <= steps.len(),
        Cluster::init(size).run(steps.take(i)).has(x),
        Cluster::init(size).run(steps.take(i)).nodes[x].leader_commit() is Some,
        0 <= index <= Cluster::init(size).run(steps.take(i)).nodes[x].leader_commit().unwrap(),
        Cluster::init(size).run(steps.take(j)).has(y),
        Cluster::init(size).run(steps.take(j)).nodes[y].role is Leader,
        Cluster::init(size).run(steps.take(j)).nodes[y].current_term > Cluster::init(size).run(
            steps.take(i),
        ).nodes[x].current_term,
    ensures
        index < Cluster::init(size).run(steps.take(j)).nodes[y].log.len(),
        Cluster::init(size).run(steps.take(j)).nodes[y].log[index] == Cluster::init(size).run(
            steps.take(i),
        ).nodes[x].log[index],
{
    let then = Cluster::init(size).run(steps.take(i)).nodes[x];
    let h = Cluster::init(size).run(steps.take(j)).holding(y);
    let p = then.log.subrange(0, then.leader_commit().unwrap() + 1);
    a_commit_is_sealed_at_the_end(size, steps, i, x);
    a_leader_is_on_record_at_the_end(size, steps, j, y);
    a_faithful_run_is_sound(size, steps);
    a_seal_binds_later_leaders(Cluster::init(size).run(steps), p, h);
    assert(h.log[index] == h.log.subrange(0, p.len() as int)[index]);
}

} // verus!
