//! Terms of office: the logs that leaders hold while they lead, and where
//! the entries of all logs come from.

use crate::cluster::election::{
    one_seat_per_term, records_only_grow, step_changes_one_node, step_keeps_election_invariant,
};
use crate::cluster::matching::{
    a_heartbeat_cuts_well, a_taken_request_leaves_a_prefix, step_keeps_log_invariant,
};
use crate::cluster::{Cluster, Holding, Seat, Shipment, Step};
use crate::laws::{
    a_log_is_its_own_prefix, a_prefix_of_a_prefix, is_prefix, leader_only_appends,
    next_keeps_well_formed,
};
use crate::model::MAX_PEERS;
use crate::types::{sentinel, Entry};
use vstd::prelude::*;

verus! {

/// Whether the terms of a log never fall from one slot to the next.
pub open spec fn terms_rise(log: Seq<Entry>) -> bool {
    forall|i: int, j: int|
        #![trigger log[i], log[j]]
        0 <= i <= j < log.len() ==> log[i].term <= log[j].term
}

impl Cluster {
    /// Whether a leader of `term` has held in office a log with an entry of
    /// that term at `index`.
    pub open spec fn made_in_office(self, index: int, term: u64) -> bool {
        exists|h: Holding| #[trigger]
            self.served.contains(h) && h.term == term && 0 <= index < h.log.len()
                && h.log[index].term == term
    }

    /// The log that node `i` holds at this moment, with the node and its
    /// term.
    pub open spec fn holding(self, i: int) -> Holding {
        Holding { node: i, term: self.nodes[i].current_term, log: self.nodes[i].log }
    }

    /// What holds of the logs that nodes and leaders have held in every
    /// cluster that can be reached.
    #[verifier::opaque]
    pub open spec fn office_invariant(self) -> bool {
        &&& forall|x: Seq<Entry>| #[trigger]
            self.archive.contains(x) ==> x.len() >= 1 && x[0] == sentinel() && terms_rise(x)
        &&& forall|i: int| self.has(i) ==> self.held.contains(#[trigger] self.holding(i))
        &&& forall|h: Holding| #[trigger]
            self.held.contains(h) ==> self.has(h.node) && h.term
                <= self.nodes[h.node].current_term && self.archive.contains(h.log)
        &&& forall|h: Holding| #[trigger]
            self.served.contains(h) ==> self.held.contains(h) && self.elected.contains(
                Seat { node: h.node, term: h.term },
            )
        &&& forall|i: int|
            self.has(i) && self.nodes[i].role is Leader ==> self.served.contains(
                #[trigger] self.holding(i),
            )
        &&& forall|i: int, h: Holding|
            #![trigger self.nodes[i], self.served.contains(h)]
            self.has(i) && self.nodes[i].role is Leader && self.served.contains(h) && h.term
                == self.nodes[i].current_term ==> is_prefix(h.log, self.nodes[i].log)
        &&& forall|g: Holding, h: Holding|
            #![trigger self.served.contains(g), self.served.contains(h)]
            self.served.contains(g) && self.served.contains(h) && g.term == h.term ==> is_prefix(
                g.log,
                h.log,
            ) || is_prefix(h.log, g.log)
        &&& forall|x: Seq<Entry>, j: int|
            #![trigger self.archive.contains(x), x[j]]
            self.archive.contains(x) && 1 <= j < x.len() ==> self.made_in_office(j, x[j].term)
        &&& forall|sent: Shipment| #[trigger]
            self.shipments.contains(sent) ==> self.served.contains(
                Holding {
                    node: sent.request.leader_id as int,
                    term: sent.request.term,
                    log: sent.log,
                },
            )
    }

    /// What holds of every cluster that can be reached.
    pub open spec fn sound(self) -> bool {
        &&& self.election_invariant()
        &&& self.log_invariant()
        &&& self.office_invariant()
    }
}

/// A cluster boots in a state that the office invariant admits.
pub proof fn boot_meets_office_invariant(size: nat)
    requires
        1 <= size <= MAX_PEERS,
    ensures
        Cluster::init(size).office_invariant(),
{
    reveal(Cluster::office_invariant);
    let c = Cluster::init(size);
    assert forall|x: Seq<Entry>| #[trigger] c.archive.contains(x) implies x.len() >= 1 && x[0]
        == sentinel() && terms_rise(x) by {
        assert(x == seq![sentinel()]);
    }
    assert forall|i: int| c.has(i) implies c.held.contains(#[trigger] c.holding(i)) by {
        assert(c.nodes[i].log =~= seq![sentinel()]);
    }
    assert forall|x: Seq<Entry>, j: int|
        #![trigger c.archive.contains(x), x[j]]
        c.archive.contains(x) && 1 <= j < x.len() implies c.made_in_office(j, x[j].term) by {
        assert(x == seq![sentinel()]);
    }
}

/// How a step changes the log of the node that takes it: not at all, or
/// a leader appends an entry of its term, or a follower is left with a
/// prefix of the log that a request was cut from.
pub proof fn how_a_log_changes(c: Cluster, step: Step)
    requires
        c.election_invariant(),
        c.log_invariant(),
        c.enabled(step),
    ensures
        ({
            let old = c.nodes[step.actor()];
            let new = c.step(step).nodes[step.actor()];
            ||| new.log == old.log
            ||| {
                &&& step is Start
                &&& old.role is Leader
                &&& new.role is Leader
                &&& new.current_term == old.current_term
                &&& new.log.len() == old.log.len() + 1
                &&& is_prefix(old.log, new.log)
                &&& new.log.last().term == old.current_term
            }
            ||| {
                &&& step matches Step::AppendRequest { shipment, .. }
                &&& c.shipments.contains(shipment)
                &&& is_prefix(new.log, shipment.log)
                &&& new.log.len() == shipment.request.prev_log_index + 1
                    + shipment.request.entries.len()
                &&& new.current_term == shipment.request.term
                &&& !(new.role is Leader)
            }
        }),
{
    let node = step.actor();
    let old = c.nodes[node];
    let new = c.step(step).nodes[node];
    step_changes_one_node(c, step);
    if new.log != old.log {
        match step {
            Step::Start { command, .. } => {
                assert(new.log.subrange(0, old.log.len() as int) =~= old.log);
            },
            Step::AppendRequest { shipment, .. } => {
                a_taken_request_leaves_a_prefix(c, node, shipment);
            },
            _ => {},
        }
    }
}

/// The office invariant is inductive: every step that can be taken keeps
/// it.
#[verifier::rlimit(50)]
pub proof fn step_keeps_office_invariant(c: Cluster, step: Step)
    requires
        c.sound(),
        c.enabled(step),
    ensures
        c.step(step).office_invariant(),
{
    reveal(Cluster::log_invariant);
    reveal(Cluster::office_invariant);
    let d = c.step(step);
    let node = step.actor();
    let old = c.nodes[node];
    let new = d.nodes[node];
    step_changes_one_node(c, step);
    step_keeps_election_invariant(c, step);
    step_keeps_log_invariant(c, step);
    records_only_grow(c, step);
    how_a_log_changes(c, step);
    assert(c.held.contains(c.holding(node)));
    assert(c.archive.contains(old.log));
    if old.role is Leader {
        assert(c.served.contains(c.holding(node)));
    }
    if step.event() is Some {
        next_keeps_well_formed(old, step.event()->Some_0);
    }
    assert forall|x: Seq<Entry>| #[trigger] d.archive.contains(x) implies x.len() >= 1 && x[0]
        == sentinel() && terms_rise(x) by {
        if !c.archive.contains(x) {
            assert(x == new.log);
            if step is Start {
                assert(terms_rise(old.log));
                assert forall|i: int, j: int|
                    #![trigger x[i], x[j]]
                    0 <= i <= j < x.len() implies x[i].term <= x[j].term by {
                    assert(x[i] == if i < old.log.len() {
                        x.subrange(0, old.log.len() as int)[i]
                    } else {
                        x.last()
                    });
                    if j < old.log.len() {
                        assert(x[j] == x.subrange(0, old.log.len() as int)[j]);
                        assert(old.log[i].term <= old.log[j].term);
                    } else if i < old.log.len() {
                        assert(old.log[i].term <= old.current_term);
                    }
                }
            } else {
                let shipment = step->shipment;
                assert(c.archive.contains(shipment.log));
                assert(terms_rise(shipment.log));
                assert forall|i: int, j: int|
                    #![trigger x[i], x[j]]
                    0 <= i <= j < x.len() implies x[i].term <= x[j].term by {
                    assert(x[i] == shipment.log.subrange(0, x.len() as int)[i]);
                    assert(x[j] == shipment.log.subrange(0, x.len() as int)[j]);
                    assert(shipment.log[i].term <= shipment.log[j].term);
                }
            }
        }
    }
    assert forall|i: int| d.has(i) implies d.held.contains(#[trigger] d.holding(i)) by {
        if i != node {
            assert(c.held.contains(c.holding(i)));
        }
    }
    assert forall|h: Holding| #[trigger] d.held.contains(h) implies d.has(h.node) && h.term
        <= d.nodes[h.node].current_term && d.archive.contains(h.log) by {
        if c.held.contains(h) {
            assert(c.archive.contains(h.log));
        }
    }
    assert forall|h: Holding| #[trigger] d.served.contains(h) implies d.held.contains(h)
        && d.elected.contains(Seat { node: h.node, term: h.term }) by {
        if c.served.contains(h) {
            assert(c.held.contains(h));
        }
    }
    assert forall|i: int| d.has(i) && d.nodes[i].role is Leader implies d.served.contains(
        #[trigger] d.holding(i),
    ) by {
        if i != node {
            assert(c.served.contains(c.holding(i)));
        }
    }
    assert forall|i: int, h: Holding|
        #![trigger d.nodes[i], d.served.contains(h)]
        d.has(i) && d.nodes[i].role is Leader && d.served.contains(h) && h.term
            == d.nodes[i].current_term implies is_prefix(h.log, d.nodes[i].log) by {
        a_leader_holds_what_was_served(c, step, i, h);
    }
    assert forall|g: Holding, h: Holding|
        #![trigger d.served.contains(g), d.served.contains(h)]
        d.served.contains(g) && d.served.contains(h) && g.term == h.term implies is_prefix(
            g.log,
            h.log,
        ) || is_prefix(h.log, g.log) by {
        if !c.served.contains(g) {
            a_leader_holds_what_was_served(c, step, node, h);
        } else if !c.served.contains(h) {
            a_leader_holds_what_was_served(c, step, node, g);
        }
    }
    assert forall|x: Seq<Entry>, j: int|
        #![trigger d.archive.contains(x), x[j]]
        d.archive.contains(x) && 1 <= j < x.len() implies d.made_in_office(j, x[j].term) by {
        let y = if c.archive.contains(x) {
            x
        } else if step is Start {
            old.log
        } else {
            step->shipment.log
        };
        if !c.archive.contains(x) && step is Start && j == old.log.len() {
            assert(d.served.contains(d.holding(node)));
        } else {
            assert(c.archive.contains(y));
            assert(j < y.len());
            assert(x[j] == y[j]) by {
                if !c.archive.contains(x) {
                    assert(x[j] == y.subrange(0, x.len() as int)[j] || x.subrange(
                        0,
                        y.len() as int,
                    )[j] == y[j]);
                }
            }
            assert(c.made_in_office(j, y[j].term));
            let h = choose|h: Holding| #[trigger]
                c.served.contains(h) && h.term == y[j].term && 0 <= j < h.log.len()
                    && h.log[j].term == y[j].term;
            assert(d.served.contains(h));
        }
    }
    assert forall|sent: Shipment| #[trigger] d.shipments.contains(sent) implies d.served.contains(
        Holding { node: sent.request.leader_id as int, term: sent.request.term, log: sent.log },
    ) by {
        if !c.shipments.contains(sent) {
            a_heartbeat_cuts_well(c, node, sent);
            assert(c.served.contains(c.holding(node)));
        } else {
            assert(c.served.contains(
                Holding {
                    node: sent.request.leader_id as int,
                    term: sent.request.term,
                    log: sent.log,
                },
            ));
        }
    }
}

/// After a step, the log of a leader extends every log that was held in
/// office in its term.
#[verifier::rlimit(50)]
pub proof fn a_leader_holds_what_was_served(c: Cluster, step: Step, i: int, h: Holding)
    requires
        c.sound(),
        c.enabled(step),
        c.step(step).has(i),
        c.step(step).nodes[i].role is Leader,
        c.step(step).served.contains(h),
        h.term == c.step(step).nodes[i].current_term,
    ensures
        is_prefix(h.log, c.step(step).nodes[i].log),
{
    reveal(Cluster::seats_are_backed);
    reveal(Cluster::office_invariant);
    let d = c.step(step);
    let node = step.actor();
    step_changes_one_node(c, step);
    step_keeps_election_invariant(c, step);
    records_only_grow(c, step);
    how_a_log_changes(c, step);
    let seat = Seat { node: i, term: h.term };
    assert(d.elected.contains(seat));
    if c.served.contains(h) {
        assert(c.elected.contains(Seat { node: h.node, term: h.term }));
        one_seat_per_term(d, seat, Seat { node: h.node, term: h.term });
        assert(c.elected.contains(seat));
        assert(c.nodes[i].role is Leader);
        assert(c.nodes[i].current_term == h.term);
        assert(is_prefix(h.log, c.nodes[i].log));
        if i == node {
            if step.event() is Some {
                leader_only_appends(c.nodes[i], step.event()->Some_0);
            } else {
                a_log_is_its_own_prefix(c.nodes[i].log);
            }
            a_prefix_of_a_prefix(h.log, c.nodes[i].log, d.nodes[i].log);
        }
    } else {
        assert(h == d.holding(node));
        one_seat_per_term(d, seat, Seat { node, term: h.term });
        a_log_is_its_own_prefix(h.log);
    }
}

} // verus!
