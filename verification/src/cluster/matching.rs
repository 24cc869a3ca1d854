//! Log matching: logs that hold entries of one term at one index agree up
//! to that index.

use crate::cluster::election::{
    earlier_records_stay, one_seat_per_term, records_only_grow, step_changes_one_node,
    step_keeps_election_invariant,
};
use crate::cluster::{Cluster, Seat, Shipment, Step};
use crate::laws::{is_prefix, leader_only_appends};
use crate::model::MAX_PEERS;
use crate::types::Entry;
use vstd::prelude::*;

verus! {

/// Whether two logs agree up to every index at which both hold an entry of
/// the same term.
pub open spec fn logs_match(a: Seq<Entry>, b: Seq<Entry>) -> bool {
    forall|i: int|
        #![trigger a[i], b[i]]
        0 <= i < a.len() && i < b.len() && a[i].term == b[i].term ==> a.subrange(0, i + 1)
            == b.subrange(0, i + 1)
}

impl Shipment {
    /// Whether the request is a cut of the log: the slot it names holds the
    /// term it names, the entries are those that follow the slot, and none
    /// is of a later term than the request.
    pub open spec fn well_cut(self) -> bool {
        let prev = self.request.prev_log_index as int;
        &&& prev < self.log.len()
        &&& self.log[prev].term == self.request.prev_log_term
        &&& prev + 1 + self.request.entries.len() <= self.log.len()
        &&& self.request.entries == self.log.subrange(
            prev + 1,
            prev + 1 + self.request.entries.len(),
        )
        &&& forall|j: int| 0 <= j < self.log.len() ==> (#[trigger] self.log[j]).term
            <= self.request.term
    }
}

impl Cluster {
    /// Whether a node holds `log` or has held it.
    pub open spec fn holds(self, log: Seq<Entry>) -> bool {
        self.archive.contains(log)
    }

    /// What holds of the logs of every cluster that can be reached.
    #[verifier::opaque]
    pub open spec fn log_invariant(self) -> bool {
        &&& forall|i: int| self.has(i) ==> self.holds((#[trigger] self.nodes[i]).log)
        &&& forall|sent: Shipment| #[trigger]
            self.shipments.contains(sent) ==> sent.well_cut() && self.holds(sent.log)
        &&& forall|x: Seq<Entry>, y: Seq<Entry>|
            #![trigger self.holds(x), self.holds(y)]
            self.holds(x) && self.holds(y) ==> logs_match(x, y)
        &&& forall|a: int, j: int|
            self.has(a) && 0 <= j < self.nodes[a].log.len() ==> (
            #[trigger] self.nodes[a].log[j]).term <= self.nodes[a].current_term
        &&& forall|x: Seq<Entry>, j: int|
            #![trigger self.holds(x), x[j]]
            self.holds(x) && 1 <= j < x.len() ==> self.term_was_led(x[j].term)
        &&& forall|l: int, x: Seq<Entry>, j: int|
            #![trigger self.nodes[l], self.holds(x), x[j]]
            self.has(l) && self.nodes[l].role is Leader && self.holds(x) && 0 <= j < x.len()
                && x[j].term == self.nodes[l].current_term ==> j < self.nodes[l].log.len()
    }
}

/// A log matches itself.
pub proof fn a_log_matches_itself(a: Seq<Entry>)
    ensures
        logs_match(a, a),
{
}

/// Matching does not depend on the order of the two logs.
pub proof fn matching_is_symmetric(a: Seq<Entry>, b: Seq<Entry>)
    requires
        logs_match(a, b),
    ensures
        logs_match(b, a),
{
    assert forall|i: int|
        #![trigger b[i], a[i]]
        0 <= i < b.len() && i < a.len() && b[i].term == a[i].term implies b.subrange(0, i + 1)
            == a.subrange(0, i + 1) by {
        assert(a[i].term == b[i].term);
    }
}

/// A prefix of a log matches every log that the log matches.
pub proof fn a_prefix_matches_too(p: Seq<Entry>, a: Seq<Entry>, b: Seq<Entry>)
    requires
        is_prefix(p, a),
        logs_match(a, b),
    ensures
        logs_match(p, b),
{
    assert forall|i: int|
        #![trigger p[i], b[i]]
        0 <= i < p.len() && i < b.len() && p[i].term == b[i].term implies p.subrange(0, i + 1)
            == b.subrange(0, i + 1) by {
        assert(p[i] == a.subrange(0, p.len() as int)[i]);
        assert(a[i].term == b[i].term);
        assert(p.subrange(0, i + 1) =~= a.subrange(0, i + 1));
    }
}

/// A cluster boots in a state that the log invariant admits.
pub proof fn boot_meets_log_invariant(size: nat)
    requires
        1 <= size <= MAX_PEERS,
    ensures
        Cluster::init(size).log_invariant(),
{
    reveal(Cluster::log_invariant);
    let c = Cluster::init(size);
    assert forall|i: int| c.has(i) implies c.holds((#[trigger] c.nodes[i]).log) by {
        assert(c.nodes[i].log =~= seq![crate::types::sentinel()]);
    }
    assert forall|x: Seq<Entry>, y: Seq<Entry>|
        #![trigger c.holds(x), c.holds(y)]
        c.holds(x) && c.holds(y) implies logs_match(x, y) by {
        assert(x == y);
    }
}

/// A log that is on record after a step was on record before it, or is
/// the log that the step gave to the node that took it.
pub proof fn held_logs_come_from(c: Cluster, step: Step, x: Seq<Entry>)
    requires
        c.nodes_in_place(),
        c.log_invariant(),
        c.enabled(step),
        c.step(step).holds(x),
    ensures
        c.holds(x) || (x == c.step(step).nodes[step.actor()].log && x
            != c.nodes[step.actor()].log),
{
    reveal(Cluster::log_invariant);
    step_changes_one_node(c, step);
    assert(c.holds(c.nodes[step.actor()].log));
}

/// The log that a step gives to a node agrees with every log held before,
/// holds only entries that leaders made, none of a term later than the
/// node's, and none of a leader's term beyond the end of that leader's log.
#[verifier::rlimit(50)]
pub proof fn a_new_log_fits(c: Cluster, step: Step)
    requires
        c.election_invariant(),
        c.log_invariant(),
        c.enabled(step),
        c.step(step).nodes[step.actor()].log != c.nodes[step.actor()].log,
    ensures
        forall|y: Seq<Entry>| #[trigger]
            c.holds(y) ==> logs_match(c.step(step).nodes[step.actor()].log, y),
        forall|j: int|
            1 <= j < c.step(step).nodes[step.actor()].log.len() ==> c.step(step).term_was_led(
                (#[trigger] c.step(step).nodes[step.actor()].log[j]).term,
            ),
        forall|j: int|
            0 <= j < c.step(step).nodes[step.actor()].log.len() ==> (#[trigger] c.step(
                step,
            ).nodes[step.actor()].log[j]).term <= c.step(step).nodes[step.actor()].current_term,
        forall|l: int, j: int|
            c.step(step).has(l) && (#[trigger] c.step(step).nodes[l]).role is Leader && 0 <= j
                < c.step(step).nodes[step.actor()].log.len() && (#[trigger] c.step(
                step,
            ).nodes[step.actor()].log[j]).term == c.step(step).nodes[l].current_term ==> j
                < c.step(step).nodes[l].log.len(),
{
    reveal(Cluster::seats_are_backed);
    reveal(Cluster::log_invariant);
    let d = c.step(step);
    let node = step.actor();
    let old = c.nodes[node].log;
    let new = d.nodes[node].log;
    step_changes_one_node(c, step);
    step_keeps_election_invariant(c, step);
    records_only_grow(c, step);
    assert(c.holds(old));
    match step {
        Step::Start { command, .. } => {
            let term = c.nodes[node].current_term;
            assert(c.nodes[node].role is Leader);
            assert(new == old.push(Entry { term, command }));
            assert(is_prefix(old, new)) by {
                assert(new.subrange(0, old.len() as int) =~= old);
            }
            let seat = Seat { node, term };
            assert(c.elected.contains(seat));
            assert forall|y: Seq<Entry>| #[trigger] c.holds(y) implies logs_match(new, y) by {
                assert(logs_match(old, y));
                assert forall|i: int|
                    #![trigger new[i], y[i]]
                    0 <= i < new.len() && i < y.len() && new[i].term
                        == y[i].term implies new.subrange(0, i + 1) == y.subrange(0, i + 1) by {
                    if i < old.len() {
                        assert(old[i].term == y[i].term);
                        assert(new.subrange(0, i + 1) =~= old.subrange(0, i + 1));
                    } else {
                        assert(y[i].term == c.nodes[node].current_term);
                    }
                }
            }
            assert forall|j: int| 1 <= j < new.len() implies d.term_was_led(
                (#[trigger] new[j]).term,
            ) by {
                if j < old.len() {
                    assert(c.term_was_led(old[j].term));
                    let s = choose|s: Seat| #[trigger]
                        c.elected.contains(s) && s.term == old[j].term;
                    assert(d.elected.contains(s));
                } else {
                    assert(d.elected.contains(seat));
                }
            }
            assert forall|j: int| 0 <= j < new.len() implies (#[trigger] new[j]).term
                <= d.nodes[node].current_term by {
                if j < old.len() {
                    assert(c.nodes[node].log[j].term <= c.nodes[node].current_term);
                }
            }
            assert forall|l: int, j: int|
                d.has(l) && (#[trigger] d.nodes[l]).role is Leader && 0 <= j < new.len() && (
                #[trigger] new[j]).term == d.nodes[l].current_term implies j
                < d.nodes[l].log.len() by {
                if l != node {
                    if j < old.len() {
                        assert(old[j].term == c.nodes[l].current_term);
                    } else {
                        one_seat_per_term(
                            c,
                            seat,
                            Seat { node: l, term: c.nodes[l].current_term },
                        );
                    }
                }
            }
        },
        Step::AppendRequest { shipment, .. } => {
            let args = shipment.request;
            let prev = args.prev_log_index as int;
            assert(shipment.well_cut());
            assert(c.holds(shipment.log));
            assert(c.nodes[node].takes_entries(args) && args.entries.len() > 0);
            assert(new == old.subrange(0, prev + 1) + args.entries);
            assert(logs_match(old, shipment.log));
            assert(old[prev].term == shipment.log[prev].term);
            assert(old.subrange(0, prev + 1) == shipment.log.subrange(0, prev + 1));
            assert(new =~= shipment.log.subrange(0, prev + 1 + args.entries.len())) by {
                assert forall|k: int| 0 <= k < new.len() implies new[k] == shipment.log[k] by {
                    if k <= prev {
                        assert(old.subrange(0, prev + 1)[k] == shipment.log.subrange(
                            0,
                            prev + 1,
                        )[k]);
                    } else {
                        assert(args.entries[k - prev - 1] == shipment.log.subrange(
                            prev + 1,
                            prev + 1 + args.entries.len(),
                        )[k - prev - 1]);
                    }
                }
            }
            assert(is_prefix(new, shipment.log));
            assert forall|y: Seq<Entry>| #[trigger] c.holds(y) implies logs_match(new, y) by {
                assert(logs_match(shipment.log, y));
                a_prefix_matches_too(new, shipment.log, y);
            }
            assert forall|j: int| 1 <= j < new.len() implies d.term_was_led(
                (#[trigger] new[j]).term,
            ) by {
                assert(new[j] == shipment.log[j]);
                assert(c.term_was_led(shipment.log[j].term));
                let s = choose|s: Seat| #[trigger]
                    c.elected.contains(s) && s.term == shipment.log[j].term;
                assert(d.elected.contains(s));
            }
            assert forall|j: int| 0 <= j < new.len() implies (#[trigger] new[j]).term
                <= d.nodes[node].current_term by {
                assert(new[j] == shipment.log[j]);
            }
            assert forall|l: int, j: int|
                d.has(l) && (#[trigger] d.nodes[l]).role is Leader && 0 <= j < new.len() && (
                #[trigger] new[j]).term == d.nodes[l].current_term implies j
                < d.nodes[l].log.len() by {
                assert(new[j] == shipment.log[j]);
                assert(l != node);
                assert(shipment.log[j].term == c.nodes[l].current_term);
            }
        },
        _ => {},
    }
}

/// A node that takes a request agrees with the log that the request was
/// cut from up to the slot that the request names, and the entries that it
/// takes make its log a prefix of that log.
pub proof fn a_taken_request_leaves_a_prefix(c: Cluster, node: int, shipment: Shipment)
    requires
        c.election_invariant(),
        c.log_invariant(),
        c.enabled(Step::AppendRequest { node, shipment }),
        c.nodes[node].takes_entries(shipment.request),
    ensures
        c.nodes[node].log.subrange(0, shipment.request.prev_log_index + 1)
            == shipment.log.subrange(0, shipment.request.prev_log_index + 1),
        shipment.request.entries.len() > 0 ==> c.nodes[node].append_entries(
            shipment.request,
        ).log == shipment.log.subrange(
            0,
            shipment.request.prev_log_index + 1 + shipment.request.entries.len(),
        ),
        is_prefix(c.nodes[node].append_entries(shipment.request).log, shipment.log)
            || c.nodes[node].append_entries(shipment.request).log == c.nodes[node].log,
{
    reveal(Cluster::log_invariant);
    let args = shipment.request;
    let prev = args.prev_log_index as int;
    let old = c.nodes[node].log;
    let new = c.nodes[node].append_entries(args).log;
    assert(shipment.well_cut());
    assert(c.holds(shipment.log));
    assert(c.holds(old));
    assert(logs_match(old, shipment.log));
    assert(old[prev].term == shipment.log[prev].term);
    assert(old.subrange(0, prev + 1) == shipment.log.subrange(0, prev + 1));
    if args.entries.len() > 0 {
        assert(new == old.subrange(0, prev + 1) + args.entries);
        assert(new =~= shipment.log.subrange(0, prev + 1 + args.entries.len())) by {
            assert forall|k: int| 0 <= k < new.len() implies new[k] == shipment.log[k] by {
                if k <= prev {
                    assert(old.subrange(0, prev + 1)[k] == shipment.log.subrange(0, prev + 1)[k]);
                } else {
                    assert(args.entries[k - prev - 1] == shipment.log.subrange(
                        prev + 1,
                        prev + 1 + args.entries.len(),
                    )[k - prev - 1]);
                }
            }
        }
        assert(is_prefix(new, shipment.log));
    }
}

/// The requests that a leader sends at a heartbeat are cuts of its log.
pub proof fn a_heartbeat_cuts_well(c: Cluster, node: int, sent: Shipment)
    requires
        c.nodes_in_place(),
        c.log_invariant(),
        c.has(node),
        c.nodes[node].role is Leader,
        c.shipped_by(node).contains(sent),
    ensures
        sent.well_cut(),
        sent.log == c.nodes[node].log,
{
    reveal(Cluster::log_invariant);
    let leader = c.nodes[node];
    let peer = choose|peer: int|
        c.has(peer) && peer != node && #[trigger] leader.append_request(peer) == sent.request
            && sent.log == leader.log;
    assert(leader.wf());
    assert(1 <= leader.next_index[peer] <= leader.log.len());
    let prev = sent.request.prev_log_index as int;
    assert(prev == leader.next_index[peer] - 1);
    assert(sent.request.entries =~= sent.log.subrange(
        prev + 1,
        prev + 1 + sent.request.entries.len(),
    ));
    assert forall|j: int| 0 <= j < sent.log.len() implies (#[trigger] sent.log[j]).term
        <= sent.request.term by {
        assert(c.nodes[node].log[j].term <= c.nodes[node].current_term);
    }
}

/// A node that a step makes leader finds no entry of its term in any log,
/// the sentinel's slot aside.
pub proof fn a_new_leader_finds_no_entry_of_its_term(
    c: Cluster,
    step: Step,
    x: Seq<Entry>,
    j: int,
)
    requires
        c.election_invariant(),
        c.log_invariant(),
        c.enabled(step),
        c.step(step).nodes[step.actor()].role is Leader,
        !(c.nodes[step.actor()].role is Leader),
        c.holds(x),
        1 <= j < x.len(),
    ensures
        x[j].term != c.step(step).nodes[step.actor()].current_term,
{
    reveal(Cluster::seats_are_backed);
    reveal(Cluster::log_invariant);
    let d = c.step(step);
    let l = step.actor();
    step_changes_one_node(c, step);
    step_keeps_election_invariant(c, step);
    records_only_grow(c, step);
    if x[j].term == d.nodes[l].current_term {
        assert(c.term_was_led(x[j].term));
        let s = choose|s: Seat| #[trigger] c.elected.contains(s) && s.term == x[j].term;
        assert(d.elected.contains(s));
        one_seat_per_term(d, s, Seat { node: l, term: d.nodes[l].current_term });
        assert(c.nodes[l].role is Candidate);
        assert(c.nodes[l].current_term == d.nodes[l].current_term);
    }
}

/// The log invariant is inductive: every step that can be taken keeps it.
#[verifier::rlimit(50)]
pub proof fn step_keeps_log_invariant(c: Cluster, step: Step)
    requires
        c.election_invariant(),
        c.log_invariant(),
        c.enabled(step),
    ensures
        c.step(step).log_invariant(),
{
    reveal(Cluster::log_invariant);
    let d = c.step(step);
    let node = step.actor();
    let new = d.nodes[node].log;
    step_changes_one_node(c, step);
    step_keeps_election_invariant(c, step);
    records_only_grow(c, step);
    if new != c.nodes[node].log {
        a_new_log_fits(c, step);
        a_log_matches_itself(new);
    }
    assert forall|sent: Shipment| #[trigger] d.shipments.contains(sent) implies sent.well_cut() by {
        if !c.shipments.contains(sent) {
            a_heartbeat_cuts_well(c, node, sent);
            assert(c.holds(c.nodes[node].log));
        }
    }
    assert forall|i: int| d.has(i) implies d.holds((#[trigger] d.nodes[i]).log) by {
        if i != node {
            assert(c.holds(c.nodes[i].log));
        }
    }
    assert forall|x: Seq<Entry>, y: Seq<Entry>|
        #![trigger d.holds(x), d.holds(y)]
        d.holds(x) && d.holds(y) implies logs_match(x, y) by {
        held_logs_come_from(c, step, x);
        held_logs_come_from(c, step, y);
        if c.holds(x) && c.holds(y) {
        } else if c.holds(y) {
            assert(logs_match(new, y));
        } else if c.holds(x) {
            assert(logs_match(new, x));
            matching_is_symmetric(new, x);
        }
    }
    assert forall|a: int, j: int| d.has(a) && 0 <= j < d.nodes[a].log.len() implies (
    #[trigger] d.nodes[a].log[j]).term <= d.nodes[a].current_term by {
        if d.nodes[a].log == c.nodes[a].log {
            assert(c.nodes[a].log[j].term <= c.nodes[a].current_term);
        }
    }
    assert forall|x: Seq<Entry>, j: int|
        #![trigger d.holds(x), x[j]]
        d.holds(x) && 1 <= j < x.len() implies d.term_was_led(x[j].term) by {
        held_logs_come_from(c, step, x);
        if c.holds(x) {
            assert(c.term_was_led(x[j].term));
            let s = choose|s: Seat| #[trigger] c.elected.contains(s) && s.term == x[j].term;
            assert(d.elected.contains(s));
        } else {
            assert(d.term_was_led(new[j].term));
        }
    }
    assert forall|l: int, x: Seq<Entry>, j: int|
        #![trigger d.nodes[l], d.holds(x), x[j]]
        d.has(l) && d.nodes[l].role is Leader && d.holds(x) && 0 <= j < x.len() && x[j].term
            == d.nodes[l].current_term implies j < d.nodes[l].log.len() by {
        held_logs_come_from(c, step, x);
        if c.holds(x) {
            if c.nodes[l].role is Leader {
                assert(c.nodes[l].current_term == d.nodes[l].current_term);
                assert(j < c.nodes[l].log.len());
                if l == node && step.event() is Some {
                    leader_only_appends(c.nodes[l], step.event()->Some_0);
                }
            } else if j >= 1 {
                a_new_leader_finds_no_entry_of_its_term(c, step, x, j);
            }
        } else {
            assert(new[j].term == d.nodes[l].current_term);
        }
    }
}

/// Every cluster that can be reached from boot meets the log invariant.
pub proof fn run_keeps_log_invariant(size: nat, steps: Seq<Step>)
    requires
        1 <= size <= MAX_PEERS,
        Cluster::init(size).enabled_all(steps),
    ensures
        Cluster::init(size).run(steps).election_invariant(),
        Cluster::init(size).run(steps).log_invariant(),
    decreases steps.len(),
{
    if steps.len() == 0 {
        crate::cluster::election::boot_meets_election_invariant(size);
        boot_meets_log_invariant(size);
    } else {
        let before = Cluster::init(size).run(steps.drop_last());
        run_keeps_log_invariant(size, steps.drop_last());
        step_keeps_election_invariant(before, steps.last());
        step_keeps_log_invariant(before, steps.last());
    }
}

/// The log that a node holds at some moment of a run is on record at the
/// end of the run.
pub proof fn a_log_is_on_record_at_the_end(size: nat, steps: Seq<Step>, i: int, a: int)
    requires
        1 <= size <= MAX_PEERS,
        Cluster::init(size).enabled_all(steps),
        0 <= i <= steps.len(),
        Cluster::init(size).run(steps.take(i)).has(a),
    ensures
        Cluster::init(size).run(steps).holds(Cluster::init(size).run(steps.take(i)).nodes[a].log),
{
    reveal(Cluster::log_invariant);
    let boot = Cluster::init(size);
    let then = boot.run(steps.take(i));
    earlier_records_stay(boot, steps, i);
    run_keeps_log_invariant(size, steps.take(i));
    assert(then.holds(then.nodes[a].log));
}

/// Two logs on record agree up to every index at which they hold entries
/// of one term.
pub proof fn logs_on_record_match(c: Cluster, x: Seq<Entry>, y: Seq<Entry>, index: int)
    requires
        c.log_invariant(),
        c.holds(x),
        c.holds(y),
        0 <= index < x.len(),
        index < y.len(),
        x[index].term == y[index].term,
    ensures
        x.subrange(0, index + 1) == y.subrange(0, index + 1),
        x[index] == y[index],
{
    reveal(Cluster::log_invariant);
    assert(logs_match(x, y));
    assert(x.subrange(0, index + 1)[index] == y.subrange(0, index + 1)[index]);
}

/// Log matching. Take any run of a cluster from boot, any two moments of
/// it, a node at the one and a node at the other: if their logs hold
/// entries of the same term at some index, the logs are equal up to and
/// including that index. With the two moments the same, this compares the
/// logs of two nodes side by side.
pub proof fn log_matching(
    size: nat,
    steps: Seq<Step>,
    i: int,
    j: int,
    a: int,
    b: int,
    index: int,
)
    requires
        1 <= size <= MAX_PEERS,
        Cluster::init(size).enabled_all(steps),
        0 <= i <= steps.len(),
        0 <= j <= steps.len(),
        Cluster::init(size).run(steps.take(i)).has(a),
        Cluster::init(size).run(steps.take(j)).has(b),
        0 <= index < Cluster::init(size).run(steps.take(i)).nodes[a].log.len(),
        index < Cluster::init(size).run(steps.take(j)).nodes[b].log.len(),
        Cluster::init(size).run(steps.take(i)).nodes[a].log[index].term == Cluster::init(
            size,
        ).run(steps.take(j)).nodes[b].log[index].term,
    ensures
        Cluster::init(size).run(steps.take(i)).nodes[a].log.subrange(0, index + 1)
            == Cluster::init(size).run(steps.take(j)).nodes[b].log.subrange(0, index + 1),
{
    let x = Cluster::init(size).run(steps.take(i)).nodes[a].log;
    let y = Cluster::init(size).run(steps.take(j)).nodes[b].log;
    a_log_is_on_record_at_the_end(size, steps, i, a);
    a_log_is_on_record_at_the_end(size, steps, j, b);
    run_keeps_log_invariant(size, steps);
    logs_on_record_match(Cluster::init(size).run(steps), x, y, index);
}

/// What a node hands to its host at a step of a run is an entry of its log
/// at the index that the message carries.
pub proof fn what_is_applied_is_in_the_log(size: nat, steps: Seq<Step>, i: int, m: int)
    requires
        1 <= size <= MAX_PEERS,
        Cluster::init(size).enabled_all(steps),
        0 <= i < steps.len(),
        0 <= m < Cluster::init(size).run(steps.take(i)).emits(steps[i]).len(),
    ensures
        ({
            let then = Cluster::init(size).run(steps.take(i));
            let log = then.nodes[steps[i].actor()].log;
            let msg = then.emits(steps[i])[m];
            &&& then.has(steps[i].actor())
            &&& msg.valid
            &&& 1 <= msg.index < log.len()
            &&& msg.term == log[msg.index as int].term
            &&& msg.command == log[msg.index as int].command
            &&& msg.index <= then.step(steps[i]).nodes[steps[i].actor()].commit_index
            &&& then.step(steps[i]).nodes[steps[i].actor()].log == log
        }),
{
    let boot = Cluster::init(size);
    let then = boot.run(steps.take(i));
    earlier_records_stay(boot, steps, i);
    crate::cluster::election::run_keeps_election_invariant(size, steps.take(i));
    crate::laws::applies_follow_the_commit_index(
        then.nodes[steps[i].actor()],
        steps[i].event()->Some_0,
    );
}

/// What two nodes apply at one index is the same entry, if it is of the
/// same term. Take any run of a cluster from boot and two steps of it: a
/// message that a node hands to its host at the one and a message that a
/// node hands to its host at the other, with the same index and the same
/// term, carry the same command.
pub proof fn applied_entries_of_one_term_are_identical(
    size: nat,
    steps: Seq<Step>,
    i: int,
    j: int,
    m: int,
    n: int,
)
    requires
        1 <= size <= MAX_PEERS,
        Cluster::init(size).enabled_all(steps),
        0 <= i < steps.len(),
        0 <= j < steps.len(),
        0 <= m < Cluster::init(size).run(steps.take(i)).emits(steps[i]).len(),
        0 <= n < Cluster::init(size).run(steps.take(j)).emits(steps[j]).len(),
        Cluster::init(size).run(steps.take(i)).emits(steps[i])[m].index == Cluster::init(
            size,
        ).run(steps.take(j)).emits(steps[j])[n].index,
        Cluster::init(size).run(steps.take(i)).emits(steps[i])[m].term == Cluster::init(size).run(
            steps.take(j),
        ).emits(steps[j])[n].term,
    ensures
        Cluster::init(size).run(steps.take(i)).emits(steps[i])[m] == Cluster::init(size).run(
            steps.take(j),
        ).emits(steps[j])[n],
{
    let x = Cluster::init(size).run(steps.take(i)).nodes[steps[i].actor()].log;
    let y = Cluster::init(size).run(steps.take(j)).nodes[steps[j].actor()].log;
    let index = Cluster::init(size).run(steps.take(i)).emits(steps[i])[m].index as int;
    what_is_applied_is_in_the_log(size, steps, i, m);
    what_is_applied_is_in_the_log(size, steps, j, n);
    a_log_is_on_record_at_the_end(size, steps, i, steps[i].actor());
    a_log_is_on_record_at_the_end(size, steps, j, steps[j].actor());
    run_keeps_log_invariant(size, steps);
    logs_on_record_match(Cluster::init(size).run(steps), x, y, index);
}

} // verus!
