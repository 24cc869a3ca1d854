//! State machine safety: what nodes apply at one index is one entry.
//!
//! Beyond faithful requests and answers this needs faithful commits: a
//! committer advances only to an index that it was ordered to advance to.

use crate::cluster::commitment::{
    a_faithful_run_is_sound, a_kept_log_was_held_in_office, a_leader_is_on_record_at_the_end,
    a_run_keeps_its_size, a_seal_binds_later_leaders, a_seal_lasts, faithful_steps_can_be_taken,
    what_a_leader_may_commit_is_sealed,
};
use crate::cluster::election::{
    earlier_records_stay, records_only_grow, step_changes_one_node,
};
use crate::cluster::matching::{a_heartbeat_cuts_well, a_taken_request_leaves_a_prefix};
use crate::cluster::office::how_a_log_changes;
use crate::cluster::{Cluster, Holding, Order, Shipment, Step};
use crate::laws::{
    a_log_is_its_own_prefix, a_prefix_of_a_prefix, is_prefix, prefixes_are_comparable,
};
use crate::model::MAX_PEERS;
use crate::types::Entry;
use vstd::prelude::*;

verus! {

impl Cluster {
    /// Whether `log` holds, up to the slot `upto`, what is sealed by a leader
    /// of a term no later than `term`.
    pub open spec fn covered(self, log: Seq<Entry>, upto: int, term: u64) -> bool {
        exists|p: Seq<Entry>| #[trigger]
            self.sealed(p) && 0 <= upto < p.len() && p.last().term <= term && is_prefix(
                p.subrange(0, upto + 1),
                log,
            )
    }

    /// Whether the step is faithful and, if it is a commit, follows an
    /// order.
    pub open spec fn orderly(self, step: Step) -> bool {
        &&& self.faithful(step)
        &&& step matches Step::Commit { node, index } ==> self.orders.contains(
            Order { node, index },
        )
    }

    /// Whether the steps can be taken one after the other and each is
    /// orderly when it is taken.
    pub open spec fn orderly_all(self, steps: Seq<Step>) -> bool
        decreases steps.len(),
    {
        steps.len() > 0 ==> self.orderly_all(steps.drop_last()) && self.run(
            steps.drop_last(),
        ).enabled(steps.last()) && self.run(steps.drop_last()).orderly(steps.last())
    }

    /// What holds of what is committed in every cluster that orderly steps
    /// have led to: what a node was ordered to commit, what it has
    /// committed, and what a leader said it had committed when it sent a
    /// request, is sealed.
    #[verifier::opaque]
    pub open spec fn applying_invariant(self) -> bool {
        &&& forall|o: Order| #[trigger]
            self.orders.contains(o) ==> self.has(o.node) && self.covered(
                self.nodes[o.node].log,
                o.index as int,
                self.nodes[o.node].current_term,
            )
        &&& forall|i: int|
            self.has(i) && (#[trigger] self.nodes[i]).commit_index >= 1 ==> self.covered(
                self.nodes[i].log,
                self.nodes[i].commit_index as int,
                self.nodes[i].current_term,
            )
        &&& forall|sent: Shipment| #[trigger]
            self.shipments.contains(sent) && sent.request.leader_commit >= 1 ==> self.covered(
                sent.log,
                sent.request.leader_commit as int,
                sent.request.term,
            )
    }
}

/// Two sealed prefixes hold the same entry at every index that both reach.
pub proof fn seals_agree(c: Cluster, p: Seq<Entry>, q: Seq<Entry>, index: int)
    requires
        c.sound(),
        c.ballot_invariant(),
        c.commitment_invariant(),
        c.sealed(p),
        c.sealed(q),
        0 <= index < p.len(),
        index < q.len(),
    ensures
        p[index] == q[index],
{
    reveal(Cluster::office_invariant);
    let x = a_sealed_prefix_is_on_record(c, p);
    let y = a_sealed_prefix_is_on_record(c, q);
    let g = a_kept_log_was_held_in_office(c, x, p);
    let h = a_kept_log_was_held_in_office(c, y, q);
    if p.last().term < q.last().term {
        a_seal_binds_later_leaders(c, p, h);
    } else if q.last().term < p.last().term {
        a_seal_binds_later_leaders(c, q, g);
    } else if is_prefix(g.log, h.log) {
        a_prefix_of_a_prefix(p, g.log, h.log);
    } else {
        a_prefix_of_a_prefix(q, h.log, g.log);
    }
    let whole = if is_prefix(p, h.log) {
        h.log
    } else {
        g.log
    };
    assert(is_prefix(p, whole) && is_prefix(q, whole));
    assert(p[index] == whole.subrange(0, p.len() as int)[index]);
    assert(q[index] == whole.subrange(0, q.len() as int)[index]);
}

/// A sealed prefix begins a log on record.
pub proof fn a_sealed_prefix_is_on_record(c: Cluster, p: Seq<Entry>) -> (x: Seq<Entry>)
    requires
        c.sound(),
        c.sealed(p),
    ensures
        c.archive.contains(x),
        is_prefix(p, x),
        p.len() >= 2,
{
    reveal(Cluster::office_invariant);
    let keepers = c.keepers(p);
    assert(keepers.len() > 0) by {
        assert(c.nodes.len() / 2 + 1 <= c.nodes.len());
    }
    if keepers =~= Set::empty() {
        assert(false);
    }
    let v = choose|v: int| keepers.contains(v);
    assert(c.kept(v, p));
    let h = choose|h: Holding| #[trigger]
        c.held.contains(h) && h.node == v && h.term == p.last().term && is_prefix(p, h.log);
    h.log
}

/// What a log covers, it covers as the records grow.
pub proof fn coverage_lasts(c: Cluster, d: Cluster, log: Seq<Entry>, upto: int, term: u64)
    requires
        c.covered(log, upto, term),
        c.nodes.len() == d.nodes.len(),
        c.held.subset_of(d.held),
    ensures
        d.covered(log, upto, term),
{
    let p = choose|p: Seq<Entry>| #[trigger]
        c.sealed(p) && 0 <= upto < p.len() && p.last().term <= term && is_prefix(
            p.subrange(0, upto + 1),
            log,
        );
    a_seal_lasts(c, d, p);
}

/// A faithful step leaves a node's log covering what it covered.
#[verifier::rlimit(50)]
pub proof fn coverage_survives_a_step(c: Cluster, step: Step, i: int, upto: int)
    requires
        c.sound(),
        c.ballot_invariant(),
        c.commitment_invariant(),
        c.enabled(step),
        c.faithful(step),
        c.has(i),
        c.covered(c.nodes[i].log, upto, c.nodes[i].current_term),
    ensures
        c.step(step).covered(
            c.step(step).nodes[i].log,
            upto,
            c.step(step).nodes[i].current_term,
        ),
{
    reveal(Cluster::office_invariant);
    let d = c.step(step);
    let old = c.nodes[i];
    let new = d.nodes[i];
    step_changes_one_node(c, step);
    records_only_grow(c, step);
    how_a_log_changes(c, step);
    let p = choose|p: Seq<Entry>| #[trigger]
        c.sealed(p) && 0 <= upto < p.len() && p.last().term <= old.current_term && is_prefix(
            p.subrange(0, upto + 1),
            old.log,
        );
    let q = p.subrange(0, upto + 1);
    a_seal_lasts(c, d, p);
    if i == step.actor() && new.log != old.log {
        if step is Start {
            a_prefix_of_a_prefix(q, old.log, new.log);
        } else {
            let shipment = step->shipment;
            let g = Holding {
                node: shipment.request.leader_id as int,
                term: shipment.request.term,
                log: shipment.log,
            };
            assert(c.served.contains(g));
            assert(is_prefix(new.log, shipment.log));
            let whole = if p.last().term < g.term {
                a_seal_binds_later_leaders(c, p, g);
                g.log
            } else {
                let x = a_sealed_prefix_is_on_record(c, p);
                let h = a_kept_log_was_held_in_office(c, x, p);
                if is_prefix(g.log, h.log) {
                    a_prefix_of_a_prefix(new.log, g.log, h.log);
                    h.log
                } else {
                    a_prefix_of_a_prefix(p, h.log, g.log);
                    g.log
                }
            };
            assert(is_prefix(q, p)) by {
                assert(p.subrange(0, q.len() as int) =~= q);
            }
            a_prefix_of_a_prefix(q, p, whole);
            if new.log.len() >= q.len() {
                prefixes_are_comparable(q, new.log, whole);
            } else {
                prefixes_are_comparable(new.log, q, whole);
                a_prefix_of_a_prefix(new.log, q, old.log);
                assert(false);
            }
        }
    }
}

/// What a leader's commit rule returns is an index that its log covers.
pub proof fn a_ruled_index_is_covered(c: Cluster, node: int)
    requires
        c.sound(),
        c.commitment_invariant(),
        c.has(node),
        c.nodes[node].leader_commit() is Some,
    ensures
        c.covered(
            c.nodes[node].log,
            c.nodes[node].leader_commit().unwrap() as int,
            c.nodes[node].current_term,
        ),
{
    let leader = c.nodes[node];
    let index = leader.leader_commit().unwrap() as int;
    what_a_leader_may_commit_is_sealed(c, node);
    crate::laws::leader_commits_in_its_own_term(leader);
    let p = leader.log.subrange(0, index + 1);
    assert(p.subrange(0, index + 1) =~= p);
    assert(p.last() == leader.log[index]);
    a_log_is_its_own_prefix(leader.log);
    assert(is_prefix(p, leader.log)) by {
        assert(leader.log.subrange(0, p.len() as int) =~= p);
    }
    assert(c.sealed(p) && 0 <= index < p.len() && p.last().term <= leader.current_term
        && is_prefix(p.subrange(0, index + 1), leader.log));
}

/// The index that the outcome of a taken request asks the committer to
/// advance to is one that the node's log covers once the request is
/// taken, if the log that the request was cut from covers what the leader
/// said it had committed.
#[verifier::rlimit(50)]
pub proof fn a_taken_commit_is_covered(c: Cluster, node: int, shipment: Shipment)
    requires
        c.election_invariant(),
        c.log_invariant(),
        c.enabled(Step::AppendRequest { node, shipment }),
        c.nodes[node].append_effect(shipment.request).commit_to is Some,
        c.covered(shipment.log, shipment.request.leader_commit as int, shipment.request.term),
    ensures
        c.covered(
            c.nodes[node].append_entries(shipment.request).log,
            c.nodes[node].append_effect(shipment.request).commit_to.unwrap() as int,
            shipment.request.term,
        ),
{
    reveal(Cluster::log_invariant);
    let args = shipment.request;
    let old = c.nodes[node];
    let new = old.append_entries(args);
    let index = old.append_effect(args).commit_to.unwrap() as int;
    let last = args.prev_log_index + args.entries.len();
    let lc = args.leader_commit as int;
    assert(old.takes_entries(args));
    assert(shipment.well_cut());
    assert(index <= lc && index <= last);
    a_taken_request_leaves_a_prefix(c, node, shipment);
    let p = choose|p: Seq<Entry>| #[trigger]
        c.sealed(p) && 0 <= lc < p.len() && p.last().term <= args.term && is_prefix(
            p.subrange(0, lc + 1),
            shipment.log,
        );
    let q = p.subrange(0, index + 1);
    assert forall|k: int| 0 <= k < q.len() implies new.log[k] == q[k] by {
        assert(q[k] == p.subrange(0, lc + 1)[k]);
        assert(p.subrange(0, lc + 1)[k] == shipment.log.subrange(0, lc + 1)[k]);
        if args.entries.len() == 0 {
            assert(old.log[k] == old.log.subrange(0, args.prev_log_index + 1)[k]);
            assert(shipment.log[k] == shipment.log.subrange(0, args.prev_log_index + 1)[k]);
        }
    }
    assert(new.log.subrange(0, q.len() as int) =~= q);
    assert(c.sealed(p) && 0 <= index < p.len() && p.last().term <= args.term && is_prefix(
        p.subrange(0, index + 1),
        new.log,
    ));
}

/// The order that a step gives is for an index that the node's log covers
/// once the step is taken.
pub proof fn a_given_order_is_covered(c: Cluster, step: Step, o: Order)
    requires
        c.sound(),
        c.applying_invariant(),
        c.enabled(step),
        c.step(step).sound(),
        c.step(step).commitment_invariant(),
        c.gives(step, o),
    ensures
        c.step(step).covered(
            c.step(step).nodes[o.node].log,
            o.index as int,
            c.step(step).nodes[o.node].current_term,
        ),
{
    reveal(Cluster::applying_invariant);
    let d = c.step(step);
    let node = step.actor();
    step_changes_one_node(c, step);
    records_only_grow(c, step);
    if d.nodes[node].leader_commit() == Some(o.index) {
        a_ruled_index_is_covered(d, node);
    } else {
        let shipment = step->shipment;
        assert(step == Step::AppendRequest { node, shipment });
        assert(shipment.request.leader_commit >= 1);
        a_taken_commit_is_covered(c, node, shipment);
        coverage_lasts(c, d, d.nodes[node].log, o.index as int, shipment.request.term);
    }
}

/// The applying invariant is inductive over orderly steps.
#[verifier::rlimit(50)]
pub proof fn step_keeps_applying_invariant(c: Cluster, step: Step)
    requires
        c.sound(),
        c.ballot_invariant(),
        c.commitment_invariant(),
        c.applying_invariant(),
        c.enabled(step),
        c.orderly(step),
        c.step(step).sound(),
        c.step(step).commitment_invariant(),
    ensures
        c.step(step).applying_invariant(),
{
    reveal(Cluster::applying_invariant);
    let d = c.step(step);
    let node = step.actor();
    step_changes_one_node(c, step);
    records_only_grow(c, step);
    assert forall|o: Order| #[trigger] d.orders.contains(o) implies d.has(o.node) && d.covered(
        d.nodes[o.node].log,
        o.index as int,
        d.nodes[o.node].current_term,
    ) by {
        if c.orders.contains(o) {
            coverage_survives_a_step(c, step, o.node, o.index as int);
        } else {
            a_given_order_is_covered(c, step, o);
        }
    }
    assert forall|i: int| d.has(i) && (#[trigger] d.nodes[i]).commit_index >= 1 implies d.covered(
        d.nodes[i].log,
        d.nodes[i].commit_index as int,
        d.nodes[i].current_term,
    ) by {
        if d.nodes[i].commit_index == c.nodes[i].commit_index {
            coverage_survives_a_step(c, step, i, c.nodes[i].commit_index as int);
        } else {
            let index = step->index;
            assert(step == Step::Commit { node: i, index });
            let o = Order { node: i, index };
            assert(c.orders.contains(o));
            coverage_survives_a_step(c, step, i, index as int);
            a_covered_index_is_in_the_log(d, d.nodes[i].log, index as int, d.nodes[i].current_term);
        }
    }
    assert forall|sent: Shipment| #[trigger]
        d.shipments.contains(sent) && sent.request.leader_commit >= 1 implies d.covered(
        sent.log,
        sent.request.leader_commit as int,
        sent.request.term,
    ) by {
        if c.shipments.contains(sent) {
            coverage_lasts(c, d, sent.log, sent.request.leader_commit as int, sent.request.term);
        } else {
            a_heartbeat_cuts_well(c, node, sent);
            assert(sent.request.leader_commit == c.nodes[node].commit_index);
            assert(sent.request.term == c.nodes[node].current_term);
            coverage_lasts(
                c,
                d,
                c.nodes[node].log,
                c.nodes[node].commit_index as int,
                c.nodes[node].current_term,
            );
        }
    }
}

/// A log holds an entry at every index that it covers.
pub proof fn a_covered_index_is_in_the_log(c: Cluster, log: Seq<Entry>, upto: int, term: u64)
    requires
        c.covered(log, upto, term),
    ensures
        0 <= upto < log.len(),
{
}

/// Orderly steps are faithful steps, and the first steps of an orderly run
/// are an orderly run.
pub proof fn orderly_steps_are_faithful(c: Cluster, steps: Seq<Step>, k: int)
    requires
        c.orderly_all(steps),
        0 <= k <= steps.len(),
    ensures
        c.faithful_all(steps),
        c.orderly_all(steps.take(k)),
    decreases steps.len(),
{
    if steps.len() > 0 {
        if k == steps.len() {
            assert(steps.take(k) =~= steps);
            orderly_steps_are_faithful(c, steps.drop_last(), k - 1);
        } else {
            assert(steps.drop_last().take(k) =~= steps.take(k));
            orderly_steps_are_faithful(c, steps.drop_last(), k);
        }
    } else {
        assert(steps.take(k) =~= steps);
    }
}

/// Every cluster that orderly steps lead to from boot meets the applying
/// invariant.
pub proof fn an_orderly_run_applies_what_is_sealed(size: nat, steps: Seq<Step>)
    requires
        1 <= size <= MAX_PEERS,
        Cluster::init(size).orderly_all(steps),
    ensures
        Cluster::init(size).run(steps).applying_invariant(),
    decreases steps.len(),
{
    reveal(Cluster::applying_invariant);
    if steps.len() > 0 {
        let before = Cluster::init(size).run(steps.drop_last());
        an_orderly_run_applies_what_is_sealed(size, steps.drop_last());
        orderly_steps_are_faithful(Cluster::init(size), steps, steps.len() - 1);
        assert(steps.take(steps.len() - 1) =~= steps.drop_last());
        a_faithful_run_is_sound(size, steps.drop_last());
        a_faithful_run_is_sound(size, steps);
        step_keeps_applying_invariant(before, steps.last());
    }
}

/// What a node hands to its host at a step of an orderly run is an entry
/// of a prefix that is sealed at the end of the run.
#[verifier::rlimit(50)]
pub proof fn what_is_applied_is_sealed(size: nat, steps: Seq<Step>, i: int, m: int) -> (p: Seq<
    Entry,
>)
    requires
        1 <= size <= MAX_PEERS,
        Cluster::init(size).orderly_all(steps),
        0 <= i < steps.len(),
        0 <= m < Cluster::init(size).run(steps.take(i)).emits(steps[i]).len(),
    ensures
        ({
            let msg = Cluster::init(size).run(steps.take(i)).emits(steps[i])[m];
            &&& Cluster::init(size).run(steps).sealed(p)
            &&& msg.valid
            &&& msg.index < p.len()
            &&& msg.term == p[msg.index as int].term
            &&& msg.command == p[msg.index as int].command
        }),
{
    reveal(Cluster::applying_invariant);
    let boot = Cluster::init(size);
    let before = boot.run(steps.take(i));
    let after = boot.run(steps.take(i + 1));
    let node = steps[i].actor();
    orderly_steps_are_faithful(boot, steps, i + 1);
    faithful_steps_can_be_taken(boot, steps, i);
    faithful_steps_can_be_taken(boot, steps, i + 1);
    earlier_records_stay(boot, steps, i);
    earlier_records_stay(boot, steps, i + 1);
    a_run_keeps_its_size(size, steps);
    a_run_keeps_its_size(size, steps.take(i + 1));
    assert(steps.take(i + 1).drop_last() =~= steps.take(i));
    assert(after == before.step(steps[i]));
    crate::cluster::matching::what_is_applied_is_in_the_log(size, steps, i, m);
    an_orderly_run_applies_what_is_sealed(size, steps.take(i + 1));
    let msg = before.emits(steps[i])[m];
    let upto = after.nodes[node].commit_index as int;
    assert(msg.index <= upto);
    assert(after.covered(after.nodes[node].log, upto, after.nodes[node].current_term));
    let p = choose|p: Seq<Entry>| #[trigger]
        after.sealed(p) && 0 <= upto < p.len() && p.last().term <= after.nodes[node].current_term
            && is_prefix(p.subrange(0, upto + 1), after.nodes[node].log);
    a_seal_lasts(after, boot.run(steps), p);
    assert(p[msg.index as int] == p.subrange(0, upto + 1)[msg.index as int]);
    assert(after.nodes[node].log[msg.index as int] == after.nodes[node].log.subrange(
        0,
        upto + 1,
    )[msg.index as int]);
    p
}

/// State machine safety, for orderly runs. Take any orderly run of a
/// cluster from boot and two steps of it: a message that a node hands to
/// its host at the one and a message that a node hands to its host at the
/// other, with the same index, are the same message.
pub proof fn state_machine_safety(
    size: nat,
    steps: Seq<Step>,
    i: int,
    j: int,
    m: int,
    n: int,
)
    requires
        1 <= size <= MAX_PEERS,
        Cluster::init(size).orderly_all(steps),
        0 <= i < steps.len(),
        0 <= j < steps.len(),
        0 <= m < Cluster::init(size).run(steps.take(i)).emits(steps[i]).len(),
        0 <= n < Cluster::init(size).run(steps.take(j)).emits(steps[j]).len(),
        Cluster::init(size).run(steps.take(i)).emits(steps[i])[m].index == Cluster::init(
            size,
        ).run(steps.take(j)).emits(steps[j])[n].index,
    ensures
        Cluster::init(size).run(steps.take(i)).emits(steps[i])[m] == Cluster::init(size).run(
            steps.take(j),
        ).emits(steps[j])[n],
{
    let index = Cluster::init(size).run(steps.take(i)).emits(steps[i])[m].index as int;
    let p = what_is_applied_is_sealed(size, steps, i, m);
    let q = what_is_applied_is_sealed(size, steps, j, n);
    orderly_steps_are_faithful(Cluster::init(size), steps, 0);
    a_faithful_run_is_sound(size, steps);
    seals_agree(Cluster::init(size).run(steps), p, q, index);
}

/// What a node has committed at some moment of an orderly run is part of
/// a prefix that is sealed at the end of the run, by a leader of a term no
/// later than the node's.
pub proof fn what_is_committed_is_sealed(size: nat, steps: Seq<Step>, i: int, x: int) -> (p: Seq<
    Entry,
>)
    requires
        1 <= size <= MAX_PEERS,
        Cluster::init(size).orderly_all(steps),
        0 <= i <= steps.len(),
        Cluster::init(size).run(steps.take(i)).has(x),
        Cluster::init(size).run(steps.take(i)).nodes[x].commit_index >= 1,
    ensures
        ({
            let then = Cluster::init(size).run(steps.take(i)).nodes[x];
            &&& Cluster::init(size).run(steps).sealed(p)
            &&& p.last().term <= then.current_term
            &&& then.commit_index < p.len()
            &&& is_prefix(p.subrange(0, then.commit_index + 1), then.log)
        }),
{
    reveal(Cluster::applying_invariant);
    let boot = Cluster::init(size);
    let before = boot.run(steps.take(i));
    let then = before.nodes[x];
    orderly_steps_are_faithful(boot, steps, i);
    faithful_steps_can_be_taken(boot, steps, i);
    earlier_records_stay(boot, steps, i);
    a_run_keeps_its_size(size, steps);
    a_run_keeps_its_size(size, steps.take(i));
    an_orderly_run_applies_what_is_sealed(size, steps.take(i));
    assert(before.covered(then.log, then.commit_index as int, then.current_term));
    let p = choose|p: Seq<Entry>| #[trigger]
        before.sealed(p) && 0 <= then.commit_index < p.len() && p.last().term
            <= then.current_term && is_prefix(p.subrange(0, then.commit_index + 1), then.log);
    a_seal_lasts(before, boot.run(steps), p);
    p
}

/// Leader completeness for what is committed, for orderly runs. Take any
/// orderly run of a cluster from boot and two moments of it. What a node
/// has committed at the one, a node that is leader of a later term at the
/// other holds in its log, entry for entry.
pub proof fn committed_entries_reach_later_leaders(
    size: nat,
    steps: Seq<Step>,
    i: int,
    j: int,
    x: int,
    y: int,
    index: int,
)
    requires
        1 <= size <= MAX_PEERS,
        Cluster::init(size).orderly_all(steps),
        0 <= i <= steps.len(),
        0 <= j <= steps.len(),
        Cluster::init(size).run(steps.take(i)).has(x),
        0 <= index <= Cluster::init(size).run(steps.take(i)).nodes[x].commit_index,
        Cluster::init(size).run(steps.take(j)).has(y),
        Cluster::init(size).run(steps.take(j)).nodes[y].role is Leader,
        Cluster::init(size).run(steps.take(j)).nodes[y].current_term > Cluster::init(size).run(
            steps.take(i),
        ).nodes[x].current_term,
    ensures
        index < Cluster::init(size).run(steps.take(i)).nodes[x].log.len(),
        index < Cluster::init(size).run(steps.take(j)).nodes[y].log.len(),
        Cluster::init(size).run(steps.take(j)).nodes[y].log[index] == Cluster::init(size).run(
            steps.take(i),
        ).nodes[x].log[index],
{
    let then = Cluster::init(size).run(steps.take(i)).nodes[x];
    let h = Cluster::init(size).run(steps.take(j)).holding(y);
    orderly_steps_are_faithful(Cluster::init(size), steps, 0);
    faithful_steps_can_be_taken(Cluster::init(size), steps, 0);
    a_faithful_run_is_sound(size, steps);
    a_leader_is_on_record_at_the_end(size, steps, j, y);
    if then.commit_index >= 1 {
        let p = what_is_committed_is_sealed(size, steps, i, x);
        a_seal_binds_later_leaders(Cluster::init(size).run(steps), p, h);
        let q = p.subrange(0, then.commit_index + 1);
        assert(q[index] == then.log.subrange(0, q.len() as int)[index]);
        assert(p[index] == h.log.subrange(0, p.len() as int)[index]);
    } else {
        a_log_at_a_moment_starts_with_the_sentinel(size, steps, i, x);
        a_log_at_a_moment_starts_with_the_sentinel(size, steps, j, y);
    }
}

/// The log of a node at any moment of a run starts with the sentinel.
pub proof fn a_log_at_a_moment_starts_with_the_sentinel(
    size: nat,
    steps: Seq<Step>,
    i: int,
    x: int,
)
    requires
        1 <= size <= MAX_PEERS,
        Cluster::init(size).enabled_all(steps),
        0 <= i <= steps.len(),
        Cluster::init(size).run(steps.take(i)).has(x),
    ensures
        Cluster::init(size).run(steps.take(i)).nodes[x].log.len() >= 1,
        Cluster::init(size).run(steps.take(i)).nodes[x].log[0] == crate::types::sentinel(),
{
    earlier_records_stay(Cluster::init(size), steps, i);
    crate::cluster::election::run_keeps_election_invariant(size, steps.take(i));
}

} // verus!
