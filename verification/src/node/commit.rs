//! Commitment: how far a leader may commit, and handing entries to the host.

use crate::laws::commit_keeps_well_formed;
use crate::model::ascending;
use crate::node::Raft;
use crate::ranking::{ascending_is_total, ranked_values_occur};
use crate::types::{applied_of, copy_bytes, ApplyMsg, State};
use vstd::prelude::*;
use vstd::relations::sorted_by;
use vstd::seq_lib::{lemma_sorted_unique, to_multiset_build, to_multiset_insert};

verus! {

/// The values of `values`, from the lowest to the highest.
pub fn ranked(values: &Vec<usize>) -> (sorted: Vec<usize>)
    ensures
        sorted@ == values@.sort_by(ascending()),
{
    let mut sorted: Vec<usize> = Vec::new();
    let mut i: usize = 0;
    assert(values@.subrange(0, 0) =~= sorted@);
    while i < values.len()
        invariant
            i <= values.len(),
            sorted_by(sorted@, ascending()),
            sorted@.to_multiset() == values@.subrange(0, i as int).to_multiset(),
        decreases values.len() - i,
    {
        let value: usize = values[i];
        let mut at: usize = 0;
        while at < sorted.len() && sorted[at] <= value
            invariant
                at <= sorted.len(),
                forall|k: int| 0 <= k < at ==> sorted@[k] <= value,
            decreases sorted.len() - at,
        {
            at = at + 1;
        }
        let ghost before = sorted@;
        sorted.insert(at, value);
        proof {
            to_multiset_insert(before, at as int, value);
            to_multiset_build(values@.subrange(0, i as int), value);
            assert(values@.subrange(0, i + 1) =~= values@.subrange(0, i as int).push(value));
            assert forall|a: int, b: int| 0 <= a < b < sorted@.len() implies (ascending())(
                sorted@[a],
                sorted@[b],
            ) by {
                if b < at {
                    assert((ascending())(before[a], before[b]));
                } else if b == at {
                } else if a < at {
                    assert((ascending())(before[a], before[b - 1]));
                } else if a == at {
                    assert((ascending())(before[at as int], before[b - 1]));
                } else {
                    assert((ascending())(before[a - 1], before[b - 1]));
                }
            }
        }
        i = i + 1;
    }
    proof {
        assert(values@.subrange(0, values@.len() as int) =~= values@);
        ascending_is_total();
        values@.lemma_sort_by_ensures(ascending());
        lemma_sorted_unique(sorted@, values@.sort_by(ascending()), ascending());
    }
    sorted
}

impl Raft {
    /// The index up to which the leader's committer is to advance, if any:
    /// the match index in the middle of the ranking of all peers' match
    /// indices, provided it lies beyond the commit index and its entry is of
    /// the leader's own term. A node that is not the leader returns `None`.
    pub fn leader_commit(&self) -> (target: Option<usize>)
        requires
            self@.wf(),
        ensures
            target == self@.leader_commit(),
    {
        match self.state {
            State::Leader => {},
            _ => {
                return None;
            },
        }
        let sorted = ranked(&self.match_index);
        let middle: usize = self.match_index.len() / 2;
        proof {
            ranked_values_occur(self@.match_index, middle as int);
        }
        let majority: usize = sorted[middle];
        if self.log[majority].term == self.current_term && self.commit_index < majority {
            Some(majority)
        } else {
            None
        }
    }

    /// Advances the commit index to `index`, but not beyond the end of the
    /// log and never backwards. Returns one message for each newly committed
    /// slot, in the order of the log; the host hands them to the state
    /// machine in that order.
    pub fn commit_to_index(&mut self, index: usize) -> (msgs: Vec<ApplyMsg>)
        requires
            old(self)@.wf(),
        ensures
            final(self)@ == old(self)@.commit_to_index(index),
            final(self)@.wf(),
            applied_of(msgs@) == old(self)@.applied(index),
    {
        proof {
            commit_keeps_well_formed(old(self)@, index);
        }
        let mut msgs: Vec<ApplyMsg> = Vec::new();
        let last: usize = self.log.len() - 1;
        let first: usize = self.commit_index;
        let mut i: usize = first;
        while i < index && i < last
            invariant
                first <= i,
                i == first || (i <= index && i <= last),
                last == self.log.len() - 1,
                msgs@.len() == i - first,
                self@ == (crate::model::NodeState { commit_index: i, ..old(self)@ }),
                forall|k: int|
                    0 <= k < msgs@.len() ==> (#[trigger] msgs@[k])@ == old(self)@.apply_msg(
                        first + 1 + k,
                    ),
            decreases last - i,
        {
            i = i + 1;
            self.commit_index = i;
            msgs.push(
                ApplyMsg {
                    valid: true,
                    index: i,
                    term: self.log[i].term,
                    command: copy_bytes(&self.log[i].command),
                },
            );
        }
        proof {
            assert(applied_of(msgs@) =~= old(self)@.applied(index));
        }
        msgs
    }
}

} // verus!
