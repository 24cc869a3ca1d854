//! Ranking match indices: what the value in the middle of a ranking says
//! about the values that were ranked.

use crate::model::{ascending, NodeState};
use vstd::prelude::*;
use vstd::relations::{sorted_by, total_ordering};
use vstd::seq_lib::{to_multiset_contains, to_multiset_len, to_multiset_remove};

verus! {

/// The order by which match indices are ranked is a total order.
pub proof fn ascending_is_total()
    ensures
        total_ordering(ascending()),
{
}

/// Every value of a ranking occurs in what was ranked.
pub proof fn ranked_values_occur(values: Seq<usize>, k: int)
    requires
        0 <= k < values.len(),
    ensures
        values.sort_by(ascending()).len() == values.len(),
        values.contains(values.sort_by(ascending())[k]),
{
    ascending_is_total();
    values.lemma_sort_by_ensures(ascending());
    let sorted = values.sort_by(ascending());
    to_multiset_len(values);
    to_multiset_len(sorted);
    assert(sorted.contains(sorted[k]));
}

/// How many of `values` are at least `bound`.
pub open spec fn weight(values: Seq<usize>, bound: usize) -> nat
    decreases values.len(),
{
    if values.len() == 0 {
        0
    } else if values.last() >= bound {
        weight(values.drop_last(), bound) + 1
    } else {
        weight(values.drop_last(), bound)
    }
}

/// The positions at which `values` holds at least `bound`.
pub open spec fn at_least(values: Seq<usize>, bound: usize) -> Set<int> {
    Set::new(|p: int| 0 <= p < values.len() && values[p] >= bound)
}

/// Taking one value out lowers the weight by one if the value reached the
/// bound, and leaves it otherwise.
pub proof fn weight_without(values: Seq<usize>, i: int, bound: usize)
    requires
        0 <= i < values.len(),
    ensures
        weight(values, bound) == weight(values.remove(i), bound) + (if values[i] >= bound {
            1nat
        } else {
            0nat
        }),
    decreases values.len(),
{
    if i == values.len() - 1 {
        assert(values.remove(i) =~= values.drop_last());
    } else {
        weight_without(values.drop_last(), i, bound);
        assert(values.drop_last().remove(i) =~= values.remove(i).drop_last());
        assert(values.remove(i).last() == values.last());
    }
}

/// The weight does not depend on the order of the values.
pub proof fn weight_ignores_order(a: Seq<usize>, b: Seq<usize>, bound: usize)
    requires
        a.to_multiset() == b.to_multiset(),
    ensures
        weight(a, bound) == weight(b, bound),
    decreases a.len(),
{
    to_multiset_len(a);
    to_multiset_len(b);
    if a.len() > 0 {
        let x = a.last();
        to_multiset_contains(a, x);
        to_multiset_contains(b, x);
        assert(a.contains(x));
        let i = choose|i: int| 0 <= i < b.len() && b[i] == x;
        to_multiset_remove(a, a.len() - 1);
        to_multiset_remove(b, i);
        assert(a.remove(a.len() - 1) =~= a.drop_last());
        weight_ignores_order(a.drop_last(), b.remove(i), bound);
        weight_without(b, i, bound);
    }
}

/// In a ranking, everything from rank `k` on is at least the value at rank
/// `k`.
pub proof fn weight_behind_a_rank(sorted: Seq<usize>, k: int)
    requires
        sorted_by(sorted, ascending()),
        0 <= k < sorted.len(),
    ensures
        weight(sorted, sorted[k]) >= sorted.len() - k,
    decreases sorted.len(),
{
    assert((ascending())(sorted[k], sorted.last()));
    if k < sorted.len() - 1 {
        assert forall|a: int, b: int| 0 <= a < b < sorted.drop_last().len() implies (ascending())(
            sorted.drop_last()[a],
            sorted.drop_last()[b],
        ) by {
            assert((ascending())(sorted[a], sorted[b]));
        }
        weight_behind_a_rank(sorted.drop_last(), k);
    }
}

/// The weight counts the positions that hold at least the bound.
pub proof fn weight_counts_positions(values: Seq<usize>, bound: usize)
    ensures
        at_least(values, bound).finite(),
        at_least(values, bound).len() == weight(values, bound),
    decreases values.len(),
{
    if values.len() == 0 {
        assert(at_least(values, bound) =~= Set::empty());
    } else {
        let rest = values.drop_last();
        weight_counts_positions(rest, bound);
        if values.last() >= bound {
            assert(at_least(values, bound) =~= at_least(rest, bound).insert(values.len() - 1));
        } else {
            assert(at_least(values, bound) =~= at_least(rest, bound));
        }
    }
}

/// The value at rank `k` of a ranking has all but `k` of the ranked values
/// at or above it.
pub proof fn all_but_the_lower_ranks_reach_a_rank(values: Seq<usize>, k: int)
    requires
        0 <= k < values.len(),
    ensures
        at_least(values, values.sort_by(ascending())[k]).finite(),
        at_least(values, values.sort_by(ascending())[k]).len() >= values.len() - k,
{
    let sorted = values.sort_by(ascending());
    ascending_is_total();
    values.lemma_sort_by_ensures(ascending());
    to_multiset_len(values);
    to_multiset_len(sorted);
    weight_behind_a_rank(sorted, k);
    weight_ignores_order(values, sorted, sorted[k]);
    weight_counts_positions(values, sorted[k]);
}

impl NodeState {
    /// The peers whose match index is at least `index`.
    pub open spec fn backers(self, index: usize) -> Set<int> {
        at_least(self.match_index, index)
    }
}

/// What a leader may commit is backed by a quorum: the peers whose match
/// index reaches the majority match, together with any group of more than
/// half of the peers, are more than all peers, so the two share a peer.
pub proof fn majority_match_is_backed(s: NodeState)
    requires
        s.wf(),
    ensures
        s.match_index.contains(s.majority_match()),
        s.backers(s.majority_match()).finite(),
        s.backers(s.majority_match()).len() + (s.peers() / 2 + 1) > s.peers(),
{
    ranked_values_occur(s.match_index, (s.peers() / 2) as int);
    all_but_the_lower_ranks_reach_a_rank(s.match_index, (s.peers() / 2) as int);
}

} // verus!
