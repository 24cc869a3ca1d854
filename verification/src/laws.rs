//! What holds of a single node, whatever events reach it.

use crate::model::{run_start, Event, NodeState, MAX_PEERS, NO_VOTE};
use crate::types::{AppendArgs, AppendEntriesReply, RequestVoteArgs, RequestVoteReply};
use vstd::prelude::*;

verus! {

/// A node boots well formed.
pub proof fn init_is_well_formed(me: i32, peers: nat)
    requires
        0 <= me < peers <= MAX_PEERS,
    ensures
        NodeState::init(me, peers).wf(),
{
}

/// A command keeps the node well formed, as long as the log can hold it.
pub proof fn start_keeps_well_formed(s: NodeState, command: Seq<u8>)
    requires
        s.wf(),
        s.start(command).log.len() <= usize::MAX,
    ensures
        s.start(command).wf(),
{
}

/// A request for a vote keeps the node well formed.
pub proof fn request_vote_keeps_well_formed(s: NodeState, args: RequestVoteArgs)
    requires
        s.wf(),
    ensures
        s.request_vote(args).wf(),
{
}

/// A request to append keeps the node well formed, as long as the log can
/// hold the entries.
pub proof fn append_entries_keeps_well_formed(s: NodeState, args: AppendArgs)
    requires
        s.wf(),
        s.append_entries(args).log.len() <= usize::MAX,
    ensures
        s.append_entries(args).wf(),
{
}

/// A campaign keeps the node well formed.
pub proof fn campaign_keeps_well_formed(s: NodeState)
    requires
        s.wf(),
        s.current_term < u64::MAX,
    ensures
        s.campaign().wf(),
{
}

/// An answer to a request for a vote keeps the node well formed.
pub proof fn vote_reply_keeps_well_formed(s: NodeState, reply: RequestVoteReply)
    requires
        s.wf(),
    ensures
        s.vote_reply(reply).wf(),
{
}

/// An answer to a request to append keeps the node well formed.
pub proof fn append_reply_keeps_well_formed(
    s: NodeState,
    peer: usize,
    prev_index: usize,
    num_entries: usize,
    reply: AppendEntriesReply,
)
    requires
        s.wf(),
    ensures
        s.append_reply(peer, prev_index, num_entries, reply).wf(),
{
}

/// The committer keeps the node well formed.
pub proof fn commit_keeps_well_formed(s: NodeState, index: usize)
    requires
        s.wf(),
    ensures
        s.commit_to_index(index).wf(),
{
}

/// Every event that the node can take keeps it well formed, and leaves it
/// the same peer of the same cluster.
pub proof fn next_keeps_well_formed(s: NodeState, event: Event)
    requires
        s.wf(),
        s.accepts(event),
    ensures
        s.next(event).wf(),
        s.next(event).me == s.me,
        s.next(event).peers() == s.peers(),
{
}

/// Term monotonicity: no event lowers the node's term.
pub proof fn term_never_decreases(s: NodeState, event: Event)
    requires
        s.wf(),
        s.accepts(event),
    ensures
        s.next(event).current_term >= s.current_term,
{
}

/// The term changes only when the node sees a higher term or campaigns, and
/// a higher term that the node sees makes it a follower that has not voted
/// for anyone but, at most, the candidate whose request brought the term.
pub proof fn higher_term_makes_a_follower(s: NodeState, event: Event)
    requires
        s.wf(),
        s.accepts(event),
        s.next(event).current_term > s.current_term,
        !(event is Campaign),
    ensures
        s.next(event).role is Follower,
        event is RequestVote || s.next(event).voted_for == NO_VOTE,
{
}

/// How the match index that a leader keeps for a peer comes about: the
/// node was leader before and the event left the index alone; or the peer
/// is the leader itself and the index is the last of its log; or the index
/// is 0; or the event is the peer's report of success for a request that
/// reached up to the index.
pub proof fn how_a_match_index_comes_about(s: NodeState, event: Event, v: int)
    requires
        s.wf(),
        s.accepts(event),
        s.next(event).role is Leader,
        0 <= v < s.peers(),
    ensures
        ({
            let next = s.next(event);
            ||| s.role is Leader && next.match_index[v] == s.match_index[v]
            ||| v == s.me && next.match_index[v] == next.log.len() - 1
            ||| next.match_index[v] == 0
            ||| {
                &&& event matches Event::AppendReply { peer, prev_index, num_entries, reply }
                &&& reply.success
                &&& s.role is Leader
                &&& v == peer
                &&& next.match_index[v] == prev_index + num_entries
                &&& next.log == s.log
            }
        }),
        s.role is Leader ==> s.next(event).current_term == s.current_term,
{
}

/// Commit monotonicity: no event lowers the node's commit index.
pub proof fn commit_index_never_decreases(s: NodeState, event: Event)
    requires
        s.wf(),
        s.accepts(event),
    ensures
        s.next(event).commit_index >= s.commit_index,
{
}

/// At most one vote per term: once the node has voted in a term, no event
/// that leaves it in that term changes the vote or takes it back.
pub proof fn vote_is_cast_once_per_term(s: NodeState, event: Event)
    requires
        s.wf(),
        s.accepts(event),
        s.voted_for != NO_VOTE,
        s.next(event).current_term == s.current_term,
    ensures
        s.next(event).voted_for == s.voted_for,
{
}

/// Whether `shorter` is a prefix of `longer`.
pub open spec fn is_prefix<A>(shorter: Seq<A>, longer: Seq<A>) -> bool {
    shorter.len() <= longer.len() && longer.subrange(0, shorter.len() as int) == shorter
}

/// A log is a prefix of itself.
pub proof fn a_log_is_its_own_prefix<A>(a: Seq<A>)
    ensures
        is_prefix(a, a),
{
    assert(a.subrange(0, a.len() as int) =~= a);
}

/// A prefix of a prefix is a prefix.
pub proof fn a_prefix_of_a_prefix<A>(a: Seq<A>, b: Seq<A>, c: Seq<A>)
    requires
        is_prefix(a, b),
        is_prefix(b, c),
    ensures
        is_prefix(a, c),
{
    assert(c.subrange(0, a.len() as int) =~= b.subrange(0, a.len() as int)) by {
        assert forall|k: int| 0 <= k < a.len() implies c[k] == b[k] by {
            assert(b[k] == c.subrange(0, b.len() as int)[k]);
        }
    }
}

/// Of two prefixes of one sequence, the shorter is a prefix of the longer.
pub proof fn prefixes_are_comparable<A>(a: Seq<A>, b: Seq<A>, whole: Seq<A>)
    requires
        is_prefix(a, whole),
        is_prefix(b, whole),
        a.len() <= b.len(),
    ensures
        is_prefix(a, b),
{
    assert(b.subrange(0, a.len() as int) =~= a) by {
        assert forall|k: int| 0 <= k < a.len() implies b[k] == a[k] by {
            assert(b[k] == whole.subrange(0, b.len() as int)[k]);
            assert(a[k] == whole.subrange(0, a.len() as int)[k]);
        }
    }
}

/// Leader append-only: an event that finds the node a leader and leaves it
/// one keeps every entry of its log in place; the log grows only at its end.
/// The one event that can cut a leader's log makes it a follower.
pub proof fn leader_only_appends(s: NodeState, event: Event)
    requires
        s.wf(),
        s.accepts(event),
        s.role is Leader,
    ensures
        s.next(event).role is Leader ==> is_prefix(s.log, s.next(event).log),
        !(event is AppendEntries) ==> is_prefix(s.log, s.next(event).log),
{
    assert(s.log.subrange(0, s.log.len() as int) =~= s.log);
    match event {
        Event::Start { command } => {
            assert(s.start(command).log.subrange(0, s.log.len() as int) =~= s.log);
        },
        _ => {},
    }
}

/// No event changes the sentinel, and no event but a request to append
/// removes or replaces an entry.
pub proof fn only_append_entries_cuts_the_log(s: NodeState, event: Event)
    requires
        s.wf(),
        s.accepts(event),
        !(event is AppendEntries),
    ensures
        is_prefix(s.log, s.next(event).log),
{
    assert(s.log.subrange(0, s.log.len() as int) =~= s.log);
    match event {
        Event::Start { command } => {
            assert(s.start(command).log.subrange(0, s.log.len() as int) =~= s.log);
        },
        _ => {},
    }
}

/// Apply ordering, one step: the messages of an event carry the indices
/// that follow the commit index, in order and without a gap, each with the
/// entry that the log holds at that index; and the commit index ends at the
/// last of them.
pub proof fn applies_follow_the_commit_index(s: NodeState, event: Event)
    requires
        s.wf(),
        s.accepts(event),
    ensures
        s.next(event).commit_index == s.commit_index + s.emits(event).len(),
        forall|k: int|
            0 <= k < s.emits(event).len() ==> {
                &&& (#[trigger] s.emits(event)[k]).valid
                &&& s.emits(event)[k].index == s.commit_index + 1 + k
                &&& s.emits(event)[k].index < s.log.len()
                &&& s.emits(event)[k].term == s.log[s.commit_index + 1 + k].term
                &&& s.emits(event)[k].command == s.log[s.commit_index + 1 + k].command
            },
{
}

/// Every sequence of events that the node can take keeps it well formed.
pub proof fn run_keeps_well_formed(s: NodeState, events: Seq<Event>)
    requires
        s.wf(),
        s.accepts_all(events),
    ensures
        s.run(events).wf(),
        s.run(events).me == s.me,
        s.run(events).peers() == s.peers(),
    decreases events.len(),
{
    if events.len() > 0 {
        run_keeps_well_formed(s, events.drop_last());
        next_keeps_well_formed(s.run(events.drop_last()), events.last());
    }
}

/// Term and commit monotonicity over time: after any sequence of events the
/// term and the commit index are at least what they were.
pub proof fn term_and_commit_index_only_grow(s: NodeState, events: Seq<Event>)
    requires
        s.wf(),
        s.accepts_all(events),
    ensures
        s.run(events).current_term >= s.current_term,
        s.run(events).commit_index >= s.commit_index,
    decreases events.len(),
{
    if events.len() > 0 {
        let before = s.run(events.drop_last());
        run_keeps_well_formed(s, events.drop_last());
        term_and_commit_index_only_grow(s, events.drop_last());
        term_never_decreases(before, events.last());
        commit_index_never_decreases(before, events.last());
    }
}

/// Apply ordering over time: the `k`-th message that a node emits after it
/// stood at commit index `c` carries the index `c + 1 + k`, and the commit
/// index has advanced by the number of messages emitted.
pub proof fn applies_are_consecutive(s: NodeState, events: Seq<Event>)
    requires
        s.wf(),
        s.accepts_all(events),
    ensures
        s.run(events).commit_index == s.commit_index + s.emitted(events).len(),
        forall|k: int|
            0 <= k < s.emitted(events).len() ==> {
                &&& (#[trigger] s.emitted(events)[k]).valid
                &&& s.emitted(events)[k].index == s.commit_index + 1 + k
            },
    decreases events.len(),
{
    if events.len() > 0 {
        let before = s.run(events.drop_last());
        run_keeps_well_formed(s, events.drop_last());
        applies_are_consecutive(s, events.drop_last());
        applies_follow_the_commit_index(before, events.last());
        let earlier = s.emitted(events.drop_last());
        let now = before.emits(events.last());
        assert forall|k: int| 0 <= k < s.emitted(events).len() implies {
            &&& (#[trigger] s.emitted(events)[k]).valid
            &&& s.emitted(events)[k].index == s.commit_index + 1 + k
        } by {
            if k >= earlier.len() {
                assert(s.emitted(events)[k] == now[k - earlier.len()]);
            }
        }
    }
}

/// Apply ordering from boot: a node emits its messages with the indices
/// 1, 2, 3, ... in this order; the sentinel at index 0 is never among them.
pub proof fn applies_start_at_one(me: i32, peers: nat, events: Seq<Event>)
    requires
        0 <= me < peers <= MAX_PEERS,
        NodeState::init(me, peers).accepts_all(events),
    ensures
        forall|k: int|
            0 <= k < NodeState::init(me, peers).emitted(events).len() ==> {
                &&& (#[trigger] NodeState::init(me, peers).emitted(events)[k]).valid
                &&& NodeState::init(me, peers).emitted(events)[k].index == k + 1
            },
{
    applies_are_consecutive(NodeState::init(me, peers), events);
}

/// The current-term rule: what a leader's commit rule returns is an index
/// of its log beyond its commit index, held by an entry of its own term,
/// and it is the match index of some peer.
pub proof fn leader_commits_in_its_own_term(s: NodeState)
    requires
        s.wf(),
        s.leader_commit() is Some,
    ensures
        s.role is Leader,
        s.commit_index < s.leader_commit().unwrap() < s.log.len(),
        s.log[s.leader_commit().unwrap() as int].term == s.current_term,
        s.match_index.contains(s.leader_commit().unwrap()),
{
    crate::ranking::ranked_values_occur(s.match_index, (s.peers() / 2) as int);
}

/// What the hint after a conflict is: the slots from the hint to the slot
/// that the leader named hold entries of one term, the slot before the hint
/// holds another term or is the sentinel's, and the hint is the sentinel's
/// slot only if the leader named that.
pub proof fn a_hint_starts_a_run(log: Seq<crate::types::Entry>, index: int)
    requires
        0 <= index < log.len(),
    ensures
        0 <= run_start(log, index) <= index,
        index >= 1 ==> run_start(log, index) >= 1,
        forall|j: int|
            run_start(log, index) <= j <= index ==> (#[trigger] log[j]).term == log[index].term,
        run_start(log, index) > 1 ==> log[run_start(log, index) - 1].term != log[index].term,
    decreases index,
{
    if index > 1 && log[index - 1].term == log[index].term {
        a_hint_starts_a_run(log, index - 1);
    }
}

} // verus!
