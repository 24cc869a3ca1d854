//! Replication: taking entries from a leader, sending entries as a leader.

use crate::laws::{append_entries_keeps_well_formed, append_reply_keeps_well_formed};
use crate::model::{run_start, APPEND_WINDOW, NO_VOTE};
use crate::node::Raft;
use crate::types::{
    entries_of, AppendEntriesArgs, AppendEntriesReply, AppendOutcome, LogEntry, State,
};
use vstd::prelude::*;

verus! {

/// What became of an answer to a request to append.
#[derive(Clone, Copy, Debug, PartialEq, Eq, Structural)]
pub enum AppendReplyOutcome {
    /// The answer changed nothing.
    Dropped,
    /// The peer took the entries: the host asks the leader to recompute its
    /// commit index.
    Advanced,
    /// The answer carried a higher term and the node stepped down: the host
    /// restarts the election timer.
    SteppedDown,
    /// The peer's log did not match; the next request starts further back.
    BackedOff,
}

impl Raft {
    /// Handles a request to append entries.
    ///
    /// A request from an older term is refused and changes nothing. Any
    /// other request is contact with a leader: the node adopts a newer term,
    /// becomes a follower, and the host restarts the election timer. If the
    /// node's log holds an entry of the named term at the named slot, the
    /// request succeeds; entries it carries replace everything after that
    /// slot and are moved out of `args`. Otherwise the reply tells the
    /// leader where the conflicting run of terms starts.
    pub fn append_entries(&mut self, args: &mut AppendEntriesArgs) -> (outcome: AppendOutcome)
        requires
            old(self)@.wf(),
            old(args).prev_log_index < usize::MAX,
        ensures
            final(self)@ == old(self)@.append_entries(old(args)@),
            outcome == old(self)@.append_effect(old(args)@),
            final(self)@.wf(),
            final(args)@.entries == (if old(self)@.takes_entries(old(args)@) {
                Seq::empty()
            } else {
                old(args)@.entries
            }),
            final(args).term == old(args).term,
            final(args).leader_id == old(args).leader_id,
            final(args).prev_log_index == old(args).prev_log_index,
            final(args).prev_log_term == old(args).prev_log_term,
            final(args).leader_commit == old(args).leader_commit,
    {
        let prev: usize = args.prev_log_index;
        if args.term < self.current_term {
            return AppendOutcome {
                reply: AppendEntriesReply {
                    term: self.current_term,
                    success: false,
                    first_index: prev + 1,
                },
                reset_timer: false,
                commit_to: None,
            };
        }
        if args.term > self.current_term {
            self.current_term = args.term;
            self.vote_for = NO_VOTE;
        }
        self.state = State::Follower;
        if prev < self.log.len() && self.log[prev].term == args.prev_log_term {
            let num: usize = args.entries.len();
            if num > 0 {
                self.log.truncate(prev + 1);
                self.log.append(&mut args.entries);
                proof {
                    assert(self.log.len() <= usize::MAX);
                    assert(self@.log =~= old(self)@.append_entries(old(args)@).log);
                }
            }
            proof {
                append_entries_keeps_well_formed(old(self)@, old(args)@);
                assert(args@.entries =~= Seq::empty());
            }
            let last: usize = prev + num;
            let upto: usize = if args.leader_commit <= last {
                args.leader_commit
            } else {
                last
            };
            let commit_to: Option<usize> = if self.commit_index < upto {
                Some(upto)
            } else {
                None
            };
            AppendOutcome {
                reply: AppendEntriesReply {
                    term: self.current_term,
                    success: true,
                    first_index: prev + 1,
                },
                reset_timer: true,
                commit_to,
            }
        } else {
            proof {
                append_entries_keeps_well_formed(old(self)@, old(args)@);
            }
            let hint: usize = self.conflict_hint(prev);
            AppendOutcome {
                reply: AppendEntriesReply {
                    term: self.current_term,
                    success: false,
                    first_index: hint,
                },
                reset_timer: true,
                commit_to: None,
            }
        }
    }

    /// Where a leader that named the slot `prev_log_index` is told to retry.
    pub fn conflict_hint(&self, prev_log_index: usize) -> (hint: usize)
        requires
            self@.wf(),
        ensures
            hint == self@.conflict_hint(prev_log_index),
    {
        if prev_log_index < self.log.len() {
            let term: u64 = self.log[prev_log_index].term;
            let mut index: usize = prev_log_index;
            while index > 1 && self.log[index - 1].term == term
                invariant
                    index <= prev_log_index < self.log.len(),
                    term == self.log[index as int].term,
                    run_start(self@.log, prev_log_index as int) == run_start(
                        self@.log,
                        index as int,
                    ),
                decreases index,
            {
                index = index - 1;
            }
            index
        } else {
            self.log.len()
        }
    }

    /// The request to append that a leader sends to `peer` at a heartbeat.
    pub fn append_request(&self, peer: usize) -> (request: AppendEntriesArgs)
        requires
            self@.wf(),
            self@.role is Leader,
            peer < self@.peers(),
        ensures
            request@ == self@.append_request(peer as int),
    {
        let len: usize = self.log.len();
        let from: usize = self.next_index[peer];
        let prev: usize = if from - 1 <= len - 1 {
            from - 1
        } else {
            len - 1
        };
        let mut entries: Vec<LogEntry> = Vec::new();
        let mut next: usize = from;
        let mut cnt: usize = 0;
        while next < len && cnt < APPEND_WINDOW
            invariant
                len == self.log.len(),
                from <= next <= len,
                next == from + cnt,
                cnt <= APPEND_WINDOW,
                entries@.len() == cnt,
                self@.log.len() == len,
                entries_of(entries@) == self@.log.subrange(from as int, next as int),
            decreases len - next,
        {
            let ghost before = entries@;
            let entry = self.log[next].clone();
            entries.push(entry);
            next = next + 1;
            cnt = cnt + 1;
            proof {
                assert forall|k: int| 0 <= k < entries@.len() implies entries_of(entries@)[k]
                    == self@.log.subrange(from as int, next as int)[k] by {
                    if k < before.len() {
                        assert(entries_of(before)[k] == before[k]@);
                        assert(entries_of(before)[k] == self@.log.subrange(
                            from as int,
                            next - 1,
                        )[k]);
                    } else {
                        assert(entries@[k] == entry);
                        assert(self@.log[next - 1] == self.log@[next - 1]@);
                    }
                }
                assert(entries_of(entries@) =~= self@.log.subrange(from as int, next as int));
            }
        }
        assert(entries_of(entries@) =~= self@.window_for(peer as int));
        AppendEntriesArgs {
            term: self.current_term,
            leader_id: self.me,
            prev_log_index: prev,
            prev_log_term: self.log[prev].term,
            entries,
            leader_commit: self.commit_index,
        }
    }

    /// One beat of the leader's heart.
    ///
    /// A node that is not the leader returns `None`, and the host stops the
    /// heartbeat. A leader returns, for every other peer in order, the peer
    /// and the request to send to it; the host also restarts the leader's
    /// own election timer.
    pub fn tick_heartbeat(&self) -> (requests: Option<Vec<(usize, AppendEntriesArgs)>>)
        requires
            self@.wf(),
        ensures
            requests is Some <==> self@.role is Leader,
            requests matches Some(sent) ==> {
                &&& sent@.len() == self@.peers() - 1
                &&& forall|k: int|
                    0 <= k < sent@.len() ==> {
                        &&& (#[trigger] sent@[k]).0 == self@.heartbeat_peer(k)
                        &&& sent@[k].1@ == self@.append_request(self@.heartbeat_peer(k))
                    }
            },
    {
        match self.state {
            State::Leader => {},
            _ => {
                return None;
            },
        }
        let peers: usize = self.next_index.len();
        let me: usize = self.me as usize;
        let mut sent: Vec<(usize, AppendEntriesArgs)> = Vec::new();
        let mut i: usize = 0;
        while i < peers
            invariant
                self@.wf(),
                self@.role is Leader,
                peers == self@.peers(),
                me == self@.me,
                i <= peers,
                sent@.len() == (if i <= me {
                    i as int
                } else {
                    i - 1
                }),
                forall|k: int|
                    0 <= k < sent@.len() ==> {
                        &&& (#[trigger] sent@[k]).0 == self@.heartbeat_peer(k)
                        &&& sent@[k].1@ == self@.append_request(self@.heartbeat_peer(k))
                    },
            decreases peers - i,
        {
            if i != me {
                let request = self.append_request(i);
                sent.push((i, request));
            }
            i = i + 1;
        }
        Some(sent)
    }

    /// Handles `peer`'s answer to a request to append that named the slot
    /// `prev_index` and carried `num_entries` entries.
    ///
    /// A node that is no longer the leader drops the answer, and so does a
    /// leader whose log does not reach `prev_index + num_entries`: the
    /// request was not cut from this log. On success the peer's match index
    /// becomes `prev_index + num_entries` and its next index moves on by
    /// `num_entries`. A refusal from a higher term makes the leader step
    /// down. Any other refusal moves the peer's next index to the hint in
    /// the reply. The next index stays between 1 and the length of the log.
    pub fn append_reply(
        &mut self,
        peer: usize,
        prev_index: usize,
        num_entries: usize,
        reply: &AppendEntriesReply,
    ) -> (outcome: AppendReplyOutcome)
        requires
            old(self)@.wf(),
        ensures
            final(self)@ == old(self)@.append_reply(peer, prev_index, num_entries, *reply),
            final(self)@.wf(),
            outcome == (if !(old(self)@.role is Leader) || peer >= old(self)@.peers() {
                AppendReplyOutcome::Dropped
            } else if reply.success {
                if old(self)@.reply_in_range(peer, prev_index, num_entries) {
                    AppendReplyOutcome::Advanced
                } else {
                    AppendReplyOutcome::Dropped
                }
            } else if reply.term > old(self)@.current_term {
                AppendReplyOutcome::SteppedDown
            } else {
                AppendReplyOutcome::BackedOff
            }),
    {
        proof {
            append_reply_keeps_well_formed(old(self)@, peer, prev_index, num_entries, *reply);
        }
        match self.state {
            State::Leader => {},
            _ => {
                return AppendReplyOutcome::Dropped;
            },
        }
        if peer >= self.next_index.len() {
            return AppendReplyOutcome::Dropped;
        }
        let len: usize = self.log.len();
        if reply.success {
            if num_entries < len && prev_index < len - num_entries {
                let next: usize = self.next_index[peer];
                let moved: usize = if num_entries <= len - next {
                    next + num_entries
                } else {
                    len
                };
                self.match_index.set(peer, prev_index + num_entries);
                self.next_index.set(peer, moved);
                AppendReplyOutcome::Advanced
            } else {
                AppendReplyOutcome::Dropped
            }
        } else if reply.term > self.current_term {
            self.current_term = reply.term;
            self.vote_for = NO_VOTE;
            self.state = State::Follower;
            AppendReplyOutcome::SteppedDown
        } else {
            let hint: usize = if reply.first_index < 1 {
                1
            } else if reply.first_index > len {
                len
            } else {
                reply.first_index
            };
            self.next_index.set(peer, hint);
            AppendReplyOutcome::BackedOff
        }
    }
}

} // verus!
