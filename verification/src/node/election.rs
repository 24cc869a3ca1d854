//! Elections: granting votes, campaigning, counting votes.

use crate::laws::{
    campaign_keeps_well_formed, request_vote_keeps_well_formed, vote_reply_keeps_well_formed,
};
use crate::model::NO_VOTE;
use crate::node::{filled, Raft};
use crate::types::{RequestVoteArgs, RequestVoteReply, State};
use vstd::prelude::*;

verus! {

/// What became of an answer to a request for a vote.
#[derive(Clone, Copy, Debug, PartialEq, Eq, Structural)]
pub enum VoteReplyOutcome {
    /// The answer changed nothing.
    Dropped,
    /// The vote was counted; the node is still a candidate.
    Counted,
    /// The vote was counted and made the node leader: the host starts the
    /// heartbeat.
    Elected,
    /// The answer carried a higher term and the node stepped down: the host
    /// restarts the election timer.
    SteppedDown,
}

impl Raft {
    /// Handles a request for a vote.
    ///
    /// A request from an older term is refused. A request from a newer term
    /// makes the node adopt that term as a follower that has not voted. The
    /// vote is then granted if the candidate's log is at least as up to
    /// date as the node's and the node has not voted in the term. The host
    /// restarts the election timer exactly when the vote is granted.
    pub fn request_vote(&mut self, args: &RequestVoteArgs) -> (reply: RequestVoteReply)
        requires
            old(self)@.wf(),
        ensures
            final(self)@ == old(self)@.request_vote(*args),
            reply == old(self)@.vote_reply_to(*args),
            final(self)@.wf(),
    {
        proof {
            request_vote_keeps_well_formed(old(self)@, *args);
        }
        if args.term < self.current_term {
            return RequestVoteReply { term: self.current_term, vote_granted: false };
        }
        let last_index: usize = self.last_index();
        let last_term: u64 = self.log[last_index].term;
        let up_to_date = args.last_log_term > last_term || (args.last_log_term == last_term
            && args.last_log_index >= last_index);
        if args.term > self.current_term {
            self.current_term = args.term;
            self.vote_for = NO_VOTE;
            self.state = State::Follower;
        }
        let granted = up_to_date && self.vote_for == NO_VOTE;
        if granted {
            self.vote_for = args.candidate_id;
            self.state = State::Follower;
        }
        RequestVoteReply { term: self.current_term, vote_granted: granted }
    }

    /// Starts an election: the node moves to the next term as a candidate
    /// that has voted for itself. Returns the request that the host sends to
    /// every other peer.
    pub fn campaign(&mut self) -> (request: RequestVoteArgs)
        requires
            old(self)@.wf(),
            old(self)@.current_term < u64::MAX,
        ensures
            final(self)@ == old(self)@.campaign(),
            request == final(self)@.vote_request(),
            final(self)@.wf(),
    {
        proof {
            campaign_keeps_well_formed(old(self)@);
        }
        self.voted_cnt = 0;
        self.vote_for = self.me;
        self.state = State::Candidate;
        self.current_term = self.current_term + 1;
        let last_index: usize = self.last_index();
        RequestVoteArgs {
            term: self.current_term,
            candidate_id: self.me,
            last_log_index: last_index,
            last_log_term: self.log[last_index].term,
        }
    }

    /// Handles a peer's answer to the request for a vote of the current
    /// campaign.
    ///
    /// A node that is no longer a candidate drops the answer. A vote granted
    /// in the candidate's term is counted, and the candidate takes office
    /// once it holds, with its own vote, more than half of all votes. An
    /// answer from a higher term makes the candidate step down.
    pub fn vote_reply(&mut self, reply: &RequestVoteReply) -> (outcome: VoteReplyOutcome)
        requires
            old(self)@.wf(),
        ensures
            final(self)@ == old(self)@.vote_reply(*reply),
            final(self)@.wf(),
            outcome == (if old(self)@.wins_with(*reply) {
                VoteReplyOutcome::Elected
            } else if old(self)@.counts_vote(*reply) {
                VoteReplyOutcome::Counted
            } else if old(self)@.role is Candidate && reply.term > old(self)@.current_term {
                VoteReplyOutcome::SteppedDown
            } else {
                VoteReplyOutcome::Dropped
            }),
    {
        proof {
            vote_reply_keeps_well_formed(old(self)@, *reply);
        }
        match self.state {
            State::Candidate => {},
            _ => {
                return VoteReplyOutcome::Dropped;
            },
        }
        if reply.vote_granted && reply.term == self.current_term {
            self.voted_cnt = self.voted_cnt + 1;
            let peers: usize = self.next_index.len();
            if self.voted_cnt as usize >= peers / 2 {
                let len: usize = self.log.len();
                let me: usize = self.me as usize;
                self.next_index = filled(peers, len);
                self.match_index = filled(peers, 0);
                self.match_index.set(me, len - 1);
                self.state = State::Leader;
                proof {
                    assert(self@.next_index =~= old(self)@.vote_reply(*reply).next_index);
                    assert(self@.match_index =~= old(self)@.vote_reply(*reply).match_index);
                }
                VoteReplyOutcome::Elected
            } else {
                VoteReplyOutcome::Counted
            }
        } else if reply.term > self.current_term {
            self.current_term = reply.term;
            self.vote_for = NO_VOTE;
            self.state = State::Follower;
            VoteReplyOutcome::SteppedDown
        } else {
            VoteReplyOutcome::Dropped
        }
    }
}

} // verus!
