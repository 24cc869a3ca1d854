use raft::node::ranked;
use raft::{
    AppendEntriesArgs, AppendEntriesReply, AppendOutcome, AppendReplyOutcome, ApplyMsg, LogEntry,
    Raft, RequestVoteArgs, RequestVoteReply, State, TimerEvent, VoteReplyOutcome,
    APPEND_ENTRIES_METHOD, HEARTBEAT_INTERVAL, MAX_TIMEOUT, MIN_TIMEOUT, REQUEST_VOTE_METHOD,
};

fn entry(term: u64, byte: u8) -> LogEntry {
    LogEntry { term, command: vec![byte] }
}

fn sentinel() -> LogEntry {
    LogEntry { term: 0, command: Vec::new() }
}

fn granted(term: u64) -> RequestVoteReply {
    RequestVoteReply { term, vote_granted: true }
}

/// Peer `id` of a cluster of `peers`, elected leader of term 1.
fn leader(id: i32, peers: usize) -> Raft {
    let mut node = Raft::new(id, peers);
    node.campaign();
    let mut votes = 0;
    while node.state() != State::Leader {
        node.vote_reply(&granted(1));
        votes += 1;
        assert!(votes <= peers);
    }
    node
}

/// A follower whose log holds, after the sentinel, entries of the given terms.
fn follower_with_terms(terms: &[u64]) -> Raft {
    let mut node = Raft::new(1, 3);
    let entries: Vec<LogEntry> = terms.iter().map(|t| entry(*t, *t as u8)).collect();
    let term = terms.iter().copied().max().unwrap_or(0);
    let mut args = AppendEntriesArgs {
        term,
        leader_id: 0,
        prev_log_index: 0,
        prev_log_term: 0,
        entries,
        leader_commit: 0,
    };
    let outcome = node.append_entries(&mut args);
    assert!(outcome.reply.success);
    node
}

fn terms_of(node: &Raft) -> Vec<u64> {
    node.log().iter().map(|e| e.term).collect()
}

#[test]
fn the_handlers_have_their_names() {
    assert_eq!(REQUEST_VOTE_METHOD, "Raft.RequestVote");
    assert_eq!(APPEND_ENTRIES_METHOD, "Raft.AppendEntries");
}

#[test]
fn a_new_node_is_a_follower_in_term_zero() {
    let node = Raft::new(2, 5);
    assert_eq!(node.me(), 2);
    assert_eq!(node.state(), State::Follower);
    assert_eq!(node.current_term(), 0);
    assert_eq!(node.vote_for(), -1);
    assert_eq!(node.commit_index(), 0);
    assert_eq!(node.log(), &vec![sentinel()]);
    assert_eq!(node.next_index(), &vec![0, 0, 0, 0, 0]);
    assert_eq!(node.match_index(), &vec![0, 0, 0, 0, 0]);
    assert_eq!(node.voted_cnt(), 0);
    assert_eq!(node.last_index(), 0);
    assert_eq!(node.get_state(), (0, false));
}

#[test]
fn start_on_a_follower_changes_nothing() {
    let mut node = Raft::new(0, 3);
    assert_eq!(node.start(&vec![0xAA]), (1, 0, false));
    assert_eq!(node.log(), &vec![sentinel()]);
    assert_eq!(node.start(&vec![0xBB]), (1, 0, false));
}

#[test]
fn start_on_a_candidate_changes_nothing() {
    let mut node = Raft::new(0, 3);
    node.campaign();
    assert_eq!(node.start(&vec![0xAA]), (1, 1, false));
    assert_eq!(node.log().len(), 1);
}

#[test]
fn start_on_the_leader_appends_in_its_term() {
    let mut node = leader(0, 3);
    assert_eq!(node.get_state(), (1, true));
    assert_eq!(node.start(&vec![0xAA]), (1, 1, true));
    assert_eq!(node.log(), &vec![sentinel(), entry(1, 0xAA)]);
    assert_eq!(node.match_index(), &vec![1, 0, 0]);
    assert_eq!(node.start(&vec![0x04]), (2, 1, true));
    assert_eq!(node.log(), &vec![sentinel(), entry(1, 0xAA), entry(1, 0x04)]);
    assert_eq!(node.match_index(), &vec![2, 0, 0]);
    assert_eq!(node.last_index(), 2);
    assert_eq!(node.commit_index(), 0);
}

#[test]
fn a_leader_only_appends_to_its_log() {
    let mut node = leader(0, 3);
    let mut before: Vec<LogEntry> = node.log().clone();
    for byte in 0..20u8 {
        node.start(&vec![byte]);
        node.tick_heartbeat();
        node.append_reply(1, 0, 0, &AppendEntriesReply { term: 1, success: true, first_index: 0 });
        node.leader_commit();
        node.commit_to_index(byte as usize);
        assert_eq!(&node.log()[..before.len()], &before[..]);
        before = node.log().clone();
    }
}

#[test]
fn a_campaign_moves_to_the_next_term() {
    let mut node = follower_with_terms(&[1, 1, 2]);
    assert_eq!(node.current_term(), 2);
    let request = node.campaign();
    assert_eq!(
        request,
        RequestVoteArgs { term: 3, candidate_id: 1, last_log_index: 3, last_log_term: 2 }
    );
    assert_eq!(node.state(), State::Candidate);
    assert_eq!(node.current_term(), 3);
    assert_eq!(node.vote_for(), 1);
    assert_eq!(node.voted_cnt(), 0);
    let again = node.campaign();
    assert_eq!(again.term, 4);
    assert_eq!(node.current_term(), 4);
}

#[test]
fn a_vote_request_from_an_older_term_is_refused() {
    let mut node = follower_with_terms(&[3]);
    let reply = node.request_vote(&RequestVoteArgs {
        term: 2,
        candidate_id: 0,
        last_log_index: 9,
        last_log_term: 9,
    });
    assert_eq!(reply, RequestVoteReply { term: 3, vote_granted: false });
    assert_eq!(node.current_term(), 3);
    assert_eq!(node.vote_for(), -1);
}

#[test]
fn a_vote_is_granted_once_per_term() {
    let mut node = Raft::new(1, 3);
    let first = node.request_vote(&RequestVoteArgs {
        term: 1,
        candidate_id: 0,
        last_log_index: 0,
        last_log_term: 0,
    });
    assert_eq!(first, RequestVoteReply { term: 1, vote_granted: true });
    assert_eq!(node.vote_for(), 0);
    assert_eq!(node.current_term(), 1);
    let second = node.request_vote(&RequestVoteArgs {
        term: 1,
        candidate_id: 2,
        last_log_index: 5,
        last_log_term: 1,
    });
    assert_eq!(second, RequestVoteReply { term: 1, vote_granted: false });
    assert_eq!(node.vote_for(), 0);
    let repeated = node.request_vote(&RequestVoteArgs {
        term: 1,
        candidate_id: 0,
        last_log_index: 0,
        last_log_term: 0,
    });
    assert_eq!(repeated, RequestVoteReply { term: 1, vote_granted: false });
    assert_eq!(node.vote_for(), 0);
    let next_term = node.request_vote(&RequestVoteArgs {
        term: 2,
        candidate_id: 2,
        last_log_index: 0,
        last_log_term: 0,
    });
    assert_eq!(next_term, RequestVoteReply { term: 2, vote_granted: true });
    assert_eq!(node.vote_for(), 2);
}

#[test]
fn a_vote_goes_only_to_an_up_to_date_log() {
    // The node's log ends at index 3 in term 2.
    let ask = |last_log_index: usize, last_log_term: u64| {
        let mut node = follower_with_terms(&[1, 2, 2]);
        let reply = node.request_vote(&RequestVoteArgs {
            term: 5,
            candidate_id: 0,
            last_log_index,
            last_log_term,
        });
        assert_eq!(reply.term, 5);
        assert_eq!(node.current_term(), 5);
        assert_eq!(node.state(), State::Follower);
        assert_eq!(node.vote_for(), if reply.vote_granted { 0 } else { -1 });
        reply.vote_granted
    };
    assert!(ask(1, 3));
    assert!(ask(3, 2));
    assert!(ask(4, 2));
    assert!(!ask(2, 2));
    assert!(!ask(9, 1));
    assert!(!ask(0, 0));
}

#[test]
fn a_candidate_refuses_a_rival_of_its_term_and_yields_to_a_newer_one() {
    let mut node = Raft::new(0, 3);
    node.campaign();
    let rival = node.request_vote(&RequestVoteArgs {
        term: 1,
        candidate_id: 2,
        last_log_index: 0,
        last_log_term: 0,
    });
    assert_eq!(rival, RequestVoteReply { term: 1, vote_granted: false });
    assert_eq!(node.state(), State::Candidate);
    assert_eq!(node.vote_for(), 0);
    let newer = node.request_vote(&RequestVoteArgs {
        term: 2,
        candidate_id: 2,
        last_log_index: 0,
        last_log_term: 0,
    });
    assert_eq!(newer, RequestVoteReply { term: 2, vote_granted: true });
    assert_eq!(node.state(), State::Follower);
    assert_eq!(node.vote_for(), 2);
}

#[test]
fn a_candidate_of_three_wins_with_one_vote() {
    let mut node = Raft::new(0, 3);
    node.start(&vec![1]);
    node.campaign();
    assert_eq!(node.vote_reply(&granted(1)), VoteReplyOutcome::Elected);
    assert_eq!(node.state(), State::Leader);
    assert_eq!(node.voted_cnt(), 1);
    assert_eq!(node.next_index(), &vec![1, 1, 1]);
    assert_eq!(node.match_index(), &vec![0, 0, 0]);
    assert_eq!(node.vote_reply(&granted(1)), VoteReplyOutcome::Dropped);
    assert_eq!(node.voted_cnt(), 1);
}

#[test]
fn a_candidate_of_five_wins_with_two_votes() {
    let mut five = Raft::new(3, 5);
    let mut args = AppendEntriesArgs {
        term: 1,
        leader_id: 0,
        prev_log_index: 0,
        prev_log_term: 0,
        entries: vec![entry(1, 7), entry(1, 8)],
        leader_commit: 0,
    };
    five.append_entries(&mut args);
    five.campaign();
    assert_eq!(five.vote_reply(&granted(2)), VoteReplyOutcome::Counted);
    assert_eq!(five.voted_cnt(), 1);
    assert_eq!(five.vote_reply(&granted(2)), VoteReplyOutcome::Elected);
    assert_eq!(five.voted_cnt(), 2);
    assert_eq!(five.get_state(), (2, true));
    assert_eq!(five.next_index(), &vec![3, 3, 3, 3, 3]);
    assert_eq!(five.match_index(), &vec![0, 0, 0, 2, 0]);
}

#[test]
fn a_candidate_of_four_needs_two_votes() {
    let mut node = Raft::new(0, 4);
    node.campaign();
    assert_eq!(node.vote_reply(&granted(1)), VoteReplyOutcome::Counted);
    assert_eq!(node.vote_reply(&granted(1)), VoteReplyOutcome::Elected);
}

#[test]
fn votes_of_other_terms_and_refusals_do_not_count() {
    let mut node = Raft::new(0, 3);
    node.campaign();
    node.campaign();
    assert_eq!(node.current_term(), 2);
    assert_eq!(node.vote_reply(&granted(1)), VoteReplyOutcome::Dropped);
    assert_eq!(
        node.vote_reply(&RequestVoteReply { term: 2, vote_granted: false }),
        VoteReplyOutcome::Dropped
    );
    assert_eq!(node.voted_cnt(), 0);
    assert_eq!(node.state(), State::Candidate);
    assert_eq!(node.current_term(), 2);
}

#[test]
fn a_candidate_steps_down_before_a_higher_term() {
    let mut node = Raft::new(0, 3);
    node.campaign();
    assert_eq!(
        node.vote_reply(&RequestVoteReply { term: 7, vote_granted: false }),
        VoteReplyOutcome::SteppedDown
    );
    assert_eq!(node.state(), State::Follower);
    assert_eq!(node.current_term(), 7);
    assert_eq!(node.vote_for(), -1);
    let mut other = Raft::new(0, 3);
    other.campaign();
    assert_eq!(other.vote_reply(&granted(7)), VoteReplyOutcome::SteppedDown);
    assert_eq!(other.current_term(), 7);
}

#[test]
fn a_follower_drops_answers_to_vote_requests() {
    let mut node = Raft::new(0, 3);
    assert_eq!(node.vote_reply(&granted(0)), VoteReplyOutcome::Dropped);
    assert_eq!(
        node.vote_reply(&RequestVoteReply { term: 9, vote_granted: false }),
        VoteReplyOutcome::Dropped
    );
    assert_eq!(node.current_term(), 0);
    assert_eq!(node.voted_cnt(), 0);
}

#[test]
fn stale_append_entries_is_rejected() {
    let mut node = follower_with_terms(&[1, 4]);
    let term = node.current_term();
    assert_eq!(term, 4);
    let log_before = node.log().clone();
    let mut args = AppendEntriesArgs {
        term: term - 1,
        leader_id: 2,
        prev_log_index: 1,
        prev_log_term: 1,
        entries: vec![entry(3, 9)],
        leader_commit: 2,
    };
    let outcome = node.append_entries(&mut args);
    assert_eq!(
        outcome,
        AppendOutcome {
            reply: AppendEntriesReply { term: 4, success: false, first_index: 2 },
            reset_timer: false,
            commit_to: None,
        }
    );
    assert_eq!(node.log(), &log_before);
    assert_eq!(node.current_term(), term);
    assert_eq!(args.entries, vec![entry(3, 9)]);
}

#[test]
fn a_conflict_is_answered_with_the_start_of_the_term() {
    let mut node = follower_with_terms(&[1, 1, 2, 2, 2]);
    assert_eq!(terms_of(&node), vec![0, 1, 1, 2, 2, 2]);
    let mut probe = AppendEntriesArgs {
        term: 3,
        leader_id: 0,
        prev_log_index: 5,
        prev_log_term: 3,
        entries: vec![entry(3, 1)],
        leader_commit: 0,
    };
    let outcome = node.append_entries(&mut probe);
    assert_eq!(
        outcome,
        AppendOutcome {
            reply: AppendEntriesReply { term: 3, success: false, first_index: 3 },
            reset_timer: true,
            commit_to: None,
        }
    );
    assert_eq!(terms_of(&node), vec![0, 1, 1, 2, 2, 2]);
    assert_eq!(probe.entries.len(), 1);
    let mut retry = AppendEntriesArgs {
        term: 3,
        leader_id: 0,
        prev_log_index: 2,
        prev_log_term: 1,
        entries: vec![entry(3, 1), entry(3, 2)],
        leader_commit: 0,
    };
    let outcome = node.append_entries(&mut retry);
    assert_eq!(
        outcome.reply,
        AppendEntriesReply { term: 3, success: true, first_index: 3 }
    );
    assert_eq!(terms_of(&node), vec![0, 1, 1, 3, 3]);
    assert!(retry.entries.is_empty());
}

#[test]
fn conflict_hints_at_the_edges() {
    let node = follower_with_terms(&[1, 1, 2, 2, 2]);
    assert_eq!(node.conflict_hint(5), 3);
    assert_eq!(node.conflict_hint(4), 3);
    assert_eq!(node.conflict_hint(3), 3);
    assert_eq!(node.conflict_hint(2), 1);
    assert_eq!(node.conflict_hint(1), 1);
    assert_eq!(node.conflict_hint(0), 0);
    assert_eq!(node.conflict_hint(6), 6);
    assert_eq!(node.conflict_hint(60), 6);
    let zeros = follower_with_terms(&[0, 0]);
    assert_eq!(zeros.conflict_hint(2), 1);
}

#[test]
fn a_request_beyond_the_log_is_answered_with_its_length() {
    let mut node = follower_with_terms(&[1, 1]);
    let mut args = AppendEntriesArgs {
        term: 1,
        leader_id: 0,
        prev_log_index: 7,
        prev_log_term: 1,
        entries: Vec::new(),
        leader_commit: 9,
    };
    let outcome = node.append_entries(&mut args);
    assert_eq!(
        outcome,
        AppendOutcome {
            reply: AppendEntriesReply { term: 1, success: false, first_index: 3 },
            reset_timer: true,
            commit_to: None,
        }
    );
}

#[test]
fn a_heartbeat_leaves_the_log_alone() {
    let mut node = follower_with_terms(&[1, 1, 1]);
    let mut beat = AppendEntriesArgs {
        term: 1,
        leader_id: 0,
        prev_log_index: 1,
        prev_log_term: 1,
        entries: Vec::new(),
        leader_commit: 3,
    };
    let outcome = node.append_entries(&mut beat);
    assert_eq!(
        outcome,
        AppendOutcome {
            reply: AppendEntriesReply { term: 1, success: true, first_index: 2 },
            reset_timer: true,
            commit_to: Some(1),
        }
    );
    assert_eq!(terms_of(&node), vec![0, 1, 1, 1]);
}

#[test]
fn entries_replace_what_follows_the_matching_slot() {
    let mut node = follower_with_terms(&[1, 1, 1]);
    let mut args = AppendEntriesArgs {
        term: 2,
        leader_id: 0,
        prev_log_index: 1,
        prev_log_term: 1,
        entries: vec![entry(2, 0x10)],
        leader_commit: 5,
    };
    let outcome = node.append_entries(&mut args);
    assert_eq!(
        outcome,
        AppendOutcome {
            reply: AppendEntriesReply { term: 2, success: true, first_index: 2 },
            reset_timer: true,
            commit_to: Some(2),
        }
    );
    assert_eq!(node.log(), &vec![sentinel(), entry(1, 1), entry(2, 0x10)]);
    assert_eq!(node.current_term(), 2);
    assert_eq!(node.commit_index(), 0);
}

#[test]
fn a_request_cuts_the_log_down_to_what_it_brings() {
    let mut node = follower_with_terms(&[1, 1, 1]);
    let mut late = AppendEntriesArgs {
        term: 1,
        leader_id: 0,
        prev_log_index: 0,
        prev_log_term: 0,
        entries: vec![entry(1, 1)],
        leader_commit: 0,
    };
    let outcome = node.append_entries(&mut late);
    assert!(outcome.reply.success);
    assert_eq!(node.log(), &vec![sentinel(), entry(1, 1)]);
}

#[test]
fn the_commit_target_is_the_lesser_of_leader_commit_and_last_new_entry() {
    let target = |leader_commit: usize, committed: usize| {
        let mut node = follower_with_terms(&[1, 1, 1, 1]);
        node.commit_to_index(committed);
        let mut args = AppendEntriesArgs {
            term: 1,
            leader_id: 0,
            prev_log_index: 2,
            prev_log_term: 1,
            entries: vec![entry(1, 3)],
            leader_commit,
        };
        node.append_entries(&mut args).commit_to
    };
    assert_eq!(target(0, 0), None);
    assert_eq!(target(1, 0), Some(1));
    assert_eq!(target(3, 0), Some(3));
    assert_eq!(target(4, 0), Some(3));
    assert_eq!(target(2, 2), None);
    assert_eq!(target(9, 3), None);
    assert_eq!(target(3, 2), Some(3));
}

#[test]
fn append_entries_turns_a_candidate_of_the_same_term_into_a_follower() {
    let mut node = Raft::new(1, 3);
    node.campaign();
    let mut args = AppendEntriesArgs {
        term: 1,
        leader_id: 0,
        prev_log_index: 0,
        prev_log_term: 0,
        entries: Vec::new(),
        leader_commit: 0,
    };
    let outcome = node.append_entries(&mut args);
    assert!(outcome.reply.success);
    assert!(outcome.reset_timer);
    assert_eq!(node.state(), State::Follower);
    assert_eq!(node.current_term(), 1);
    assert_eq!(node.vote_for(), 1);
}

#[test]
fn append_entries_from_a_newer_term_clears_the_vote() {
    let mut node = Raft::new(1, 3);
    node.campaign();
    let mut args = AppendEntriesArgs {
        term: 4,
        leader_id: 0,
        prev_log_index: 3,
        prev_log_term: 2,
        entries: Vec::new(),
        leader_commit: 0,
    };
    let outcome = node.append_entries(&mut args);
    assert_eq!(
        outcome.reply,
        AppendEntriesReply { term: 4, success: false, first_index: 1 }
    );
    assert_eq!(node.state(), State::Follower);
    assert_eq!(node.current_term(), 4);
    assert_eq!(node.vote_for(), -1);
}

#[test]
fn a_follower_has_no_heartbeat() {
    let node = Raft::new(0, 3);
    assert!(node.tick_heartbeat().is_none());
    let mut candidate = Raft::new(0, 3);
    candidate.campaign();
    assert!(candidate.tick_heartbeat().is_none());
}

#[test]
fn a_heartbeat_goes_to_every_other_peer() {
    let mut node = leader(1, 4);
    node.start(&vec![0xAA]);
    node.commit_to_index(1);
    let sent = node.tick_heartbeat().unwrap();
    let peers: Vec<usize> = sent.iter().map(|(peer, _)| *peer).collect();
    assert_eq!(peers, vec![0, 2, 3]);
    for (_, request) in &sent {
        assert_eq!(
            request,
            &AppendEntriesArgs {
                term: 1,
                leader_id: 1,
                prev_log_index: 0,
                prev_log_term: 0,
                entries: vec![entry(1, 0xAA)],
                leader_commit: 1,
            }
        );
    }
}

#[test]
fn a_request_carries_at_most_ten_entries() {
    let mut node = leader(0, 3);
    for byte in 1..=25u8 {
        node.start(&vec![byte]);
    }
    let first = node.append_request(1);
    assert_eq!(first.prev_log_index, 0);
    assert_eq!(first.entries.len(), 10);
    assert_eq!(first.entries[0], entry(1, 1));
    assert_eq!(first.entries[9], entry(1, 10));
    let reply = AppendEntriesReply { term: 1, success: true, first_index: 1 };
    assert_eq!(node.append_reply(1, 0, 10, &reply), AppendReplyOutcome::Advanced);
    assert_eq!(node.next_index(), &vec![1, 11, 1]);
    assert_eq!(node.match_index(), &vec![25, 10, 0]);
    let second = node.append_request(1);
    assert_eq!(second.prev_log_index, 10);
    assert_eq!(second.prev_log_term, 1);
    assert_eq!(second.entries.len(), 10);
    assert_eq!(second.entries[0], entry(1, 11));
    node.append_reply(1, 10, 10, &reply);
    let third = node.append_request(1);
    assert_eq!(third.prev_log_index, 20);
    assert_eq!(third.entries.len(), 5);
    assert_eq!(third.entries[4], entry(1, 25));
    node.append_reply(1, 20, 5, &reply);
    assert_eq!(node.next_index(), &vec![1, 26, 1]);
    assert_eq!(node.match_index(), &vec![25, 25, 0]);
    let idle = node.append_request(1);
    assert_eq!(idle.prev_log_index, 25);
    assert_eq!(idle.prev_log_term, 1);
    assert!(idle.entries.is_empty());
}

#[test]
fn the_next_index_never_passes_the_end_of_the_log() {
    let mut node = leader(0, 3);
    node.start(&vec![1]);
    node.start(&vec![2]);
    let reply = AppendEntriesReply { term: 1, success: true, first_index: 1 };
    assert_eq!(node.append_reply(2, 0, 2, &reply), AppendReplyOutcome::Advanced);
    assert_eq!(node.next_index(), &vec![1, 1, 3]);
    assert_eq!(node.append_reply(2, 0, 2, &reply), AppendReplyOutcome::Advanced);
    assert_eq!(node.next_index(), &vec![1, 1, 3]);
    assert_eq!(node.match_index(), &vec![2, 0, 2]);
}

#[test]
fn answers_that_cannot_belong_to_the_log_are_dropped() {
    let mut node = leader(0, 3);
    node.start(&vec![1]);
    let reply = AppendEntriesReply { term: 1, success: true, first_index: 1 };
    assert_eq!(node.append_reply(1, 1, 1, &reply), AppendReplyOutcome::Dropped);
    assert_eq!(node.append_reply(1, usize::MAX, 1, &reply), AppendReplyOutcome::Dropped);
    assert_eq!(node.append_reply(1, 0, usize::MAX, &reply), AppendReplyOutcome::Dropped);
    assert_eq!(node.append_reply(3, 0, 1, &reply), AppendReplyOutcome::Dropped);
    assert_eq!(node.next_index(), &vec![1, 1, 1]);
    assert_eq!(node.match_index(), &vec![1, 0, 0]);
    let mut follower = Raft::new(0, 3);
    assert_eq!(follower.append_reply(1, 0, 0, &reply), AppendReplyOutcome::Dropped);
}

#[test]
fn a_refusal_moves_the_next_index_to_the_hint() {
    let mut node = leader(0, 3);
    for byte in 1..=5u8 {
        node.start(&vec![byte]);
    }
    let refusal = |first_index: usize| AppendEntriesReply { term: 1, success: false, first_index };
    assert_eq!(node.append_reply(1, 0, 5, &refusal(3)), AppendReplyOutcome::BackedOff);
    assert_eq!(node.next_index(), &vec![1, 3, 1]);
    assert_eq!(node.append_request(1).prev_log_index, 2);
    assert_eq!(node.append_reply(1, 0, 5, &refusal(0)), AppendReplyOutcome::BackedOff);
    assert_eq!(node.next_index(), &vec![1, 1, 1]);
    assert_eq!(node.append_reply(2, 0, 5, &refusal(600)), AppendReplyOutcome::BackedOff);
    assert_eq!(node.next_index(), &vec![1, 1, 6]);
    assert_eq!(node.match_index(), &vec![5, 0, 0]);
}

#[test]
fn a_leader_steps_down_before_a_higher_term() {
    let mut node = leader(0, 3);
    let reply = AppendEntriesReply { term: 3, success: false, first_index: 1 };
    assert_eq!(node.append_reply(1, 0, 0, &reply), AppendReplyOutcome::SteppedDown);
    assert_eq!(node.state(), State::Follower);
    assert_eq!(node.current_term(), 3);
    assert_eq!(node.vote_for(), -1);
    assert!(node.tick_heartbeat().is_none());
    assert_eq!(node.leader_commit(), None);
}

#[test]
fn the_leader_commits_what_the_middle_of_the_ranking_holds() {
    let mut node = leader(0, 3);
    for byte in 1..=4u8 {
        node.start(&vec![byte]);
    }
    assert_eq!(node.match_index(), &vec![4, 0, 0]);
    assert_eq!(node.leader_commit(), None);
    let reply = AppendEntriesReply { term: 1, success: true, first_index: 1 };
    node.append_reply(2, 0, 3, &reply);
    assert_eq!(node.match_index(), &vec![4, 0, 3]);
    assert_eq!(node.leader_commit(), Some(3));
    node.commit_to_index(3);
    assert_eq!(node.leader_commit(), None);
    node.append_reply(1, 0, 4, &reply);
    assert_eq!(node.leader_commit(), Some(4));
    let mut five = leader(4, 5);
    for byte in 1..=9u8 {
        five.start(&vec![byte]);
    }
    five.append_reply(0, 0, 7, &reply);
    five.append_reply(1, 0, 2, &reply);
    assert_eq!(five.match_index(), &vec![7, 2, 0, 0, 9]);
    assert_eq!(five.leader_commit(), Some(2));
    five.append_reply(3, 0, 5, &reply);
    assert_eq!(five.leader_commit(), Some(5));
}

#[test]
fn the_leader_commits_only_entries_of_its_own_term() {
    let mut node = follower_with_terms(&[1, 1]);
    node.campaign();
    assert_eq!(node.vote_reply(&granted(2)), VoteReplyOutcome::Elected);
    let reply = AppendEntriesReply { term: 2, success: true, first_index: 1 };
    node.append_reply(0, 0, 2, &reply);
    assert_eq!(node.match_index(), &vec![2, 2, 0]);
    assert_eq!(node.leader_commit(), None);
    node.start(&vec![9]);
    node.append_reply(0, 2, 1, &reply);
    assert_eq!(node.leader_commit(), Some(3));
}

#[test]
fn committed_entries_are_applied_in_order_without_gaps() {
    let mut node = follower_with_terms(&[1, 1, 2, 2]);
    let first = node.commit_to_index(2);
    assert_eq!(
        first,
        vec![
            ApplyMsg { valid: true, index: 1, term: 1, command: vec![1] },
            ApplyMsg { valid: true, index: 2, term: 1, command: vec![1] },
        ]
    );
    assert_eq!(node.commit_index(), 2);
    assert!(node.commit_to_index(1).is_empty());
    assert!(node.commit_to_index(2).is_empty());
    assert_eq!(node.commit_index(), 2);
    let rest = node.commit_to_index(100);
    assert_eq!(
        rest,
        vec![
            ApplyMsg { valid: true, index: 3, term: 2, command: vec![2] },
            ApplyMsg { valid: true, index: 4, term: 2, command: vec![2] },
        ]
    );
    assert_eq!(node.commit_index(), 4);
    assert!(node.commit_to_index(usize::MAX).is_empty());
    assert_eq!(node.commit_index(), 4);
}

#[test]
fn the_sentinel_is_never_applied() {
    let mut node = Raft::new(0, 3);
    assert!(node.commit_to_index(0).is_empty());
    assert!(node.commit_to_index(5).is_empty());
    assert_eq!(node.commit_index(), 0);
}

#[test]
fn a_follower_catches_up_and_applies_in_order() {
    let mut leader_node = leader(0, 3);
    for byte in [0x01u8, 0x02, 0x03] {
        leader_node.start(&vec![byte]);
    }
    let ok = AppendEntriesReply { term: 1, success: true, first_index: 1 };
    leader_node.append_reply(1, 0, 3, &ok);
    let target = leader_node.leader_commit().unwrap();
    assert_eq!(target, 3);
    assert_eq!(leader_node.commit_to_index(target).len(), 3);
    let mut late = Raft::new(2, 3);
    let mut request = leader_node.append_request(2);
    assert_eq!(request.leader_commit, 3);
    let outcome = late.append_entries(&mut request);
    assert_eq!(outcome.commit_to, Some(3));
    let applied = late.commit_to_index(outcome.commit_to.unwrap());
    assert_eq!(
        applied,
        vec![
            ApplyMsg { valid: true, index: 1, term: 1, command: vec![0x01] },
            ApplyMsg { valid: true, index: 2, term: 1, command: vec![0x02] },
            ApplyMsg { valid: true, index: 3, term: 1, command: vec![0x03] },
        ]
    );
}

#[test]
fn terms_and_commit_indices_never_decrease() {
    let mut node = Raft::new(1, 3);
    let mut term = node.current_term();
    let mut commit = node.commit_index();
    let mut check = |node: &Raft| {
        assert!(node.current_term() >= term);
        assert!(node.commit_index() >= commit);
        term = node.current_term();
        commit = node.commit_index();
    };
    node.campaign();
    check(&node);
    node.request_vote(&RequestVoteArgs {
        term: 0,
        candidate_id: 0,
        last_log_index: 0,
        last_log_term: 0,
    });
    check(&node);
    let mut args = AppendEntriesArgs {
        term: 3,
        leader_id: 0,
        prev_log_index: 0,
        prev_log_term: 0,
        entries: vec![entry(3, 1), entry(3, 2)],
        leader_commit: 2,
    };
    node.append_entries(&mut args);
    check(&node);
    node.commit_to_index(2);
    check(&node);
    node.commit_to_index(1);
    check(&node);
    let mut stale = AppendEntriesArgs {
        term: 2,
        leader_id: 0,
        prev_log_index: 0,
        prev_log_term: 0,
        entries: Vec::new(),
        leader_commit: 0,
    };
    node.append_entries(&mut stale);
    check(&node);
    node.vote_reply(&RequestVoteReply { term: 1, vote_granted: false });
    check(&node);
    node.append_reply(0, 0, 0, &AppendEntriesReply { term: 1, success: false, first_index: 0 });
    check(&node);
    assert_eq!(node.current_term(), 3);
    assert_eq!(node.commit_index(), 2);
}

#[test]
fn ranking_sorts_ascending() {
    assert_eq!(ranked(&vec![7, 2, 0, 0, 9]), vec![0, 0, 2, 7, 9]);
    assert_eq!(ranked(&vec![3, 1, 2]), vec![1, 2, 3]);
    assert_eq!(ranked(&vec![5]), vec![5]);
    assert_eq!(ranked(&Vec::new()), Vec::<usize>::new());
}

#[test]
fn the_election_timer_campaigns_only_when_it_ran_out() {
    assert!(Raft::tick_election(TimerEvent::Elapsed).campaign);
    assert!(!Raft::tick_election(TimerEvent::Reset).campaign);
    assert!(!Raft::tick_election(TimerEvent::Closed).campaign);
}

#[test]
fn election_timeouts_are_drawn_from_the_configured_range() {
    assert_eq!(HEARTBEAT_INTERVAL, 50);
    assert_eq!(MIN_TIMEOUT, 200);
    assert_eq!(MAX_TIMEOUT, 400);
    let draws: Vec<u64> =
        (0..400).map(|_| Raft::tick_election(TimerEvent::Reset).wait_ms).collect();
    assert!(draws.iter().all(|t| MIN_TIMEOUT <= *t && *t < MAX_TIMEOUT));
    assert!(draws.iter().any(|t| *t != draws[0]));
    assert!(draws.iter().any(|t| *t != MIN_TIMEOUT));
}
