use raft::{AppendReplyOutcome, ApplyMsg, LogEntry, Raft, State, VoteReplyOutcome};

/// A cluster in one process: the nodes, what each has handed to its host,
/// and which of them can be reached.
struct Net {
    nodes: Vec<Raft>,
    applied: Vec<Vec<ApplyMsg>>,
    up: Vec<bool>,
    leaders_seen: Vec<(u64, usize)>,
}

impl Net {
    fn new(size: usize) -> Net {
        Net {
            nodes: (0..size).map(|id| Raft::new(id as i32, size)).collect(),
            applied: (0..size).map(|_| Vec::new()).collect(),
            up: vec![true; size],
            leaders_seen: Vec::new(),
        }
    }

    fn note_leaders(&mut self) {
        for (id, node) in self.nodes.iter().enumerate() {
            if node.state() == State::Leader {
                self.leaders_seen.push((node.current_term(), id));
            }
        }
    }

    /// The election timer of `candidate` runs out; every peer that can be
    /// reached answers its request.
    fn campaign(&mut self, candidate: usize) -> bool {
        let request = self.nodes[candidate].campaign();
        for peer in 0..self.nodes.len() {
            if peer == candidate || !self.up[peer] {
                continue;
            }
            let reply = self.nodes[peer].request_vote(&request);
            self.nodes[candidate].vote_reply(&reply);
            self.note_leaders();
        }
        self.nodes[candidate].state() == State::Leader
    }

    /// One heartbeat of `leader`; every peer that can be reached answers.
    fn beat(&mut self, leader: usize) {
        let requests = match self.nodes[leader].tick_heartbeat() {
            Some(requests) => requests,
            None => return,
        };
        for (peer, mut args) in requests {
            if !self.up[peer] {
                continue;
            }
            let prev = args.prev_log_index;
            let num = args.entries.len();
            let outcome = self.nodes[peer].append_entries(&mut args);
            if let Some(index) = outcome.commit_to {
                let msgs = self.nodes[peer].commit_to_index(index);
                self.applied[peer].extend(msgs);
            }
            let answer = self.nodes[leader].append_reply(peer, prev, num, &outcome.reply);
            if answer == AppendReplyOutcome::Advanced {
                if let Some(index) = self.nodes[leader].leader_commit() {
                    let msgs = self.nodes[leader].commit_to_index(index);
                    self.applied[leader].extend(msgs);
                }
            }
            self.note_leaders();
        }
    }

    fn leaders(&self) -> Vec<usize> {
        (0..self.nodes.len()).filter(|id| self.nodes[*id].get_state().1).collect()
    }

    /// No term has had two leaders.
    fn check_one_leader_per_term(&self) {
        for (term, id) in &self.leaders_seen {
            for (other_term, other) in &self.leaders_seen {
                assert!(term != other_term || id == other);
            }
        }
    }

    /// Logs that hold an entry of one term at one index agree up to it.
    fn check_logs_match(&self) {
        for a in &self.nodes {
            for b in &self.nodes {
                let (x, y) = (a.log(), b.log());
                for i in 0..x.len().min(y.len()) {
                    if x[i].term == y[i].term {
                        assert_eq!(&x[..=i], &y[..=i]);
                    }
                }
            }
        }
    }

    /// Every node has applied the indices 1, 2, 3, ... in this order, and
    /// what two nodes applied at one index is the same.
    fn check_applied(&self) {
        for msgs in &self.applied {
            for (k, msg) in msgs.iter().enumerate() {
                assert!(msg.valid);
                assert_eq!(msg.index, k + 1);
            }
        }
        for a in &self.applied {
            for b in &self.applied {
                for k in 0..a.len().min(b.len()) {
                    assert_eq!(a[k], b[k]);
                }
            }
        }
    }

    fn check(&self) {
        self.check_one_leader_per_term();
        self.check_logs_match();
        self.check_applied();
    }
}

fn msg(index: usize, term: u64, byte: u8) -> ApplyMsg {
    ApplyMsg { valid: true, index, term, command: vec![byte] }
}

#[test]
fn three_nodes_elect_exactly_one_leader() {
    let mut net = Net::new(3);
    assert!(net.nodes.iter().all(|n| n.state() == State::Follower));
    assert!(net.campaign(1));
    net.beat(1);
    assert_eq!(net.leaders(), vec![1]);
    let term = net.nodes[1].current_term();
    assert!(term >= 1);
    assert!(net.nodes.iter().all(|n| n.current_term() == term));
    net.check();
}

#[test]
fn rivals_of_one_term_do_not_both_win() {
    let mut net = Net::new(3);
    let first = net.nodes[0].campaign();
    let second = net.nodes[1].campaign();
    assert_eq!(first.term, second.term);
    let from_two = net.nodes[2].request_vote(&first);
    assert!(from_two.vote_granted);
    let refused = net.nodes[2].request_vote(&second);
    assert!(!refused.vote_granted);
    let from_one = net.nodes[1].request_vote(&first);
    assert!(!from_one.vote_granted);
    let from_zero = net.nodes[0].request_vote(&second);
    assert!(!from_zero.vote_granted);
    net.nodes[1].vote_reply(&refused);
    net.nodes[1].vote_reply(&from_zero);
    net.nodes[0].vote_reply(&from_one);
    net.nodes[0].vote_reply(&from_two);
    net.note_leaders();
    assert_eq!(net.leaders(), vec![0]);
    net.check();
}

#[test]
fn a_submitted_command_is_applied_once_on_every_node() {
    let mut net = Net::new(3);
    assert!(net.campaign(0));
    net.beat(0);
    let term = net.nodes[0].current_term();
    assert_eq!(net.nodes[0].start(&vec![0xAA]), (1, term, true));
    for _ in 0..10 {
        net.beat(0);
    }
    for applied in &net.applied {
        assert_eq!(applied, &vec![msg(1, term, 0xAA)]);
    }
    net.check();
}

#[test]
fn an_isolated_follower_catches_up() {
    let mut net = Net::new(3);
    assert!(net.campaign(0));
    net.up[2] = false;
    for byte in [0x01u8, 0x02, 0x03] {
        net.nodes[0].start(&vec![byte]);
        net.beat(0);
    }
    net.beat(0);
    let expected = vec![msg(1, 1, 0x01), msg(2, 1, 0x02), msg(3, 1, 0x03)];
    assert_eq!(net.applied[0], expected);
    assert_eq!(net.applied[1], expected);
    assert!(net.applied[2].is_empty());
    net.up[2] = true;
    net.beat(0);
    net.beat(0);
    assert_eq!(net.applied[2], expected);
    net.check();
}

#[test]
fn a_new_leader_takes_over_after_a_failure() {
    let mut net = Net::new(3);
    assert!(net.campaign(0));
    let term = net.nodes[0].current_term();
    net.nodes[0].start(&vec![0x01]);
    net.beat(0);
    net.beat(0);
    assert_eq!(net.nodes[0].commit_index(), 1);
    net.up[0] = false;
    assert!(net.campaign(1));
    let later = net.nodes[1].current_term();
    assert!(later > term);
    assert_eq!(net.nodes[1].start(&vec![0x04]), (2, later, true));
    net.beat(1);
    net.beat(1);
    assert_eq!(net.applied[1], vec![msg(1, term, 0x01), msg(2, later, 0x04)]);
    assert_eq!(net.applied[2], vec![msg(1, term, 0x01), msg(2, later, 0x04)]);
    net.check();
}

#[test]
fn a_follower_with_a_stale_log_is_brought_back_in_line() {
    let mut net = Net::new(5);
    assert!(net.campaign(0));
    for peer in 1..5 {
        net.up[peer] = false;
    }
    net.nodes[0].start(&vec![0x11]);
    net.nodes[0].start(&vec![0x12]);
    net.beat(0);
    assert!(net.applied[0].is_empty());
    for peer in 1..5 {
        net.up[peer] = true;
    }
    net.up[0] = false;
    net.up[1] = false;
    assert!(net.campaign(2));
    assert_eq!(net.nodes[2].current_term(), 2);
    net.nodes[2].start(&vec![0x21]);
    net.beat(2);
    net.beat(2);
    assert_eq!(net.applied[2], vec![msg(1, 2, 0x21)]);
    net.check();
    net.up[0] = true;
    net.up[1] = true;
    net.beat(0);
    net.beat(2);
    net.beat(2);
    assert_eq!(net.nodes[0].state(), State::Follower);
    let expected = vec![
        LogEntry { term: 0, command: vec![] },
        LogEntry { term: 2, command: vec![0x21] },
    ];
    for node in &net.nodes {
        assert_eq!(node.log(), &expected);
    }
    for applied in &net.applied {
        assert_eq!(applied, &vec![msg(1, 2, 0x21)]);
    }
    net.check();
}

#[test]
fn a_later_leader_holds_what_was_committed() {
    let mut net = Net::new(5);
    assert!(net.campaign(4));
    for byte in 1..=6u8 {
        net.nodes[4].start(&vec![byte]);
    }
    net.up[0] = false;
    net.up[1] = false;
    net.beat(4);
    net.beat(4);
    let committed: Vec<LogEntry> = net.nodes[4].log()[..=net.nodes[4].commit_index()].to_vec();
    assert_eq!(committed.len(), 7);
    net.up[0] = true;
    net.up[1] = true;
    net.up[4] = false;
    assert!(!net.campaign(0));
    assert!(net.campaign(3));
    assert!(net.nodes[3].current_term() > 1);
    assert_eq!(&net.nodes[3].log()[..committed.len()], &committed[..]);
    net.nodes[3].start(&vec![0x77]);
    for _ in 0..3 {
        net.beat(3);
    }
    for id in 0..4 {
        assert_eq!(net.applied[id].len(), 7);
        assert_eq!(&net.nodes[id].log()[..committed.len()], &committed[..]);
    }
    net.check();
}

#[test]
fn a_leader_backs_off_until_the_logs_meet() {
    let mut net = Net::new(3);
    assert!(net.campaign(0));
    net.up[2] = false;
    for byte in 1..=15u8 {
        net.nodes[0].start(&vec![byte]);
        net.beat(0);
    }
    net.up[0] = false;
    net.up[2] = true;
    assert!(net.campaign(1));
    assert_eq!(net.nodes[1].next_index(), &vec![16, 16, 16]);
    net.up[0] = true;
    net.beat(1);
    assert_eq!(net.nodes[1].next_index()[2], 1);
    net.beat(1);
    assert_eq!(net.nodes[2].log().len(), 11);
    net.beat(1);
    assert_eq!(net.nodes[2].log().len(), 16);
    assert_eq!(net.nodes[2].log(), net.nodes[1].log());
    net.check();
}

#[test]
fn many_elections_and_commands_keep_the_cluster_safe() {
    let mut net = Net::new(5);
    let mut byte = 0u8;
    for round in 0..40usize {
        let candidate = (round * 7 + 3) % 5;
        for id in 0..5 {
            net.up[id] = (id + round) % 4 != 0 || id == candidate;
        }
        if net.campaign(candidate) {
            for _ in 0..(round % 3 + 1) {
                byte = byte.wrapping_add(1);
                let (_, _, is_leader) = net.nodes[candidate].start(&vec![byte]);
                assert!(is_leader);
                net.beat(candidate);
            }
        }
        for leader in net.leaders() {
            net.beat(leader);
        }
        net.check();
    }
    assert!(net.applied.iter().any(|a| a.len() > 10));
}

/// `candidate` campaigns and the peers in `voters` answer, in this order.
fn elect(nodes: &mut Vec<Raft>, candidate: usize, voters: &[usize]) -> VoteReplyOutcome {
    let request = nodes[candidate].campaign();
    let mut last = VoteReplyOutcome::Dropped;
    for voter in voters {
        let reply = nodes[*voter].request_vote(&request);
        last = nodes[candidate].vote_reply(&reply);
    }
    last
}

/// `leader` sends a heartbeat and the peers in `peers` take their requests
/// and answer.
fn replicate(nodes: &mut Vec<Raft>, leader: usize, peers: &[usize]) {
    let requests = nodes[leader].tick_heartbeat().unwrap();
    for (peer, mut args) in requests {
        if peers.contains(&peer) {
            let (prev, num) = (args.prev_log_index, args.entries.len());
            let outcome = nodes[peer].append_entries(&mut args);
            nodes[leader].append_reply(peer, prev, num, &outcome.reply);
        }
    }
}

#[test]
fn a_request_that_arrives_late_can_undo_what_the_leader_counted() {
    let mut nodes: Vec<Raft> = (0..3).map(|id| Raft::new(id, 3)).collect();
    assert_eq!(elect(&mut nodes, 0, &[1]), VoteReplyOutcome::Elected);
    nodes[0].start(&vec![1]);
    let mut early = nodes[0].tick_heartbeat().unwrap().remove(0).1;
    assert_eq!(early.entries.len(), 1);
    nodes[0].start(&vec![2]);
    replicate(&mut nodes, 0, &[1]);
    assert_eq!(nodes[1].log().len(), 3);
    assert_eq!(nodes[0].leader_commit(), Some(2));
    let outcome = nodes[1].append_entries(&mut early);
    assert!(outcome.reply.success);
    assert_eq!(nodes[1].log().len(), 2);
    assert_eq!(elect(&mut nodes, 1, &[2]), VoteReplyOutcome::Elected);
    assert!(nodes[1].current_term() > nodes[0].current_term());
    assert_eq!(nodes[1].last_index(), 1);
}

#[test]
fn an_answer_that_arrives_after_a_change_of_office_can_be_counted_wrongly() {
    let mut nodes: Vec<Raft> = (0..5).map(|id| Raft::new(id, 5)).collect();
    assert_eq!(elect(&mut nodes, 0, &[1, 2]), VoteReplyOutcome::Elected);
    for byte in [1u8, 2, 3] {
        nodes[0].start(&vec![byte]);
    }
    let mut to_one = nodes[0].tick_heartbeat().unwrap().remove(0).1;
    let late = nodes[1].append_entries(&mut to_one).reply;
    assert!(late.success);
    assert_eq!(nodes[1].log().len(), 4);

    assert_eq!(elect(&mut nodes, 2, &[3, 4]), VoteReplyOutcome::Elected);
    assert_eq!(nodes[2].current_term(), 2);
    nodes[2].start(&vec![9]);
    replicate(&mut nodes, 2, &[0, 1, 3, 4]);
    assert_eq!(nodes[0].state(), State::Follower);
    assert_eq!(nodes[0].log().len(), 2);
    assert_eq!(nodes[1].log().len(), 2);

    assert_eq!(elect(&mut nodes, 0, &[3, 4]), VoteReplyOutcome::Elected);
    assert_eq!(nodes[0].current_term(), 3);
    nodes[0].start(&vec![7]);
    nodes[0].start(&vec![8]);
    replicate(&mut nodes, 0, &[3]);
    assert_eq!(nodes[0].match_index(), &vec![3, 0, 0, 3, 0]);
    assert_eq!(nodes[0].leader_commit(), None);
    assert_eq!(nodes[0].append_reply(1, 0, 3, &late), AppendReplyOutcome::Advanced);
    assert_eq!(nodes[0].match_index(), &vec![3, 3, 0, 3, 0]);
    assert_eq!(nodes[0].leader_commit(), Some(3));
    assert_eq!(nodes[1].log().len(), 2);

    elect(&mut nodes, 1, &[2, 3, 4]);
    assert_eq!(nodes[1].state(), State::Candidate);
    assert_eq!(nodes[1].current_term(), 3);
    assert_eq!(nodes[1].voted_cnt(), 1);
    assert_eq!(elect(&mut nodes, 1, &[2, 4]), VoteReplyOutcome::Elected);
    assert_eq!(nodes[1].current_term(), 4);
    assert_eq!(nodes[1].last_index(), 1);
}
