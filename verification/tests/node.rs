use raft_kv::{
    AppendEntries, AppendEntriesReply, ClientRequest, Command, LogEntry, MemoryStateMachine,
    Message, Node, RequestVote, RequestVoteReply, Role, Rpc, StateMachine, StateMachineError,
};

fn put(key: &str, value: &str) -> Command {
    Command::Put { key: key.to_string(), value: value.to_string() }
}

fn set(key: &str, value: &str) -> ClientRequest {
    ClientRequest::Put { key: key.to_string(), value: value.to_string() }
}

fn entry(term: u64, command: Command) -> LogEntry {
    LogEntry { term, command }
}

fn ask_vote(term: u64, candidate_id: usize, last_log_index: usize, last_log_term: u64) -> Rpc {
    Rpc::RequestVote(RequestVote { term, candidate_id, last_log_index, last_log_term })
}

fn vote(term: u64, vote_granted: bool) -> Rpc {
    Rpc::RequestVoteReply(RequestVoteReply { term, vote_granted })
}

fn append(term: u64, prev: (usize, u64), entries: Vec<LogEntry>, leader_commit: usize) -> Rpc {
    Rpc::AppendEntries(AppendEntries {
        term,
        leader_id: 1,
        prev_log_index: prev.0,
        prev_log_term: prev.1,
        entries,
        leader_commit,
    })
}

fn appended(term: u64, success: bool, match_index: usize) -> Rpc {
    Rpc::AppendEntriesReply(AppendEntriesReply { term, success, match_index })
}

/// Hands a node a message of node 1 and gives its only answer.
fn answer(node: &mut Node, rpc: Rpc, now_ms: u64) -> Rpc {
    assert!(node.tolerates(&rpc));
    let mut messages = node.handle_message(1, rpc, now_ms);
    assert_eq!(messages.len(), 1);
    assert_eq!((messages[0].from, messages[0].to), (node.id(), 1));
    messages.remove(0).rpc
}

/// A leader of term 1 in a cluster of three, with its opening entry in the log.
fn leader() -> Node {
    let mut node = Node::new(0, vec![1, 2]);
    let requests = node.tick(300);
    assert_eq!(requests.len(), 2);
    let messages = node.handle_message(1, vote(1, true), 300);
    assert_eq!(messages.len(), 2);
    node
}

#[test]
fn a_silent_follower_campaigns() {
    let mut node = Node::new(0, vec![1, 2]);
    assert!(node.tick(149).is_empty());
    let messages = node.tick(300);
    assert_eq!(node.role(), Role::Candidate);
    assert_eq!(node.role_label(), "candidate");
    assert_eq!(node.current_term(), 1);
    assert_eq!(node.voted_for(), Some(0));
    let expected: Vec<Message> = [1, 2]
        .iter()
        .map(|to| Message { from: 0, to: *to, rpc: ask_vote(1, 0, 0, 0) })
        .collect();
    assert_eq!(messages, expected);
}

#[test]
fn a_majority_makes_a_leader() {
    let mut node = Node::new(0, vec![1, 2, 3, 4]);
    node.tick(300);
    assert!(node.handle_message(1, vote(1, false), 301).is_empty());
    assert!(node.handle_message(2, vote(0, true), 301).is_empty());
    assert!(node.handle_message(2, vote(1, true), 301).is_empty());
    assert_eq!(node.role(), Role::Candidate);
    let messages = node.handle_message(3, vote(1, true), 301);
    assert_eq!(node.role(), Role::Leader);
    assert_eq!(node.role_label(), "leader");
    assert_eq!(node.leader_id(), Some(0));
    assert_eq!(node.log(), [entry(1, Command::Noop)]);
    assert_eq!(messages.len(), 4);
    // A node follows a leader with the entries from its next index on.
    assert_eq!(messages[0].rpc, {
        Rpc::AppendEntries(AppendEntries {
            term: 1,
            leader_id: 0,
            prev_log_index: 1,
            prev_log_term: 1,
            entries: vec![],
            leader_commit: 0,
        })
    });
}

#[test]
fn a_node_alone_campaigns_in_vain() {
    let mut node = Node::new(0, vec![]);
    assert!(node.tick(300).is_empty());
    assert_eq!(node.role(), Role::Candidate);
}

#[test]
fn one_vote_per_term() {
    let mut node = Node::new(0, vec![1, 2]);
    assert_eq!(answer(&mut node, ask_vote(1, 1, 0, 0), 10), vote(1, true));
    assert_eq!(node.voted_for(), Some(1));
    assert_eq!(answer(&mut node, ask_vote(1, 2, 0, 0), 11), vote(1, false));
    assert_eq!(answer(&mut node, ask_vote(1, 1, 0, 0), 12), vote(1, true));
    assert_eq!(answer(&mut node, ask_vote(0, 1, 9, 9), 13), vote(1, false));
    assert_eq!(answer(&mut node, ask_vote(2, 2, 0, 0), 14), vote(2, true));
}

#[test]
fn only_up_to_date_logs_get_a_vote() {
    let log = vec![entry(1, Command::Noop), entry(2, Command::Noop)];
    let fresh = || Node::from_parts(0, vec![1, 2], 2, None, log.clone(), 0);
    for (index, term, granted) in
        [(2, 2, true), (3, 2, true), (1, 2, false), (9, 1, false), (1, 3, true)]
    {
        let mut node = fresh();
        assert_eq!(answer(&mut node, ask_vote(3, 1, index, term), 10), vote(3, granted));
        assert_eq!(node.voted_for(), if granted { Some(1) } else { None });
        assert_eq!(node.current_term(), 3);
    }
}

#[test]
fn entries_are_taken_where_the_log_matches() {
    let mut node = Node::new(0, vec![1, 2]);
    let first = vec![entry(1, put("a", "1")), entry(1, put("b", "2"))];
    assert_eq!(answer(&mut node, append(1, (0, 0), first.clone(), 1), 10), appended(1, true, 2));
    assert_eq!(node.log(), first);
    assert_eq!(node.leader_id(), Some(1));
    assert_eq!(node.commit_index(), 1);
    assert_eq!(node.last_applied(), 1);
    assert_eq!(node.get("a"), Some("1".to_string()));
    assert_eq!(node.get("b"), None);
    // A gap, and another term in the place before.
    assert_eq!(answer(&mut node, append(1, (3, 1), vec![], 9), 11), appended(1, false, 2));
    assert_eq!(answer(&mut node, append(2, (2, 2), vec![], 9), 11), appended(2, false, 2));
    // An older term.
    assert_eq!(answer(&mut node, append(1, (0, 0), vec![], 9), 11), appended(2, false, 2));
    // A conflicting entry cuts the log; what matches stays.
    let conflict = vec![entry(1, put("a", "1")), entry(2, put("b", "3"))];
    assert_eq!(answer(&mut node, append(2, (0, 0), conflict.clone(), 9), 12), appended(2, true, 2));
    assert_eq!(node.log(), conflict);
    assert_eq!(node.commit_index(), 2);
    assert_eq!(node.get("b"), Some("3".to_string()));
    // An empty append keeps what follows.
    assert_eq!(answer(&mut node, append(2, (1, 1), vec![], 0), 13), appended(2, true, 1));
    assert_eq!(node.log(), conflict);
    assert_eq!(node.commit_index(), 2);
}

#[test]
fn a_leader_commits_with_a_majority() {
    let mut node = leader();
    assert!(!node.can_serve_reads());
    let (reply, messages) = node.handle_client_request(set("k", "v"));
    assert!(reply.success);
    assert_eq!(reply.leader_id, Some(0));
    assert_eq!(reply.response, Some("accepted".to_string()));
    assert_eq!(messages.len(), 2);
    assert_eq!(node.last_log_index(), 2);
    assert_eq!(node.commit_index(), 0);
    assert_eq!(node.replication_lag_by_peer(), [(1, 0), (2, 0)]);
    assert!(node.handle_message(1, appended(1, true, 2), 310).is_empty());
    assert_eq!(node.commit_index(), 2);
    assert_eq!(node.last_applied(), 2);
    assert!(node.can_serve_reads());
    assert_eq!(node.replication_lag_by_peer(), [(1, 0), (2, 2)]);
    let (reply, messages) = node.handle_client_request(ClientRequest::Get { key: "k".into() });
    assert!(reply.success && messages.is_empty());
    assert_eq!(reply.response, Some("v".to_string()));
}

#[test]
fn entries_of_earlier_terms_are_not_counted() {
    let log = vec![entry(1, put("a", "1"))];
    let mut node = Node::from_parts(0, vec![1, 2], 1, None, log, 0);
    node.tick(300);
    node.handle_message(1, vote(2, true), 300);
    assert_eq!(node.role(), Role::Leader);
    node.handle_message(1, appended(2, true, 1), 301);
    assert_eq!(node.commit_index(), 0);
    node.handle_message(1, appended(2, true, 2), 302);
    assert_eq!(node.commit_index(), 2);
}

#[test]
fn a_refused_append_is_tried_further_back() {
    let mut node = leader();
    node.handle_client_request(set("k", "v"));
    let messages = node.handle_message(2, appended(1, false, 0), 310);
    assert_eq!(messages.len(), 1);
    match &messages[0].rpc {
        Rpc::AppendEntries(request) => {
            assert_eq!((request.prev_log_index, request.prev_log_term), (0, 0));
            assert_eq!(request.entries, node.log());
        }
        other => panic!("{other:?}"),
    }
}

#[test]
fn a_leader_sends_heartbeats() {
    let mut node = leader();
    assert!(node.tick(349).is_empty());
    assert_eq!(node.tick(350).len(), 2);
    assert!(node.tick(399).is_empty());
    assert_eq!(node.tick(400).len(), 2);
}

#[test]
fn a_higher_term_unseats_a_leader() {
    for rpc in [vote(5, false), appended(5, false, 0)] {
        let mut node = leader();
        assert!(node.handle_message(1, rpc, 310).is_empty());
        assert_eq!(node.role(), Role::Follower);
        assert_eq!(node.role_label(), "follower");
        assert_eq!(node.current_term(), 5);
        assert_eq!(node.voted_for(), None);
        assert!(node.replication_lag_by_peer().is_empty());
    }
}

#[test]
fn followers_name_their_leader() {
    let mut node = Node::new(0, vec![1, 2]);
    answer(&mut node, append(1, (0, 0), vec![entry(1, put("k", "v"))], 1), 10);
    for request in [set("k", "w"), ClientRequest::Get { key: "k".into() }] {
        let (reply, messages) = node.handle_client_request(request);
        assert!(!reply.success && messages.is_empty());
        assert_eq!(reply.leader_id, Some(1));
        assert_eq!(reply.response, None);
    }
    let local = ClientRequest::LocalGet { key: "k".into() };
    let (reply, _) = node.handle_client_request(local);
    assert!(reply.success);
    assert_eq!(reply.leader_id, Some(1));
    assert_eq!(reply.response, Some("v".to_string()));
}

#[test]
fn writes_are_followed_to_their_commit() {
    let mut node = leader();
    let (write, messages) = node.start_client_write(set("k", "v")).unwrap();
    assert_eq!((write.index, write.term), (2, 1));
    assert_eq!(messages.len(), 2);
    assert!(!node.write_committed_and_applied(write));
    node.handle_message(1, appended(1, true, 2), 310);
    assert!(node.write_committed_and_applied(write));
    let read = node.start_client_write(ClientRequest::Get { key: "k".into() }).unwrap_err();
    assert!(!read.success);
    let mut follower = Node::new(0, vec![1]);
    let refusal = follower.start_client_write(set("k", "v")).unwrap_err();
    assert!(!refusal.success);
    assert!(follower.log().is_empty());
}

#[test]
fn terms_of_log_places() {
    let log = vec![entry(1, Command::Noop), entry(3, Command::Noop)];
    let node = Node::from_parts(4, vec![1], 3, None, log, 0);
    assert_eq!(node.id(), 4);
    assert_eq!(node.peers(), [1]);
    assert_eq!(node.term_at(0), Some(0));
    assert_eq!(node.term_at(1), Some(1));
    assert_eq!(node.term_at(2), Some(3));
    assert_eq!(node.term_at(3), None);
}

#[test]
fn timeouts_differ_between_nodes_and_stay_in_bounds() {
    let mut deadlines = Vec::new();
    for id in 0..5 {
        let mut node = Node::new(id, vec![7, 8]);
        let mut now = 0;
        while node.role() == Role::Follower {
            now += 1;
            node.tick(now);
        }
        assert!((150..=300).contains(&now));
        deadlines.push(now);
    }
    deadlines.dedup();
    assert!(deadlines.len() > 1);
}

#[test]
fn machines_apply_in_order() {
    let mut machine = MemoryStateMachine::new();
    assert_eq!(machine.last_applied(), 0);
    assert_eq!(machine.apply(2, &put("a", "1")), Err(StateMachineError::IndexGap));
    machine.apply(1, &put("a", "1")).unwrap();
    machine.apply(1, &put("a", "2")).unwrap();
    assert_eq!(machine.get("a"), Ok(Some("1".to_string())));
    machine.apply(2, &Command::Delete { key: "a".into() }).unwrap();
    assert_eq!(machine.get("a"), Ok(None));
    machine.apply(3, &Command::Noop).unwrap();
    assert_eq!(machine.last_applied(), 3);
    assert_eq!(MemoryStateMachine::default().last_applied(), 0);
}

/// A machine whose storage fails from some index on.
#[derive(Debug)]
struct Failing {
    inner: MemoryStateMachine,
    from: usize,
}

impl StateMachine for Failing {
    fn apply(&mut self, index: usize, command: &Command) -> Result<(), StateMachineError> {
        if index >= self.from {
            return Err(StateMachineError::Storage);
        }
        self.inner.apply(index, command)
    }

    fn get(&self, key: &str) -> Result<Option<String>, StateMachineError> {
        if key == "broken" {
            return Err(StateMachineError::Storage);
        }
        self.inner.get(key)
    }

    fn last_applied(&self) -> usize {
        self.inner.last_applied()
    }
}

#[test]
fn a_failing_machine_falls_behind() {
    let machine = Failing { inner: MemoryStateMachine::new(), from: 2 };
    let log = vec![entry(1, put("a", "1")), entry(1, put("b", "2"))];
    let node = Node::from_parts_with_state_machine(0, vec![1, 2], 1, None, log, 2, machine);
    assert_eq!(node.commit_index(), 2);
    assert_eq!(node.last_applied(), 1);
    assert_eq!(node.get("a"), Some("1".to_string()));
    assert_eq!(node.get("broken"), None);
    assert_eq!(node.state_machine().from, 2);
    // The second entry is still to be applied: it must not be cut off.
    assert!(!node.tolerates(&append(2, (0, 0), vec![entry(2, Command::Noop)], 0)));
    assert!(node.tolerates(&append(2, (2, 1), vec![], 0)));
    let fresh = Node::new_with_state_machine(
        0,
        vec![1],
        Failing { inner: MemoryStateMachine::new(), from: 9 },
    );
    assert_eq!(fresh.last_applied(), 0);
}

#[test]
fn a_repeated_append_changes_nothing_more() {
    let mut node = Node::new(0, vec![1, 2]);
    answer(&mut node, append(1, (0, 0), vec![entry(1, put("a", "0"))], 0), 5);
    let entries = vec![entry(1, put("a", "0")), entry(2, put("a", "1")), entry(2, put("b", "2"))];
    let request = || append(2, (0, 0), entries.clone(), 2);
    let first = answer(&mut node, request(), 10);
    assert_eq!(first, appended(2, true, 3));
    for now_ms in [10, 11, 400] {
        assert_eq!(answer(&mut node, request(), now_ms), first);
        assert_eq!(node.log(), entries);
        assert_eq!((node.commit_index(), node.last_applied()), (2, 2));
        assert_eq!((node.current_term(), node.role()), (2, Role::Follower));
        assert_eq!((node.voted_for(), node.leader_id()), (None, Some(1)));
        assert_eq!(node.get("a"), Some("1".to_string()));
        assert_eq!(node.get("b"), None);
    }
}

#[test]
fn reads_wait_for_the_first_entry_of_the_term() {
    let mut node = Node::new(0, vec![1, 2]);
    let entries = vec![entry(1, put("a", "1")), entry(1, put("b", "2"))];
    answer(&mut node, append(1, (0, 0), entries, 1), 10);
    node.tick(400);
    node.handle_message(1, vote(2, true), 401);
    assert_eq!((node.role(), node.current_term()), (Role::Leader, 2));
    let first = (1..=node.log().len()).find(|index| node.term_at(*index) == Some(2)).unwrap();
    assert_eq!(first, 3);
    for (match_index, ready) in [(2, false), (3, true)] {
        node.handle_message(1, appended(2, true, match_index), 410);
        assert_eq!(node.can_serve_reads(), ready);
        assert_eq!(node.can_serve_reads(), node.commit_index() >= first);
        assert_eq!(node.last_applied(), node.commit_index());
    }
}
