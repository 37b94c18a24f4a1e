use raft_kv::storage::{
    draft_file_name, load_node, load_node_with_state_machine, needs_save, save_node, DurableState,
};
use raft_kv::{Command, LogEntry, MemoryStateMachine, Node, Role};

fn entry(term: u64, key: &str, value: &str) -> LogEntry {
    LogEntry { term, command: Command::Put { key: key.to_string(), value: value.to_string() } }
}

#[test]
fn save_and_load_restores_term_vote_log_and_state_machine() {
    let node = Node::from_parts(0, vec![1, 2], 4, Some(2), vec![entry(4, "foo", "bar")], 1);
    let state = save_node(&node);
    let loaded = load_node(Some(state), 0, vec![1, 2]);

    assert_eq!(loaded.current_term(), 4);
    assert_eq!(loaded.voted_for(), Some(2));
    assert_eq!(loaded.log(), node.log());
    assert_eq!(loaded.get("foo"), Some("bar".to_string()));
}

#[test]
fn without_saved_state_a_node_starts_fresh() {
    let node = load_node(None, 3, vec![0, 1]);
    assert_eq!(node.id(), 3);
    assert_eq!(node.peers(), [0, 1]);
    assert_eq!(node.role(), Role::Follower);
    assert_eq!(node.current_term(), 0);
    assert_eq!(node.voted_for(), None);
    assert!(node.log().is_empty());
    assert_eq!(node.commit_index(), 0);
}

#[test]
fn a_commit_index_past_the_log_is_cut() {
    let state = DurableState {
        current_term: 2,
        voted_for: None,
        log: vec![entry(1, "a", "1"), entry(2, "b", "2")],
        commit_index: 9,
    };
    let node = load_node(Some(state), 0, vec![1]);
    assert_eq!(node.commit_index(), 2);
    assert_eq!(node.last_applied(), 2);
    assert_eq!(node.get("b"), Some("2".to_string()));
}

#[test]
fn a_machine_that_is_ahead_applies_only_the_rest() {
    let first = Node::from_parts(0, vec![1], 1, None, vec![entry(1, "a", "1")], 1);
    assert_eq!(first.get("a"), Some("1".to_string()));
    let log = vec![entry(1, "a", "1"), entry(1, "a", "2")];
    let state = DurableState { current_term: 1, voted_for: None, log, commit_index: 1 };
    let node = load_node_with_state_machine(Some(state), 0, vec![1], MemoryStateMachine::new());
    assert_eq!(node.commit_index(), 1);
    assert_eq!(node.last_applied(), 1);
    assert_eq!(node.get("a"), Some("1".to_string()));
}

#[test]
fn every_part_of_the_state_is_watched() {
    let log = vec![entry(1, "a", "1"), entry(1, "b", "2")];
    let node = Node::from_parts(0, vec![1], 1, Some(0), log.clone(), 1);
    let saved = |term, vote, log: Vec<LogEntry>, commit| DurableState {
        current_term: term,
        voted_for: vote,
        log,
        commit_index: commit,
    };
    assert!(!needs_save(&node, &DurableState::from_node(&node)));
    assert!(!needs_save(&node, &saved(1, Some(0), log.clone(), 1)));
    assert!(needs_save(&node, &saved(2, Some(0), log.clone(), 1)));
    assert!(needs_save(&node, &saved(1, None, log.clone(), 1)));
    assert!(needs_save(&node, &saved(1, Some(0), log.clone(), 2)));
    assert!(needs_save(&node, &saved(1, Some(0), log[..1].to_vec(), 1)));
    let other = vec![entry(1, "a", "1"), entry(1, "b", "3")];
    assert!(needs_save(&node, &saved(1, Some(0), other, 1)));
}

#[test]
fn drafts_are_hidden_files() {
    assert_eq!(draft_file_name(Some("node.bin")), ".node.bin.tmp");
    assert_eq!(draft_file_name(None), ".state.bin.tmp");
}
