use raft_kv::net::WireMessage;
use raft_kv::observability::NodeMetrics;
use raft_kv::server::{
    group_messages, is_metrics_request, metrics_response, Action, Exchange, Runtime, TreeSizes,
    CLIENT_WRITE_TIMEOUT_MS, WRITE_POLL_MS,
};
use raft_kv::{
    AppendEntries, AppendEntriesReply, ClientReply, ClientRequest, Command, LogEntry,
    MemoryStateMachine, Message, Node, RequestVoteReply, Role, Rpc,
};

const SIZES: TreeSizes = TreeSizes { memtable_bytes: 11, sstable_count: 2, compactions: 1 };

fn runtime() -> Runtime<MemoryStateMachine> {
    Runtime::new(Node::new(0, vec![1, 2]), NodeMetrics::new(0))
}

fn peer(from: usize, rpc: Rpc) -> WireMessage {
    WireMessage::Peer(Message { from, to: 0, rpc })
}

fn vote() -> WireMessage {
    peer(1, Rpc::RequestVoteReply(RequestVoteReply { term: 1, vote_granted: true }))
}

fn appended(match_index: usize) -> WireMessage {
    peer(1, Rpc::AppendEntriesReply(AppendEntriesReply { term: 1, success: true, match_index }))
}

fn put(key: &str, value: &str) -> WireMessage {
    WireMessage::ClientRequest(ClientRequest::Put { key: key.into(), value: value.into() })
}

/// Runs an exchange that only saves and sends, and gives what is sent.
fn answer(
    runtime: &mut Runtime<MemoryStateMachine>,
    step: (Exchange, Action),
    saved: bool,
) -> Vec<Message> {
    let (exchange, action) = step;
    assert!(matches!(action, Action::Persist(_)));
    let (exchange, action) = runtime.resume_saved(exchange, saved, SIZES);
    let messages = match action {
        Action::Send(messages) => messages,
        other => panic!("{other:?}"),
    };
    let (_, action) = runtime.resume(exchange, 0, SIZES);
    assert!(matches!(action, Action::Finish));
    messages
}

fn leading() -> Runtime<MemoryStateMachine> {
    let mut runtime = runtime();
    let step = runtime.on_tick(300);
    assert_eq!(answer(&mut runtime, step, true).len(), 2);
    let step = runtime.on_message(vote(), 301);
    assert_eq!(answer(&mut runtime, step, true).len(), 2);
    assert_eq!(runtime.node().role(), Role::Leader);
    runtime
}

fn body(runtime: &Runtime<MemoryStateMachine>) -> String {
    runtime.metrics().render("").unwrap()
}

#[test]
fn a_tick_is_saved_before_it_is_sent() {
    let mut runtime = runtime();
    let (exchange, action) = runtime.on_tick(300);
    match action {
        Action::Persist(Some(state)) => {
            assert_eq!(state.current_term, 1);
            assert_eq!(state.voted_for, Some(0));
        }
        other => panic!("{other:?}"),
    }
    assert_eq!(answer(&mut runtime, (exchange, Action::Persist(None)), true).len(), 2);
    assert!(body(&runtime).contains("raft_elections_total{node=\"0\"} 1\n"));
    assert!(body(&runtime).contains("lsm_memtable_size_bytes{node=\"0\"} 11\n"));
    // Nothing changed since: nothing is to be saved.
    let (_, action) = runtime.on_tick(301);
    assert!(matches!(action, Action::Persist(None)));
}

#[test]
fn what_was_not_saved_is_saved_later() {
    let mut runtime = runtime();
    let step = runtime.on_tick(300);
    answer(&mut runtime, step, false);
    let (_, action) = runtime.on_tick(301);
    assert!(matches!(action, Action::Persist(Some(_))));
}

#[test]
fn a_write_is_answered_when_it_is_committed() {
    let mut runtime = leading();
    let (exchange, action) = runtime.on_message(put("k", "v"), 310);
    assert!(matches!(action, Action::Persist(Some(_))));
    let (exchange, action) = runtime.resume_saved(exchange, true, SIZES);
    match action {
        Action::Send(messages) => assert_eq!(messages.len(), 2),
        other => panic!("{other:?}"),
    }
    let (exchange, action) = runtime.resume(exchange, 5, SIZES);
    assert!(matches!(action, Action::Pause(WRITE_POLL_MS)));
    let step = runtime.on_message(appended(2), 312);
    answer(&mut runtime, step, true);
    let (_, action) = runtime.resume(exchange, 15, SIZES);
    match action {
        Action::Reply { reply, written } => {
            assert!(written);
            let expected = ClientReply {
                success: true,
                leader_id: Some(0),
                response: Some("committed".to_string()),
            };
            assert_eq!(reply, expected);
        }
        other => panic!("{other:?}"),
    }
    assert!(body(&runtime).contains("raft_writes_total{node=\"0\"} 1\n"));
}

#[test]
fn a_write_is_given_up_in_time() {
    let mut runtime = leading();
    let (exchange, _) = runtime.on_message(put("k", "v"), 310);
    let (exchange, _) = runtime.resume_saved(exchange, true, SIZES);
    let (exchange, action) = runtime.resume(exchange, CLIENT_WRITE_TIMEOUT_MS - 1, SIZES);
    assert!(matches!(action, Action::Pause(_)));
    let (_, action) = runtime.resume(exchange, CLIENT_WRITE_TIMEOUT_MS, SIZES);
    match action {
        Action::Reply { reply, written } => {
            assert!(!written && !reply.success);
            assert_eq!(reply.leader_id, Some(0));
        }
        other => panic!("{other:?}"),
    }
}

#[test]
fn a_write_is_lost_with_the_leadership() {
    let mut runtime = leading();
    let (exchange, _) = runtime.on_message(put("k", "v"), 310);
    let (exchange, _) = runtime.resume_saved(exchange, true, SIZES);
    let rpc = Rpc::AppendEntries(AppendEntries {
        term: 2,
        leader_id: 2,
        prev_log_index: 0,
        prev_log_term: 0,
        entries: vec![LogEntry { term: 2, command: Command::Noop }],
        leader_commit: 0,
    });
    assert!(runtime.node().tolerates(&rpc));
    let step = runtime.on_message(peer(2, rpc), 320);
    answer(&mut runtime, step, true);
    let (_, action) = runtime.resume(exchange, 20, SIZES);
    match action {
        Action::Reply { reply, written } => {
            assert!(!written && !reply.success);
            assert_eq!(reply.leader_id, Some(2));
        }
        other => panic!("{other:?}"),
    }
    assert!(body(&runtime).contains("raft_leader_changes_total{node=\"0\"} 2\n"));
}

#[test]
fn an_unsaved_write_is_refused() {
    let mut runtime = leading();
    let (exchange, _) = runtime.on_message(put("k", "v"), 310);
    let (_, action) = runtime.resume_saved(exchange, false, SIZES);
    match action {
        Action::Reply { reply, written } => {
            assert!(!written);
            assert_eq!(
                reply,
                ClientReply { success: false, leader_id: Some(0), response: None }
            );
        }
        other => panic!("{other:?}"),
    }
}

#[test]
fn a_follower_refuses_writes_at_once() {
    let mut runtime = runtime();
    let (_, action) = runtime.on_message(put("k", "v"), 10);
    match action {
        Action::Reply { reply, written } => assert!(!written && !reply.success),
        other => panic!("{other:?}"),
    }
}

#[test]
fn reads_are_answered_after_saving() {
    let mut runtime = leading();
    let step = runtime.on_message(appended(1), 302);
    answer(&mut runtime, step, true);
    for saved in [true, false] {
        let request = WireMessage::ClientRequest(ClientRequest::Get { key: "k".into() });
        let (exchange, action) = runtime.on_message(request, 303);
        assert!(matches!(action, Action::Persist(None)));
        let (exchange, action) = runtime.resume_saved(exchange, saved, SIZES);
        assert!(matches!(action, Action::Send(messages) if messages.is_empty()));
        match runtime.resume(exchange, 0, SIZES) {
            (_, Action::Reply { reply, written }) => {
                assert!(!written);
                assert_eq!(reply.success, saved);
                assert_eq!(reply.response, None);
            }
            other => panic!("{other:?}"),
        }
    }
}

#[test]
fn a_server_is_sent_no_replies() {
    let mut runtime = runtime();
    let reply = ClientReply { success: true, leader_id: None, response: None };
    let (_, action) = runtime.on_message(WireMessage::ClientReply(reply), 10);
    assert!(matches!(action, Action::Reject));
}

#[test]
fn messages_are_grouped_by_peer() {
    let message = |to: usize, term: u64| Message {
        from: 0,
        to,
        rpc: Rpc::RequestVoteReply(RequestVoteReply { term, vote_granted: false }),
    };
    let groups = group_messages(vec![message(2, 1), message(1, 2), message(2, 3)]);
    assert_eq!(groups.len(), 2);
    for (peer, messages) in groups {
        match peer {
            1 => assert_eq!(messages, [message(1, 2)]),
            2 => assert_eq!(messages, [message(2, 1), message(2, 3)]),
            _ => panic!("{peer}"),
        }
    }
    assert!(group_messages(Vec::new()).is_empty());
}

#[test]
fn metrics_are_served_over_http() {
    assert!(is_metrics_request(b"GET /metrics HTTP/1.1\r\n"));
    assert!(!is_metrics_request(b"GET /metricsx HTTP/1.1\r\n"));
    assert!(!is_metrics_request(b"POST /metrics "));
    assert!(!is_metrics_request(b"GET"));
    assert_eq!(
        metrics_response(Some("é\n")),
        "HTTP/1.1 200 OK\r\nContent-Type: text/plain; version=0.0.4; charset=utf-8\r\nContent-Length: 3\r\nConnection: close\r\n\r\né\n"
    );
    assert_eq!(
        metrics_response(None),
        "HTTP/1.1 404 Not Found\r\nContent-Type: text/plain; charset=utf-8\r\nContent-Length: 10\r\nConnection: close\r\n\r\nnot found\n"
    );
}

#[test]
fn every_election_is_counted() {
    let mut runtime = runtime();
    for (now_ms, elections) in [(300, 1), (301, 1), (900, 2), (901, 2), (1500, 3)] {
        let step = runtime.on_tick(now_ms);
        answer(&mut runtime, step, true);
        assert_eq!(runtime.node().role(), Role::Candidate);
        assert_eq!(runtime.node().current_term(), elections);
        let line = format!("raft_elections_total{{node=\"0\"}} {elections}\n");
        assert!(body(&runtime).contains(&line));
    }
}
