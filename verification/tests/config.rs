use raft_kv::client::{
    parse_call, pause_ms, ClientError, Redirect, RedirectStep, MAX_ATTEMPTS, RETRY_PAUSE_MS,
};
use raft_kv::config::{lsm_dir_name, metrics_port, Config, ConfigError};
use raft_kv::{ClientReply, ClientRequest};

fn words(text: &str) -> Vec<String> {
    text.split(' ').map(str::to_string).collect()
}

#[test]
fn a_node_is_configured_by_its_arguments() {
    let config =
        Config::from_args(&words("raft-node 1 data/n1.bin 0=host:7000 1=host:7001 2=host:7002"))
            .unwrap();
    assert_eq!(config.id, 1);
    assert_eq!(config.state_path, "data/n1.bin");
    assert_eq!(config.peer_ids(), [0, 2]);
    assert_eq!(config.address(1), Some("host:7001"));
    assert_eq!(config.address(3), None);
}

#[test]
fn a_later_address_of_a_peer_counts() {
    let config = Config::from_args(&words("raft-node 0 s 0=a 1=b 1=c=d")).unwrap();
    assert_eq!(config.peer_ids(), [1]);
    assert_eq!(config.address(1), Some("c=d"));
}

#[test]
fn bad_node_arguments_are_refused() {
    let error = |text: &str| Config::from_args(&words(text)).unwrap_err();
    assert_eq!(error("raft-node 1 state 1=a"), ConfigError::Usage);
    assert_eq!(error("raft-node x state 1=a 2=b"), ConfigError::InvalidNodeId);
    assert_eq!(error("raft-node -1 state 1=a 2=b"), ConfigError::InvalidNodeId);
    assert_eq!(error("raft-node 1 state 1=a 2:b"), ConfigError::PeerForm);
    assert_eq!(error("raft-node 1 state 1=a x=b"), ConfigError::InvalidPeerId);
    assert_eq!(error("raft-node 3 state 1=a 2=b"), ConfigError::MissingSelf);
    assert_eq!(
        ConfigError::Usage.message(),
        "usage: raft-node <id> <state-file> <id=addr>..."
    );
    assert_eq!(ConfigError::InvalidNodeId.message(), "invalid node id");
    assert_eq!(ConfigError::PeerForm.message(), "peer must be id=addr");
    assert_eq!(ConfigError::InvalidPeerId.message(), "invalid peer id");
    assert_eq!(ConfigError::MissingSelf.message(), "missing self address");
}

#[test]
fn places_follow_from_the_configuration() {
    assert_eq!(metrics_port(7000), Some(8000));
    assert_eq!(metrics_port(64535), Some(65535));
    assert_eq!(metrics_port(64536), None);
    assert_eq!(lsm_dir_name(Some("n1.bin")), "n1.bin.lsm");
    assert_eq!(lsm_dir_name(None), "node.bin.lsm");
}

#[test]
fn calls_of_clients() {
    let call = parse_call(&words("a:1 b:2 set k v")).unwrap();
    assert_eq!(call.peers, ["a:1", "b:2"]);
    assert_eq!(call.request, ClientRequest::Put { key: "k".into(), value: "v".into() });
    let call = parse_call(&words("a:1 get set")).unwrap();
    assert_eq!(call.peers, ["a:1"]);
    assert_eq!(call.request, ClientRequest::Get { key: "set".into() });
    let call = parse_call(&words("set k v")).unwrap();
    assert!(call.peers.is_empty());
}

#[test]
fn bad_client_arguments_are_refused() {
    let error = |text: &str| parse_call(&words(text)).unwrap_err();
    assert_eq!(error("a:1 get"), ClientError::NotEnoughArgs);
    assert_eq!(error("a:1 put k"), ClientError::NoCommand);
    assert_eq!(error("a:1 get k v"), ClientError::Usage);
    assert_eq!(error("a:1 b:1 set k"), ClientError::Usage);
    assert_eq!(ClientError::NotEnoughArgs.message(), "not enough args");
    assert_eq!(ClientError::NoCommand.message(), "command must be 'set' or 'get'");
    assert_eq!(
        ClientError::Usage.message(),
        "usage: raft-client <peer>... set <key> <value> | raft-client <peer>... get <key>"
    );
    assert_eq!(ClientError::NoLeader.message(), "no leader found after 10 attempts");
}

#[test]
fn every_peer_is_asked_in_turn() {
    let refusal = ClientReply { success: false, leader_id: Some(1), response: None };
    let mut redirect = Redirect::start(3);
    let mut asked = Vec::new();
    let mut step = redirect.current();
    while let RedirectStep::Ask(place) = step {
        asked.push(place);
        step = redirect.advance(if place == 1 { None } else { Some(&refusal) });
    }
    assert_eq!(step, RedirectStep::GiveUp);
    let expected: Vec<usize> = (0..MAX_ATTEMPTS).flat_map(|_| 0..3).collect();
    assert_eq!(asked, expected);
    assert_eq!(Redirect::start(0).current(), RedirectStep::GiveUp);
}

#[test]
fn a_success_ends_the_search() {
    let success = ClientReply { success: true, leader_id: Some(1), response: None };
    let mut redirect = Redirect::start(2);
    assert_eq!(redirect.advance(None), RedirectStep::Ask(1));
    assert_eq!(redirect.advance(Some(&success)), RedirectStep::Done);
    assert_eq!(pause_ms(None), RETRY_PAUSE_MS);
    assert_eq!(RETRY_PAUSE_MS, 20);
    assert_eq!(pause_ms(Some(&success)), 0);
}
