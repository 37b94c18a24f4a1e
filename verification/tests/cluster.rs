use raft_kv::{ClientRequest, Cluster, Role};

fn put(key: &str, value: &str) -> ClientRequest {
    ClientRequest::Put {
        key: key.to_string(),
        value: value.to_string(),
    }
}

#[test]
fn test_initial_election() {
    let mut cluster = Cluster::new(5);
    assert!(cluster.run_until(600, |cluster| cluster.leader().is_some()));
    let leader = cluster.leader().unwrap();
    let term = cluster.node(leader).current_term();
    assert!(term <= 2, "leader elected in term {term}");
    assert_eq!(
        cluster
            .nodes()
            .into_iter()
            .filter(|(_, node)| node.role() == Role::Leader)
            .count(),
        1
    );
}

#[test]
fn test_re_election() {
    let mut cluster = Cluster::new(5);
    assert!(cluster.run_until(600, |cluster| cluster.leader().is_some()));
    let old_leader = cluster.leader().unwrap();
    cluster.stop(old_leader);
    assert!(cluster.run_until(1000, |cluster| {
        cluster.leader().is_some_and(|leader| leader != old_leader)
    }));
}

#[test]
fn test_basic_agree() {
    let mut cluster = Cluster::new(5);
    assert!(cluster.run_until(600, |cluster| cluster.leader().is_some()));
    let leader = cluster.leader().unwrap();
    let reply = cluster.propose(leader, put("foo", "bar"));
    assert!(reply.success);
    assert!(cluster.run_until(1000, |cluster| {
        cluster
            .nodes()
            .into_iter()
            .all(|(_, node)| node.get("foo") == Some("bar".to_string()))
    }));
}

#[test]
fn test_fail_agree() {
    let mut cluster = Cluster::new(5);
    assert!(cluster.run_until(600, |cluster| cluster.leader().is_some()));
    cluster.run_for(200);
    let old_leader = cluster.leader().unwrap();
    let reply = cluster.propose(old_leader, put("foo", "bar"));
    assert!(reply.success);
    cluster.run_for(8);
    cluster.stop(old_leader);
    assert!(cluster.run_until(1100, |cluster| {
        cluster.leader().is_some_and(|leader| leader != old_leader)
    }));
    assert!(cluster.run_until(3000, |cluster| {
        cluster
            .nodes()
            .into_iter()
            .filter(|(id, _)| *id != old_leader)
            .all(|(_, node)| node.get("foo") == Some("bar".to_string()))
    }));
}

#[test]
fn test_fail_no_agree() {
    let mut cluster = Cluster::new(5);
    assert!(cluster.run_until(600, |cluster| cluster.leader().is_some()));
    cluster.run_for(200);
    let old_leader = cluster.leader().unwrap();
    let minority = vec![old_leader];
    let majority: Vec<_> = (0..5).filter(|&id| id != old_leader).collect();
    cluster.partition(&[minority, majority.clone()]);

    let reply = cluster.propose(old_leader, put("lost", "value"));
    assert!(reply.success);
    cluster.run_for(500);
    assert!(cluster.node(old_leader).get("lost").is_none());

    assert!(cluster.run_until(1200, |cluster| {
        majority
            .iter()
            .any(|&id| cluster.node(id).role() == Role::Leader)
    }));
    cluster.heal();
    assert!(cluster.run_until(2500, |cluster| {
        cluster
            .nodes()
            .into_iter()
            .filter(|(_, node)| node.id() != old_leader)
            .all(|(_, node)| node.get("lost").is_none())
    }));
}

#[test]
fn test_concurrent_starts() {
    let mut cluster = Cluster::new(5);
    assert!(cluster.run_until(600, |cluster| cluster.leader().is_some()));
    let leader = cluster.leader().unwrap();
    for index in 0..10 {
        let reply = cluster.propose(leader, put(&format!("k{index}"), &format!("v{index}")));
        assert!(reply.success);
    }
    assert!(cluster.run_until(2500, |cluster| (0..10).all(|index| {
        cluster
            .nodes()
            .into_iter()
            .all(|(_, node)| node.get(&format!("k{index}")) == Some(format!("v{index}")))
    })));
}

#[test]
fn test_rejoin() {
    let mut cluster = Cluster::new(5);
    assert!(cluster.run_until(600, |cluster| cluster.leader().is_some()));
    cluster.run_for(200);
    let isolated = (0..5).find(|&id| Some(id) != cluster.leader()).unwrap();
    let connected: Vec<_> = (0..5).filter(|&id| id != isolated).collect();
    cluster.partition(&[vec![isolated], connected]);
    let leader = cluster.leader().unwrap();
    let reply = cluster.propose(leader, put("after_partition", "ok"));
    assert!(reply.success);
    assert!(cluster.run_until(1500, |cluster| {
        cluster
            .nodes()
            .into_iter()
            .filter(|(id, _)| *id != isolated)
            .all(|(_, node)| node.get("after_partition") == Some("ok".to_string()))
    }));
    assert!(cluster.node(isolated).get("after_partition").is_none());

    cluster.heal();
    assert!(cluster.run_until(3000, |cluster| {
        cluster.node(isolated).get("after_partition") == Some("ok".to_string())
    }));
}

#[test]
fn leader_cannot_serve_stale_reads_before_noop_commits() {
    let mut cluster = Cluster::new(5);
    assert!(cluster.run_until(600, |cluster| cluster.leader().is_some()));
    let leader = cluster.leader().unwrap();
    // Immediately after election, reads might be rejected until a noop commits.
    let reply = cluster.propose(
        leader,
        ClientRequest::Get {
            key: "nonexistent".to_string(),
        },
    );
    // If the noop has not committed yet, reads are rejected with leader_id set.
    if !reply.success {
        assert_eq!(reply.leader_id, Some(leader));
    }
    // Drive the cluster forward so the noop commits.
    cluster.run_for(500);
    // Now reads must succeed.
    let reply2 = cluster.propose(
        leader,
        ClientRequest::Get {
            key: "nonexistent".to_string(),
        },
    );
    assert!(
        reply2.success,
        "leader should serve reads after noop commits"
    );
}

#[test]
fn committed_entries_are_in_the_logs_of_a_majority() {
    let mut cluster = Cluster::new(5);
    assert!(cluster.run_until(600, |cluster| cluster.leader().is_some()));
    let leader = cluster.leader().unwrap();
    cluster.stop((leader + 1) % 5);
    cluster.stop((leader + 2) % 5);
    for i in 0..5 {
        cluster.propose(leader, put(&format!("k{i}"), "v"));
    }
    let deadline = cluster.now() + 300;
    while cluster.now() < deadline {
        cluster.run_for(1);
        for (_, node) in cluster.nodes() {
            let committed = &node.log()[..node.commit_index()];
            let holders = cluster
                .nodes()
                .into_iter()
                .filter(|(_, other)| other.log().starts_with(committed))
                .count();
            assert!(holders >= 3);
        }
    }
    assert_eq!(cluster.node(leader).commit_index(), 6);
}

#[test]
fn at_most_one_leader_per_term() {
    let mut cluster = Cluster::new(5);
    let mut leaders: Vec<(u64, usize)> = Vec::new();
    for round in 0..40 {
        let cut = round % 5;
        let rest: Vec<usize> = (0..5).filter(|id| *id != cut).collect();
        cluster.partition(&[vec![cut], rest]);
        cluster.run_for(97);
        cluster.heal();
        cluster.run_for(53);
        for (id, node) in cluster.nodes() {
            if node.role() == Role::Leader {
                let term = node.current_term();
                if let Some((_, known)) = leaders.iter().find(|known| known.0 == term) {
                    assert_eq!(*known, id);
                } else {
                    leaders.push((term, id));
                }
            }
        }
    }
    assert!(!leaders.is_empty());
}

#[test]
fn stopped_nodes_take_no_proposals() {
    let mut cluster = Cluster::new(3);
    cluster.stop(1);
    let reply = cluster.propose(1, put("k", "v"));
    assert!(!reply.success);
    assert_eq!(reply.leader_id, None);
    assert_eq!(cluster.node_ids().len(), 3);
    assert!(cluster.node(1).log().is_empty());
}

#[test]
fn a_late_deadline_does_not_keep_a_predicate_waiting() {
    let mut cluster = Cluster::new(3);
    assert!(cluster.run_until(u64::MAX, |cluster| cluster.leader().is_some()));
    assert!(cluster.now() < 600);
    let now = cluster.now();
    assert!(cluster.run_until(0, |cluster| cluster.leader().is_some()));
    assert!(!cluster.run_until(0, |cluster| cluster.leader().is_none()));
    assert_eq!(cluster.now(), now);
    assert!(!cluster.run_until(now + 9, |cluster| cluster.leader().is_none()));
    assert_eq!(cluster.now(), now + 10);
}

#[test]
fn stopped_nodes_never_change() {
    let mut cluster = Cluster::new(3);
    assert!(cluster.run_until(600, |cluster| cluster.leader().is_some()));
    let leader = cluster.leader().unwrap();
    let stopped = (leader + 1) % 3;
    cluster.stop(stopped);
    let seen = |cluster: &Cluster| {
        let node = cluster.node(stopped);
        (node.current_term(), node.commit_index(), node.log().to_vec(), node.role())
    };
    let before = seen(&cluster);
    cluster.propose(leader, put("k", "v"));
    let marks = |cluster: &Cluster| -> Vec<(u64, usize)> {
        cluster
            .nodes()
            .into_iter()
            .map(|(_, node)| (node.current_term(), node.commit_index()))
            .collect()
    };
    let mut last = marks(&cluster);
    for _ in 0..50 {
        cluster.run_for(10);
        assert_eq!(seen(&cluster), before);
        // Terms and commit indexes never fall.
        let next = marks(&cluster);
        assert!(last.iter().zip(&next).all(|(a, b)| a.0 <= b.0 && a.1 <= b.1));
        last = next;
    }
}
