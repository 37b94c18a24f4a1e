use prometheus::{Encoder, Histogram, HistogramOpts, Registry, TextEncoder};
use raft_kv::observability::{join_texts, MetricsError, NodeMetrics};

/// The latency histogram of a node after some writes.
fn latency_text(seconds: &[f64]) -> String {
    let labels = [("node".to_string(), "0".to_string())].into();
    let registry = Registry::new_custom(None, Some(labels)).unwrap();
    let histogram = Histogram::with_opts(HistogramOpts::new(
        "raft_write_latency_seconds",
        "Latency for a client write to commit and apply on the leader.",
    ))
    .unwrap();
    registry.register(Box::new(histogram.clone())).unwrap();
    for value in seconds {
        histogram.observe(*value);
    }
    let mut bytes = Vec::new();
    TextEncoder::new().encode(&registry.gather(), &mut bytes).unwrap();
    String::from_utf8(bytes).unwrap()
}

#[test]
fn renders_required_metrics() {
    let mut metrics = NodeMetrics::new(0);
    metrics.set_raft_state(2, "leader", 4, 3);
    metrics.set_lsm_state(128, 2);
    metrics.observe_write();
    let body = metrics.render(&latency_text(&[0.01])).unwrap();

    for name in [
        "raft_term",
        "raft_state",
        "raft_commit_index",
        "raft_last_applied",
        "raft_elections_total",
        "raft_leader_changes_total",
        "raft_writes_total",
        "raft_write_latency_seconds",
        "lsm_memtable_size_bytes",
        "lsm_sstable_count",
        "lsm_compactions_total",
    ] {
        assert!(body.contains(name), "missing metric {name}\n{body}");
    }
}

#[test]
fn renders_exact_text() {
    let mut metrics = NodeMetrics::new(7);
    metrics.set_raft_state(2, "leader", 4, 3);
    metrics.set_lsm_state(128, 2);
    metrics.set_lsm_compactions_total(5);
    metrics.set_lsm_compactions_total(4);
    metrics.set_replication_lag(2, 1);
    metrics.set_replication_lag(1, 3);
    metrics.set_replication_lag(2, 0);
    metrics.inc_elections();
    metrics.inc_leader_changes();
    metrics.inc_leader_changes();
    metrics.observe_write();
    let body = metrics.render("LATENCY\n").unwrap();
    let expected = "# HELP lsm_compactions_total Total LSM compactions completed.\n\
        # TYPE lsm_compactions_total counter\n\
        lsm_compactions_total{node=\"7\"} 5\n\
        # HELP lsm_memtable_size_bytes Current LSM memtable size in bytes.\n\
        # TYPE lsm_memtable_size_bytes gauge\n\
        lsm_memtable_size_bytes{node=\"7\"} 128\n\
        # HELP lsm_sstable_count Current number of LSM SSTables.\n\
        # TYPE lsm_sstable_count gauge\n\
        lsm_sstable_count{node=\"7\"} 2\n\
        # HELP raft_commit_index Highest committed Raft log index.\n\
        # TYPE raft_commit_index gauge\n\
        raft_commit_index{node=\"7\"} 4\n\
        # HELP raft_elections_total Total elections started by this node.\n\
        # TYPE raft_elections_total counter\n\
        raft_elections_total{node=\"7\"} 1\n\
        # HELP raft_last_applied Highest applied Raft log index.\n\
        # TYPE raft_last_applied gauge\n\
        raft_last_applied{node=\"7\"} 3\n\
        # HELP raft_leader_changes_total Total observed leader changes.\n\
        # TYPE raft_leader_changes_total counter\n\
        raft_leader_changes_total{node=\"7\"} 2\n\
        # HELP raft_replication_lag Leader-side commit_index minus follower match_index.\n\
        # TYPE raft_replication_lag gauge\n\
        raft_replication_lag{follower=\"1\",node=\"7\"} 3\n\
        raft_replication_lag{follower=\"2\",node=\"7\"} 0\n\
        # HELP raft_state Current Raft role as one-hot gauges.\n\
        # TYPE raft_state gauge\n\
        raft_state{role=\"candidate\",node=\"7\"} 0\n\
        raft_state{role=\"follower\",node=\"7\"} 0\n\
        raft_state{role=\"leader\",node=\"7\"} 1\n\
        # HELP raft_term Current Raft term.\n\
        # TYPE raft_term gauge\n\
        raft_term{node=\"7\"} 2\n\
        LATENCY\n\
        # HELP raft_writes_total Client writes whose handlers observed leader-side commit and apply.\n\
        # TYPE raft_writes_total counter\n\
        raft_writes_total{node=\"7\"} 1\n";
    assert_eq!(body, expected);
}

#[test]
fn large_values_are_shown_as_the_largest() {
    let mut metrics = NodeMetrics::new(0);
    metrics.set_raft_state(u64::MAX, "follower", 1, 1);
    let body = metrics.render("").unwrap();
    // The exposition format counts in floating point.
    assert!(body.contains("raft_term{node=\"0\"} 9223372036854776000\n"));
    assert!(body.contains("raft_state{role=\"follower\",node=\"0\"} 1\n"));
    assert!(body.contains("raft_state{role=\"leader\",node=\"0\"} 0\n"));
}

#[test]
fn a_new_node_shows_zeros() {
    let body = NodeMetrics::new(3).render("").unwrap();
    assert!(body.contains("raft_term{node=\"3\"} 0\n"));
    assert!(body.contains("raft_writes_total{node=\"3\"} 0\n"));
    // No role is known yet, and no follower.
    assert!(!body.contains("raft_state{"));
    assert!(!body.contains("raft_replication_lag{"));
}

#[test]
fn texts_are_joined_unless_one_is_missing() {
    let text = |text: &str| Some(text.to_string());
    assert_eq!(join_texts(&vec![text("a\n"), text(""), text("b")]), Ok("a\nb".to_string()));
    assert_eq!(join_texts(&vec![text("a"), None, text("b")]), Err(MetricsError::Rendering));
}
