//! What the metrics of a node show.
use crate::node_state::NodeState;
use crate::observability::MetricsState;
use crate::server::{RuntimeState, TreeSizes};
use crate::types::{NodeId, Role};
use vstd::prelude::*;

verus! {

/// A number as a gauge shows it: itself, or the largest that can be shown.
pub open spec fn shown(value: int) -> int {
    if value <= i64::MAX {
        value
    } else {
        i64::MAX as int
    }
}

/// What shows under a label; nothing where it never came up.
pub open spec fn shown_for<K>(samples: Seq<(K, i64)>, label: K) -> Option<i64>
    decreases samples.len(),
{
    if samples.len() == 0 {
        None
    } else if samples[0].0 == label {
        Some(samples[0].1)
    } else {
        shown_for(samples.drop_first(), label)
    }
}

/// The name of a role.
pub open spec fn label_of(role: Role) -> Seq<char> {
    match role {
        Role::Follower => "follower"@,
        Role::Candidate => "candidate"@,
        Role::Leader => "leader"@,
    }
}

/// Metrics that differ in nothing but the lags.
pub open spec fn same_but_lags(a: MetricsState, b: MetricsState) -> bool {
    a == (MetricsState { lags: a.lags, ..b })
}

/// A node's state shows as it is: term, commit index and last applied index, one for
/// its role and zero for the others.
pub proof fn a_nodes_state_shows(
    metrics: MetricsState,
    term: u64,
    role: Role,
    commit_index: usize,
    last_applied: usize,
)
    ensures
        ({
            let after = metrics.with_raft_state(term, label_of(role), commit_index, last_applied);
            &&& after.term == shown(term as int)
            &&& after.commit_index == shown(commit_index as int)
            &&& after.last_applied == shown(last_applied as int)
            &&& shown_for(after.roles, "follower"@) == Some(
                if role == Role::Follower {
                    1i64
                } else {
                    0i64
                },
            )
            &&& shown_for(after.roles, "candidate"@) == Some(
                if role == Role::Candidate {
                    1i64
                } else {
                    0i64
                },
            )
            &&& shown_for(after.roles, "leader"@) == Some(
                if role == Role::Leader {
                    1i64
                } else {
                    0i64
                },
            )
            &&& after.roles.len() == 3
            &&& after == (MetricsState {
                term: after.term,
                roles: after.roles,
                commit_index: after.commit_index,
                last_applied: after.last_applied,
                ..metrics
            })
        }),
{
    reveal_strlit("follower");
    reveal_strlit("candidate");
    reveal_strlit("leader");
    assert("follower"@[0] != "candidate"@[0]);
    assert("follower"@[0] != "leader"@[0]);
    assert("candidate"@[0] != "leader"@[0]);
    reveal_with_fuel(shown_for, 4);
    let roles = metrics.with_raft_state(term, label_of(role), commit_index, last_applied).roles;
    let less = roles.drop_first();
    assert(less[0] == roles[1] && less.drop_first()[0] == roles[2]);
}

proof fn place_is_within(lags: Seq<(usize, i64)>, follower: usize)
    ensures
        0 <= crate::observability::place_of(lags, follower) <= lags.len(),
    decreases lags.len(),
{
    if lags.len() > 0 && lags[0].0 != follower {
        place_is_within(lags.drop_first(), follower);
    }
}

proof fn placing_shows(lags: Seq<(usize, i64)>, follower: usize, lag: i64, other: usize)
    ensures
        shown_for(crate::observability::with_lag(lags, follower, lag), other) == if other
            == follower {
            Some(lag)
        } else {
            shown_for(lags, other)
        },
    decreases lags.len(),
{
    reveal_with_fuel(shown_for, 2);
    let after = crate::observability::with_lag(lags, follower, lag);
    if lags.len() == 0 {
        assert(after =~= seq![(follower, lag)]);
        assert(after.drop_first() =~= Seq::empty());
    } else if lags[0].0 == follower {
        assert(after.drop_first() =~= lags.drop_first());
    } else {
        placing_shows(lags.drop_first(), follower, lag, other);
        place_is_within(lags.drop_first(), follower);
        assert(after[0] == lags[0]);
        assert(after.drop_first() =~= crate::observability::with_lag(
            lags.drop_first(),
            follower,
            lag,
        ));
    }
}

/// A follower's lag shows; those of the others show as before.
pub proof fn a_followers_lag_shows(
    metrics: MetricsState,
    follower: usize,
    lag: usize,
    other: usize,
)
    ensures
        ({
            let after = metrics.with_replication_lag(follower, lag);
            &&& shown_for(after.lags, follower) == Some(shown(lag as int) as i64)
            &&& other != follower ==> shown_for(after.lags, other) == shown_for(
                metrics.lags,
                other,
            )
            &&& same_but_lags(after, metrics)
        }),
{
    placing_shows(metrics.lags, follower, shown(lag as int) as i64, follower);
    placing_shows(metrics.lags, follower, shown(lag as int) as i64, other);
}

/// The sizes of a tree show as they are, and the compactions are counted up to their
/// total, never down.
pub proof fn a_trees_sizes_show(metrics: MetricsState, memtable_bytes: usize, tables: usize, total: usize)
    ensures
        ({
            let after = metrics.with_lsm_state(memtable_bytes, tables);
            &&& after.memtable_bytes == shown(memtable_bytes as int)
            &&& after.sstables == shown(tables as int)
            &&& after == (MetricsState {
                memtable_bytes: after.memtable_bytes,
                sstables: after.sstables,
                ..metrics
            })
        }),
        ({
            let after = metrics.with_compactions(total);
            &&& after.compactions >= metrics.compactions && after.compactions >= total
            &&& after.compactions == metrics.compactions || after.compactions == total
            &&& after == (MetricsState { compactions: after.compactions, ..metrics })
        }),
{
}

/// Each count goes up by one, and nothing else changes.
pub proof fn counts_go_up_by_one(metrics: MetricsState)
    ensures
        metrics.elections < u64::MAX ==> metrics.with_election() == (MetricsState {
            elections: (metrics.elections + 1) as u64,
            ..metrics
        }),
        metrics.leader_changes < u64::MAX ==> metrics.with_leader_change() == (MetricsState {
            leader_changes: (metrics.leader_changes + 1) as u64,
            ..metrics
        }),
        metrics.writes < u64::MAX ==> metrics.with_write() == (MetricsState {
            writes: (metrics.writes + 1) as u64,
            ..metrics
        }),
{
}

/// How many committed entries a leader does not know a peer to hold.
pub open spec fn behind<S>(node: NodeState<S>, peer: NodeId) -> int {
    let held = if node.match_index.contains_key(peer) {
        node.match_index[peer] as int
    } else {
        0
    };
    if node.commit_index > held {
        node.commit_index - held
    } else {
        0
    }
}

proof fn lags_show<S>(node: NodeState<S>, metrics: MetricsState, count: int)
    requires
        node.role == Role::Leader,
        0 <= count <= node.peers.len(),
    ensures
        ({
            let after = crate::server::with_lags(
                metrics,
                crate::server::lags_of(node).take(count),
            );
            &&& same_but_lags(after, metrics)
            &&& forall|i: int|
                0 <= i < count ==> shown_for(after.lags, #[trigger] node.peers[i]) == Some(
                    shown(behind(node, node.peers[i])) as i64,
                )
            &&& forall|other: usize|
                (forall|i: int| 0 <= i < count ==> node.peers[i] != other) ==> #[trigger] shown_for(
                    after.lags,
                    other,
                ) == shown_for(metrics.lags, other)
        }),
    decreases count,
{
    let lags = crate::server::lags_of(node);
    if count > 0 {
        let less = count - 1;
        lags_show(node, metrics, less);
        let before = crate::server::with_lags(metrics, lags.take(less));
        let after = crate::server::with_lags(metrics, lags.take(count));
        assert(lags.take(count).drop_last() =~= lags.take(less));
        let peer = node.peers[less];
        assert(lags.take(count).last() == (peer, crate::node::lag_of(node, peer)));
        assert forall|i: int|
            0 <= i < count implies shown_for(after.lags, #[trigger] node.peers[i]) == Some(
            shown(behind(node, node.peers[i])) as i64,
        ) by {
            a_followers_lag_shows(before, peer, crate::node::lag_of(node, peer), node.peers[i]);
        }
        assert forall|other: usize|
            (forall|i: int| 0 <= i < count ==> node.peers[i] != other) implies #[trigger] shown_for(
            after.lags,
            other,
        ) == shown_for(metrics.lags, other) by {
            a_followers_lag_shows(before, peer, crate::node::lag_of(node, peer), other);
            assert(node.peers[less] != other);
        }
    } else {
        assert(lags.take(0) =~= Seq::empty());
    }
}

/// When the metrics are brought up to date they show the node as it is and its tree.
/// An election is counted if the node stands in a term in which it did not stand
/// before, a change of leader if it knows another leader than before, and nothing
/// else is counted. A leader shows how far each peer is behind; the lags of others
/// stay as they were.
pub proof fn refreshing_shows_the_node<S>(runtime: RuntimeState<S>, sizes: TreeSizes)
    ensures
        ({
            let after = runtime.refreshed(sizes);
            let node = runtime.node;
            let before = runtime.metrics;
            let shows = after.metrics;
            let stands = node.role == Role::Candidate && !(runtime.last_role == Role::Candidate
                && runtime.last_term == node.current_term);
            let changed = node.leader_id is Some && node.leader_id != runtime.last_leader_id;
            &&& after.node == node && after.saved == runtime.saved
            &&& after.last_role == node.role
            &&& after.last_term == node.current_term
            &&& after.last_leader_id == node.leader_id
            &&& shows.node_id == before.node_id
            &&& shows.term == shown(node.current_term as int)
            &&& shows.commit_index == shown(node.commit_index as int)
            &&& shows.last_applied == shown(node.last_applied as int)
            &&& shown_for(shows.roles, label_of(node.role)) == Some(1i64)
            &&& forall|role: Role|
                role != node.role ==> shown_for(shows.roles, #[trigger] label_of(role)) == Some(
                    0i64,
                )
            &&& stands ==> shows.elections == before.elections.wrapping_add(1)
            &&& !stands ==> shows.elections == before.elections
            &&& changed ==> shows.leader_changes == before.leader_changes.wrapping_add(1)
            &&& !changed ==> shows.leader_changes == before.leader_changes
            &&& shows.writes == before.writes
            &&& shows.memtable_bytes == shown(sizes.memtable_bytes as int)
            &&& shows.sstables == shown(sizes.sstable_count as int)
            &&& shows.compactions == if sizes.compactions > before.compactions {
                sizes.compactions as u64
            } else {
                before.compactions
            }
            &&& node.role != Role::Leader ==> shows.lags == before.lags
            &&& node.role == Role::Leader ==> forall|i: int|
                0 <= i < node.peers.len() ==> shown_for(shows.lags, #[trigger] node.peers[i])
                    == Some(shown(behind(node, node.peers[i])) as i64)
        }),
{
    let node = runtime.node;
    let stands = node.role == Role::Candidate && !(runtime.last_role == Role::Candidate
        && runtime.last_term == node.current_term);
    let changed = node.leader_id is Some && node.leader_id != runtime.last_leader_id;
    let counted = if stands {
        runtime.metrics.with_election()
    } else {
        runtime.metrics
    };
    let changes = if changed {
        counted.with_leader_change()
    } else {
        counted
    };
    a_nodes_state_shows(changes, node.current_term, node.role, node.commit_index, node.last_applied);
    let raft = changes.with_raft_state(
        node.current_term,
        label_of(node.role),
        node.commit_index,
        node.last_applied,
    );
    let lags = crate::server::lags_of(node);
    if node.role == Role::Leader {
        lags_show(node, raft, lags.len() as int);
        assert(lags.take(lags.len() as int) =~= lags);
    }
    assert forall|role: Role| role != node.role implies shown_for(
        raft.roles,
        #[trigger] label_of(role),
    ) == Some(0i64) by {}
}

/// Every metric goes under its own name, with what it counts or shows, under the
/// label of the node.
pub proof fn every_metric_is_rendered(metrics: MetricsState, latency: Seq<char>)
    ensures
        ({
            let node = crate::numbers::decimal(metrics.node_id as nat);
            let texts = metrics.texts(latency);
            &&& texts.len() == 12
            &&& texts.contains(
                crate::observability::gauge_rendering(
                    "node"@,
                    node,
                    "raft_term"@,
                    "Current Raft term."@,
                    metrics.term,
                ),
            )
            &&& texts.contains(
                crate::observability::gauges_rendering(
                    "node"@,
                    node,
                    "raft_state"@,
                    "Current Raft role as one-hot gauges."@,
                    "role"@,
                    metrics.roles,
                ),
            )
            &&& texts.contains(
                crate::observability::gauge_rendering(
                    "node"@,
                    node,
                    "raft_commit_index"@,
                    "Highest committed Raft log index."@,
                    metrics.commit_index,
                ),
            )
            &&& texts.contains(
                crate::observability::gauge_rendering(
                    "node"@,
                    node,
                    "raft_last_applied"@,
                    "Highest applied Raft log index."@,
                    metrics.last_applied,
                ),
            )
            &&& texts.contains(
                crate::observability::counter_rendering(
                    "node"@,
                    node,
                    "raft_elections_total"@,
                    "Total elections started by this node."@,
                    metrics.elections,
                ),
            )
            &&& texts.contains(
                crate::observability::counter_rendering(
                    "node"@,
                    node,
                    "raft_leader_changes_total"@,
                    "Total observed leader changes."@,
                    metrics.leader_changes,
                ),
            )
            &&& texts.contains(
                crate::observability::counter_rendering(
                    "node"@,
                    node,
                    "raft_writes_total"@,
                    "Client writes whose handlers observed leader-side commit and apply."@,
                    metrics.writes,
                ),
            )
            &&& texts.contains(Some(latency))
            &&& texts.contains(
                crate::observability::gauge_rendering(
                    "node"@,
                    node,
                    "lsm_memtable_size_bytes"@,
                    "Current LSM memtable size in bytes."@,
                    metrics.memtable_bytes,
                ),
            )
            &&& texts.contains(
                crate::observability::gauge_rendering(
                    "node"@,
                    node,
                    "lsm_sstable_count"@,
                    "Current number of LSM SSTables."@,
                    metrics.sstables,
                ),
            )
            &&& texts.contains(
                crate::observability::counter_rendering(
                    "node"@,
                    node,
                    "lsm_compactions_total"@,
                    "Total LSM compactions completed."@,
                    metrics.compactions,
                ),
            )
        }),
{
    let texts = metrics.texts(latency);
    assert(texts[0] == texts[0] && texts[1] == texts[1] && texts[2] == texts[2] && texts[3]
        == texts[3] && texts[4] == texts[4] && texts[5] == texts[5]);
    assert(texts[6] == texts[6] && texts[7] == texts[7] && texts[8] == texts[8] && texts[9]
        == texts[9] && texts[10] == texts[10] && texts[11] == texts[11]);
}

/// The lags go under the followers' ids.
pub proof fn lags_are_rendered(metrics: MetricsState, latency: Seq<char>, samples: Seq<(Seq<char>, i64)>)
    requires
        samples.len() == metrics.lags.len(),
        forall|i: int|
            0 <= i < samples.len() ==> (#[trigger] samples[i]) == (
                crate::numbers::decimal(metrics.lags[i].0 as nat),
                metrics.lags[i].1,
            ),
    ensures
        metrics.texts(latency).contains(
            crate::observability::gauges_rendering(
                "node"@,
                crate::numbers::decimal(metrics.node_id as nat),
                "raft_replication_lag"@,
                "Leader-side commit_index minus follower match_index."@,
                "follower"@,
                samples,
            ),
        ),
{
    assert(samples =~= metrics.lag_samples());
    assert(metrics.texts(latency)[7] == metrics.texts(latency)[7]);
}

/// The whole text holds the text of each metric, and there is none where one is
/// missing.
pub proof fn the_whole_text_holds_each(texts: Seq<Option<Seq<char>>>, i: int)
    requires
        0 <= i < texts.len(),
    ensures
        crate::observability::joined(texts) matches Some(all) ==> texts[i] is Some && exists|
            from: int,
        | 0 <= from <= all.len() - texts[i]->Some_0.len() && #[trigger] all.subrange(
            from,
            from + texts[i]->Some_0.len(),
        ) == texts[i]->Some_0,
    decreases texts.len(),
{
    if let Some(all) = crate::observability::joined(texts) {
        let before = crate::observability::joined(texts.drop_last())->Some_0;
        if i == texts.len() - 1 {
            let from = before.len() as int;
            assert(all.subrange(from, from + texts[i]->Some_0.len()) =~= texts[i]->Some_0);
        } else {
            the_whole_text_holds_each(texts.drop_last(), i);
            let text = texts[i]->Some_0;
            let from = choose|from: int|
                0 <= from <= before.len() - text.len() && #[trigger] before.subrange(
                    from,
                    from + text.len(),
                ) == text;
            assert(all.subrange(from, from + text.len()) =~= text);
        }
    }
}

/// Nothing shows before anything has happened.
pub proof fn metrics_start_empty(node_id: usize)
    ensures
        ({
            let metrics = MetricsState::initial(node_id);
            &&& metrics.node_id == node_id
            &&& metrics.term == 0 && metrics.commit_index == 0 && metrics.last_applied == 0
            &&& metrics.elections == 0 && metrics.leader_changes == 0 && metrics.writes == 0
            &&& metrics.memtable_bytes == 0 && metrics.sstables == 0 && metrics.compactions == 0
            &&& metrics.roles.len() == 0 && metrics.lags.len() == 0
        }),
{
}

} // verus!
