//! What the nodes of a cluster agree on, whatever messages are lost and whichever
//! nodes stop, restart or are cut off.
use crate::cluster_state::ClusterState;
use crate::node_state::NodeState;
use crate::safety::history::History;
use crate::state_machine::KvState;
use crate::types::{ClientRequest, Command, LogEntry, LogIndex, MessageView, NodeId, Role, RpcView, Term};
use vstd::prelude::*;

verus! {

/// The commands of a log's first entries.
pub open spec fn commands(log: Seq<LogEntry>, n: int) -> Seq<Command> {
    log.take(n).map_values(|entry: LogEntry| entry.command)
}

/// A key-value machine that has applied a log's first entries.
pub open spec fn replayed(log: Seq<LogEntry>, n: LogIndex) -> KvState {
    KvState { data: KvState::written_by(Map::empty(), commands(log, n as int)), last_applied: n }
}

/// A node has applied exactly what is committed.
pub open spec fn in_line(node: NodeState<KvState>) -> bool {
    &&& node.last_applied == node.commit_index
    &&& node.commit_index <= node.log.len()
    &&& node.data == replayed(node.log, node.commit_index)
}

/// A cluster with a history that explains it.
pub open spec fn explained(state: ClusterState, h: History) -> bool {
    &&& state.wf()
    &&& h.safe(crate::safety::moves::cores(state.nodes), state.messages)
    &&& forall|i: int|
        0 <= i < state.nodes.len() ==> in_line(#[trigger] state.nodes[i]) && crate::node_laws::opened(state.nodes[i])
}

/// All logs fit in memory.
pub open spec fn logs_fit(state: ClusterState) -> bool {
    forall|i: int| 0 <= i < state.nodes.len() ==> (#[trigger] state.nodes[i]).log.len() <= usize::MAX
}

/// A node that has restarted from its term, vote, log and commit index, with its
/// machine rebuilt.
pub open spec fn restarted(node: NodeState<KvState>, again: NodeState<KvState>) -> bool {
    &&& again.id == node.id
    &&& again.peers == node.peers
    &&& again.current_term == node.current_term
    &&& again.voted_for == node.voted_for
    &&& again.log == node.log
    &&& again.commit_index == node.commit_index
    &&& again.last_applied == node.last_applied
    &&& again.data == node.data
    &&& again.role == Role::Follower
    &&& again.next_index == Map::<NodeId, LogIndex>::empty()
}

/// One move of a cluster: a step, a client's request to one of its nodes, the
/// restart of a node, or a change of which nodes run and reach each other.
pub open spec fn moves(before: ClusterState, after: ClusterState) -> bool {
    ||| before.can_step() && after == before.step() && logs_fit(after)
    ||| exists|id: NodeId, request: ClientRequest|
        id < before.nodes.len() && after == #[trigger] before.proposed(id, request) && logs_fit(
            after,
        )
    ||| exists|i: int, again: NodeState<KvState>|
        0 <= i < before.nodes.len() && #[trigger] restarted(before.nodes[i], again) && after == (
        ClusterState { nodes: before.nodes.update(i, again), ..before })
    ||| after.nodes == before.nodes && after.messages == before.messages && after.now_ms
        == before.now_ms
}

/// A run of a cluster of `size` nodes from its start.
pub open spec fn runs(trace: Seq<ClusterState>, size: nat) -> bool {
    &&& 1 <= size <= usize::MAX
    &&& trace.len() > 0
    &&& trace[0] == ClusterState::initial(size)
    &&& forall|k: int|
        0 <= k < trace.len() - 1 ==> #[trigger] moves(trace[k], trace[k + 1])
}

/// What has happened before anything has.
pub open spec fn nothing_yet() -> History {
    History {
        leaders: Map::empty(),
        voters: Map::empty(),
        logs: Map::empty(),
        votes: Map::empty(),
        acks: Map::empty(),
        counted: Map::empty(),
    }
}

/// A new cluster is explained by nothing having happened.
pub proof fn start_is_explained(size: nat)
    requires
        1 <= size <= usize::MAX,
    ensures
        explained(ClusterState::initial(size), nothing_yet()),
{
    let state = ClusterState::initial(size);
    let h = nothing_yet();
    let all = crate::safety::moves::cores(state.nodes);
    assert forall|i: int| 0 <= i < state.nodes.len() implies #[trigger] state.node_wf(i) by {}
    assert forall|v: NodeId| v < all.len() implies #[trigger] h.node_ok(all, v) by {
        assert(all[v as int] == crate::safety::moves::core_of(state.nodes[v as int]));
    }
    assert forall|i: int| 0 <= i < state.nodes.len() implies in_line(#[trigger] state.nodes[i])
        && crate::node_laws::opened(state.nodes[i]) by {
        let log = state.nodes[i].log;
        assert(commands(log, 0) =~= Seq::empty());
        assert(state.nodes[i].data =~= replayed(log, 0));
    }
}

/// Applying committed entries replays the log.
pub proof fn settling_replays(node: NodeState<KvState>)
    requires
        node.last_applied <= node.commit_index <= node.log.len(),
        node.data == replayed(node.log, node.last_applied),
    ensures
        in_line(node.settled()),
    decreases node.commit_index - node.last_applied,
{
    if node.last_applied < node.commit_index {
        let n = node.last_applied as int;
        let (data, outcome) = node.data.apply((n + 1) as usize, node.log[n].command);
        assert(commands(node.log, n + 1).drop_last() =~= commands(node.log, n));
        assert(commands(node.log, n + 1).last() == node.log[n].command);
        let next = NodeState { data, last_applied: (n + 1) as LogIndex, ..node };
        assert(data == replayed(node.log, next.last_applied));
        settling_replays(next);
    }
}

/// Logs that agree are replayed alike.
proof fn agreeing_logs_replay_alike(a: Seq<LogEntry>, b: Seq<LogEntry>, n: LogIndex)
    requires
        crate::safety::history::agree(a, b, n as int),
    ensures
        replayed(a, n) == replayed(b, n),
{
    assert(commands(a, n as int) =~= commands(b, n as int));
}

/// A node that took entries of a leader holds all that it had committed, and all
/// that it is told to commit.
proof fn accepting_keeps_commit(
    h: History,
    nodes: Seq<crate::safety::history::Core>,
    message: MessageView,
    request: crate::types::AppendEntriesView,
)
    requires
        h.nodes_ok(nodes),
        h.message_ok(nodes, message),
        message.rpc == RpcView::AppendEntries(request),
        request.term >= nodes[message.to as int].term,
        request.prev_log_index <= nodes[message.to as int].log.len(),
        request.prev_log_index > 0 ==> nodes[message.to as int].log[request.prev_log_index - 1].term
            == request.prev_log_term,
    ensures
        ({
            let log = nodes[message.to as int].log;
            let merged = crate::node_state::merged(
                log,
                request.prev_log_index as int,
                request.entries,
            );
            &&& crate::safety::history::agree(
                log,
                merged,
                nodes[message.to as int].commit as int,
            )
            &&& request.leader_commit <= merged.len()
        }),
{
    let node = nodes[message.to as int];
    assert(h.node_ok(nodes, message.to));
    let log = h.logs[request.term];
    assert(h.led(request.term));
    assert(h.term_ok(nodes, request.term));
    h.committed_is_kept(nodes, node.log, node.commit as int, node.term, request.term);
    merging_keeps_commit(
        h,
        node.log,
        log,
        request.prev_log_index as int,
        request.entries,
        node.commit as int,
    );
}

/// A node that took entries of a leader has applied exactly what is committed.
proof fn accepting_stays_in_line(
    a: NodeState<KvState>,
    request: crate::types::AppendEntriesView,
    now_ms: u64,
)
    requires
        in_line(a),
        a.accepts(request),
        ({
            let merged = crate::node_state::merged(
                a.log,
                request.prev_log_index as int,
                request.entries,
            );
            &&& crate::safety::history::agree(a.log, merged, a.commit_index as int)
            &&& request.leader_commit <= merged.len() <= usize::MAX
        }),
    ensures
        in_line(a.on_append_entries(request, now_ms).0.settled()),
{
    let next = a.on_append_entries(request, now_ms).0;
    agreeing_logs_replay_alike(a.log, next.log, a.commit_index);
    settling_replays(next);
}

/// Taking entries of a leader does not touch what is committed.
proof fn merging_keeps_commit(
    h: History,
    log: Seq<LogEntry>,
    leader_log: Seq<LogEntry>,
    prev: int,
    entries: Seq<LogEntry>,
    commit: int,
)
    requires
        h.good_log(log),
        h.good_log(leader_log),
        0 <= prev <= log.len(),
        prev + entries.len() <= leader_log.len(),
        prev > 0 ==> log[prev - 1].term == leader_log[prev - 1].term,
        forall|k: int|
            0 <= k < entries.len() ==> #[trigger] entries[k] == leader_log[prev + k],
        crate::safety::history::agree(log, leader_log, commit),
    ensures
        crate::safety::history::agree(
            log,
            crate::node_state::merged(log, prev, entries),
            commit,
        ),
        prev + entries.len() <= crate::node_state::merged(log, prev, entries).len(),
{
    let merged = crate::node_state::merged(log, prev, entries);
    let n = prev + entries.len();
    crate::safety::moves::merging_follows(h, log, leader_log, prev, entries);
    if merged != log {
        crate::safety::history::agree_on_less(merged, leader_log, n, commit);
        crate::safety::history::agree_through(merged, leader_log, log, commit);
    }
}

/// A node that counted a vote has applied exactly what is committed.
proof fn counting_stays_in_line(
    h: History,
    nodes: Seq<NodeState<KvState>>,
    at: NodeId,
    reply: crate::types::RequestVoteReply,
    now_ms: u64,
)
    requires
        at < nodes.len(),
        h.nodes_ok(crate::safety::moves::cores(nodes)),
        in_line(nodes[at as int]),
        crate::node_laws::opened(nodes[at as int]),
    ensures
        in_line(nodes[at as int].on_vote_reply(reply, now_ms).0),
        nodes[at as int].on_vote_reply(reply, now_ms).0.log.len() <= usize::MAX ==> crate::node_laws::opened(
            nodes[at as int].on_vote_reply(reply, now_ms).0,
        ),
{
    let all = crate::safety::moves::cores(nodes);
    let a = nodes[at as int];
    let next = a.on_vote_reply(reply, now_ms).0;
    assert(all[at as int] == crate::safety::moves::core_of(a));
    assert(h.node_ok(all, at));
    if reply.term <= a.current_term && a.counts(reply) && next.role == Role::Leader {
        assert(h.candidate_ok(all, at));
        assert(next.log == a.log.push(next.log.last()));
        assert forall|k: int| 0 <= k < next.term_start_index - 1 && next.log.len()
            <= usize::MAX implies (#[trigger] next.log[k]).term < next.current_term by {
            assert(next.log[k] == a.log[k]);
        }
        agreeing_logs_replay_alike(a.log, next.log, a.commit_index);
    }
}

/// A node that handled a message has applied exactly what is committed.
proof fn handling_stays_in_line(
    h: History,
    nodes: Seq<NodeState<KvState>>,
    message: MessageView,
    now_ms: u64,
)
    requires
        crate::safety::moves::placed(nodes),
        h.nodes_ok(crate::safety::moves::cores(nodes)),
        h.message_ok(crate::safety::moves::cores(nodes), message),
        in_line(nodes[message.to as int]),
        crate::node_laws::opened(nodes[message.to as int]),
        nodes[message.to as int].handled(message.from, message.rpc, now_ms).0.log.len()
            <= usize::MAX,
    ensures
        in_line(nodes[message.to as int].handled(message.from, message.rpc, now_ms).0),
        crate::node_laws::opened(nodes[message.to as int].handled(message.from, message.rpc, now_ms).0),
{
    let a = nodes[message.to as int];
    let next = a.on_message(message.from, message.rpc, now_ms).0;
    match message.rpc {
        RpcView::RequestVote(_) => {},
        RpcView::RequestVoteReply(reply) => {
            counting_stays_in_line(h, nodes, message.to, reply, now_ms);
        },
        RpcView::AppendEntries(request) => {
            if a.accepts(request) {
                let all = crate::safety::moves::cores(nodes);
                assert(all[message.to as int] == crate::safety::moves::core_of(a));
                accepting_keeps_commit(h, all, message, request);
                crate::node_laws::settled_keeps(next);
                accepting_stays_in_line(a, request, now_ms);
            }
        },
        RpcView::AppendEntriesReply(reply) => {
            if reply.term <= a.current_term && a.heeds(reply) && reply.success {
                commit_stays_in_log(a, message.from, reply);
                settling_replays(next);
                crate::node_laws::settled_keeps(next);
            }
        },
    }
}

proof fn commit_stays_in_log(
    a: NodeState<KvState>,
    from: NodeId,
    reply: crate::types::AppendEntriesReply,
)
    requires
        a.heeds(reply),
        reply.success,
        a.commit_index <= a.log.len() <= usize::MAX,
    ensures
        a.commit_index <= a.on_append_reply(from, reply).0.commit_index <= a.log.len(),
{
    let marked = NodeState {
        match_index: a.match_index.insert(from, reply.match_index),
        next_index: a.next_index.insert(from, reply.match_index.saturating_add(1)),
        ..a
    };
    crate::node_laws::commit_bounds(marked, marked.log.len() as int);
}

proof fn wf_is_placed(state: ClusterState)
    requires
        state.wf(),
    ensures
        crate::safety::moves::placed(state.nodes),
{
    assert forall|i: int| 0 <= i < state.nodes.len() implies (#[trigger] state.nodes[i]).id == i
        && state.nodes[i].peers == crate::cluster_state::others(i as NodeId, state.nodes.len())
        && state.nodes[i].wf() by {
        assert(state.node_wf(i));
    }
}

/// Delivering a message keeps a cluster explained.
proof fn delivery_is_explained(state: ClusterState, h: History) -> (next: History)
    requires
        explained(state, h),
        state.messages.len() > 0,
        logs_fit(state.delivered()),
    ensures
        explained(state.delivered(), next),
        state.delivered().nodes.len() == state.nodes.len(),
        h.extends(next),
{
    let after = state.delivered();
    crate::traffic::delivery_keeps(state);
    wf_is_placed(state);
    let message = state.messages[0];
    let at = message.to as int;
    let all = crate::safety::moves::cores(state.nodes);
    let rest = state.messages.drop_first();
    assert(h.message_ok(all, message));
    assert(state.message_wf(message));
    if !state.carries(message) {
        assert(rest =~= (rest + Seq::<MessageView>::empty()));
        drop_is_safe(h, all, state.messages);
        h
    } else {
        let a = state.nodes[at];
        let (node, sent) = a.handled(message.from, message.rpc, state.now_ms);
        let plain = a.on_message(message.from, message.rpc, state.now_ms).0;
        assert(state.node_wf(at));
        crate::node_laws::settled_keeps(plain);
        crate::node_laws::message_keeps(a, message.from, message.rpc, state.now_ms);
        assert(after.nodes == state.nodes.update(at, node));
        assert(after.nodes[at].log.len() <= usize::MAX);
        assert(plain.log == node.log);
        let next = h.message_keeps(state.nodes, state.messages, state.now_ms);
        let moved = crate::safety::moves::cores(state.nodes.update(at, plain));
        let now = crate::safety::moves::cores(after.nodes);
        assert(moved =~= now);
        let keep = |m: MessageView|
            ClusterState {
                nodes: state.nodes.update(at, node),
                messages: rest,
                ..state
            }.carries(m);
        next.losing_keeps(now, rest, sent, keep);
        assert(after.messages =~= rest + sent.filter(keep));
        handling_stays_in_line(h, state.nodes, message, state.now_ms);
        assert forall|i: int| 0 <= i < after.nodes.len() implies in_line(#[trigger] after.nodes[i])
            && crate::node_laws::opened(after.nodes[i]) by {
            if i != at {
                assert(after.nodes[i] == state.nodes[i]);
            }
        }
        next
    }
}

proof fn drop_is_safe(h: History, nodes: Seq<crate::safety::history::Core>, messages: Seq<MessageView>)
    requires
        h.safe(nodes, messages),
        messages.len() > 0,
    ensures
        h.safe(nodes, messages.drop_first()),
{
    h.taking_keeps(nodes, messages);
}

/// Ticks keep a cluster explained.
proof fn ticks_are_explained(state: ClusterState, h: History, count: nat) -> (next: History)
    requires
        state.nodes.len() <= usize::MAX,
        count <= state.nodes.len(),
        state.now_ms + crate::node_state::ELECTION_MAX_MS <= u64::MAX,
        forall|i: int| 0 <= i < state.nodes.len() ==> #[trigger] state.node_wf(i),
        forall|i: int|
            0 <= i < state.nodes.len() ==> (#[trigger] state.nodes[i]).current_term
                < state.now_ms,
        forall|i: int|
            0 <= i < state.messages.len() ==> state.message_wf(#[trigger] state.messages[i]),
        h.safe(crate::safety::moves::cores(state.nodes), state.messages),
        forall|i: int|
            0 <= i < state.nodes.len() ==> in_line(#[trigger] state.nodes[i]) && crate::node_laws::opened(
                state.nodes[i],
            ),
    ensures
        explained(state.ticked(count), next),
        state.ticked(count).nodes.len() == state.nodes.len(),
        h.extends(next),
    decreases count,
{
    crate::traffic::ticks_keep(state, count);
    if count == 0 {
        h
    } else {
        crate::traffic::ticks_keep(state, (count - 1) as nat);
        let middle = ticks_are_explained(state, h, (count - 1) as nat);
        let before = state.ticked((count - 1) as nat);
        let after = state.ticked(count);
        let id = (count - 1) as NodeId;
        if before.stopped.contains(id) {
            middle
        } else {
            wf_is_placed(before);
            assert(before.nodes[count - 1] == state.nodes[count - 1]);
            assert(before.nodes[count - 1].current_term < state.now_ms);
            let (node, sent) = before.nodes[count - 1].tick(before.now_ms);
            let next = middle.tick_keeps(before.nodes, id, before.messages, before.now_ms);
            h.extends_through(middle, next);
            let keep = |m: MessageView|
                ClusterState { nodes: before.nodes.update(count - 1, node), ..before }.carries(m);
            let now = crate::safety::moves::cores(after.nodes);
            assert(after.nodes == before.nodes.update(count - 1, node));
            next.losing_keeps(now, before.messages, sent, keep);
            assert(after.messages =~= before.messages + sent.filter(keep));
            assert forall|i: int| 0 <= i < after.nodes.len() implies in_line(
                #[trigger] after.nodes[i],
            ) && crate::node_laws::opened(after.nodes[i]) by {
                assert(in_line(before.nodes[i]) && crate::node_laws::opened(before.nodes[i]));
            }
            next
        }
    }
}

/// A client's request keeps a cluster explained.
proof fn request_is_explained(
    state: ClusterState,
    h: History,
    id: NodeId,
    request: ClientRequest,
) -> (next: History)
    requires
        explained(state, h),
        id < state.nodes.len(),
        logs_fit(state.proposed(id, request)),
    ensures
        explained(state.proposed(id, request), next),
        state.proposed(id, request).nodes.len() == state.nodes.len(),
        h.extends(next),
{
    let after = state.proposed(id, request);
    let at = id as int;
    let (node, _, sent) = state.nodes[at].served(request);
    let a = state.nodes[at];
    assert(after.nodes == state.nodes.update(at, node));
    assert(after.nodes[at].log.len() <= usize::MAX);
    crate::traffic::proposal_keeps(state, id, request);
    wf_is_placed(state);
    let keep = |m: MessageView|
        ClusterState { nodes: state.nodes.update(at, node), ..state }.carries(m);
    let now = crate::safety::moves::cores(after.nodes);
    let writes = a.role == Role::Leader && (request is Put || request is Delete);
    let next = if writes {
        let command = crate::node::command_of(request)->Some_0;
        assert(node == a.proposed(command));
        assert(sent == node.appends());
        h.proposal_keeps(state.nodes, id, state.messages, command)
    } else {
        assert(node == a);
        assert(state.nodes.update(at, node) =~= state.nodes);
        assert(sent =~= Seq::empty());
        assert(state.messages + sent =~= state.messages);
        h
    };
    next.losing_keeps(now, state.messages, sent, keep);
    assert(after.messages =~= state.messages + sent.filter(keep));
    assert forall|i: int| 0 <= i < after.nodes.len() implies in_line(#[trigger] after.nodes[i])
        && crate::node_laws::opened(after.nodes[i]) by {
        assert(in_line(state.nodes[i]) && crate::node_laws::opened(state.nodes[i]));
        if i == at && writes {
            agreeing_logs_replay_alike(a.log, node.log, a.commit_index);
            assert(node.log[a.term_start_index - 1] == a.log[a.term_start_index - 1]);
            assert forall|k: int| 0 <= k < node.term_start_index - 1 implies (
            #[trigger] node.log[k]).term < node.current_term by {
                assert(node.log[k] == a.log[k]);
            }
        }
    }
    next
}

/// The restart of a node keeps a cluster explained.
proof fn restart_is_explained(
    state: ClusterState,
    h: History,
    at: int,
    again: NodeState<KvState>,
)
    requires
        explained(state, h),
        0 <= at < state.nodes.len(),
        restarted(state.nodes[at], again),
    ensures
        explained(ClusterState { nodes: state.nodes.update(at, again), ..state }, h),
{
    let after = ClusterState { nodes: state.nodes.update(at, again), ..state };
    let a = state.nodes[at];
    assert(state.node_wf(at));
    let all = crate::safety::moves::cores(state.nodes);
    let now = crate::safety::moves::cores(after.nodes);
    assert(all[at] == crate::safety::moves::core_of(a));
    assert(now =~= all.update(at, crate::safety::moves::core_of(again)));
    h.restarting_keeps(all, at as NodeId, now);
    h.messages_stay(all, h, now, state.messages);
    assert(in_line(a));
    crate::traffic::placed(state, at, again);
    assert forall|i: int| 0 <= i < after.nodes.len() implies in_line(#[trigger] after.nodes[i])
        && crate::node_laws::opened(after.nodes[i]) by {
        if i != at {
            assert(after.nodes[i] == state.nodes[i]);
        }
    }
}

/// A step keeps a cluster explained.
proof fn step_is_explained(state: ClusterState, h: History) -> (next: History)
    requires
        explained(state, h),
        state.can_step(),
        logs_fit(state.step()),
    ensures
        explained(state.step(), next),
        state.step().nodes.len() == state.nodes.len(),
        h.extends(next),
{
    if state.messages.len() > 0 {
        delivery_is_explained(state, h)
    } else {
        let later = ClusterState { now_ms: (state.now_ms + 1) as u64, ..state };
        assert(state.step() == later.ticked(state.nodes.len()));
        crate::traffic::clock_makes_room(state);
        ticks_are_explained(later, h, state.nodes.len())
    }
}

/// A move keeps a cluster explained.
pub proof fn move_is_explained(before: ClusterState, after: ClusterState, h: History) -> (next:
    History)
    requires
        explained(before, h),
        moves(before, after),
    ensures
        explained(after, next),
        after.nodes.len() == before.nodes.len(),
        h.extends(next),
{
    if before.can_step() && after == before.step() && logs_fit(after) {
        step_is_explained(before, h)
    } else if exists|id: NodeId, request: ClientRequest|
        id < before.nodes.len() && after == #[trigger] before.proposed(id, request) && logs_fit(
            after,
        ) {
        let (id, request) = choose|id: NodeId, request: ClientRequest|
            id < before.nodes.len() && after == #[trigger] before.proposed(id, request) && logs_fit(
                after,
            );
        request_is_explained(before, h, id, request)
    } else if exists|i: int, again: NodeState<KvState>|
        0 <= i < before.nodes.len() && #[trigger] restarted(before.nodes[i], again) && after == (
        ClusterState { nodes: before.nodes.update(i, again), ..before }) {
        let (i, again) = choose|i: int, again: NodeState<KvState>|
            0 <= i < before.nodes.len() && #[trigger] restarted(before.nodes[i], again) && after
                == (ClusterState { nodes: before.nodes.update(i, again), ..before });
        restart_is_explained(before, h, i, again);
        h
    } else {
        assert forall|i: int| 0 <= i < after.nodes.len() implies #[trigger] after.node_wf(i) by {
            assert(before.node_wf(i));
        }
        assert forall|i: int| 0 <= i < after.messages.len() implies after.message_wf(
            #[trigger] after.messages[i],
        ) by {
            assert(before.message_wf(before.messages[i]));
        }
        h
    }
}

/// Every later point of a run has a later history.
proof fn run_is_explained(
    trace: Seq<ClusterState>,
    size: nat,
    h: History,
    from: int,
    to: int,
) -> (next: History)
    requires
        runs(trace, size),
        0 <= from <= to < trace.len(),
        explained(trace[from], h),
    ensures
        explained(trace[to], next),
        trace[to].nodes.len() == trace[from].nodes.len(),
        h.extends(next),
    decreases to - from,
{
    if from == to {
        h
    } else {
        assert(moves(trace[from], trace[from + 1]));
        let middle = move_is_explained(trace[from], trace[from + 1], h);
        let next = run_is_explained(trace, size, middle, from + 1, to);
        h.extends_through(middle, next);
        next
    }
}

/// The histories of two points of a run.
proof fn histories(trace: Seq<ClusterState>, size: nat, k: int, l: int) -> (pair: (
    History,
    History,
))
    requires
        runs(trace, size),
        0 <= k <= l < trace.len(),
    ensures
        explained(trace[k], pair.0),
        explained(trace[l], pair.1),
        pair.0.extends(pair.1),
        trace[k].nodes.len() == size,
        trace[l].nodes.len() == size,
{
    start_is_explained(size);
    let first = run_is_explained(trace, size, nothing_yet(), 0, k);
    let second = run_is_explained(trace, size, first, k, l);
    (first, second)
}

/// A term has at most one leader, ever.
pub proof fn one_leader_per_term(
    trace: Seq<ClusterState>,
    size: nat,
    k: int,
    l: int,
    i: int,
    j: int,
)
    requires
        runs(trace, size),
        0 <= k <= l < trace.len(),
        0 <= i < size,
        0 <= j < size,
        trace[k].nodes[i].role == Role::Leader,
        trace[l].nodes[j].role == Role::Leader,
        trace[k].nodes[i].current_term == trace[l].nodes[j].current_term,
    ensures
        i == j,
{
    let (g, h) = histories(trace, size, k, l);
    let before = crate::safety::moves::cores(trace[k].nodes);
    let after = crate::safety::moves::cores(trace[l].nodes);
    assert(before[i] == crate::safety::moves::core_of(trace[k].nodes[i]));
    assert(after[j] == crate::safety::moves::core_of(trace[l].nodes[j]));
    assert(g.node_ok(before, i as NodeId));
    assert(h.node_ok(after, j as NodeId));
    assert(g.led(before[i].term));
}

/// If two logs, at any two times, have entries of one term in the same place,
/// they are the same up to that place.
pub proof fn logs_match(
    trace: Seq<ClusterState>,
    size: nat,
    k: int,
    l: int,
    i: int,
    j: int,
    n: int,
)
    requires
        runs(trace, size),
        0 <= k <= l < trace.len(),
        0 <= i < size,
        0 <= j < size,
        1 <= n <= trace[k].nodes[i].log.len(),
        n <= trace[l].nodes[j].log.len(),
        trace[k].nodes[i].log[n - 1].term == trace[l].nodes[j].log[n - 1].term,
    ensures
        trace[k].nodes[i].log.take(n) == trace[l].nodes[j].log.take(n),
{
    let (g, h) = histories(trace, size, k, l);
    let before = crate::safety::moves::cores(trace[k].nodes);
    let after = crate::safety::moves::cores(trace[l].nodes);
    let a = trace[k].nodes[i].log;
    let b = trace[l].nodes[j].log;
    assert(before[i] == crate::safety::moves::core_of(trace[k].nodes[i]));
    assert(after[j] == crate::safety::moves::core_of(trace[l].nodes[j]));
    assert(g.node_ok(before, i as NodeId));
    assert(h.node_ok(after, j as NodeId));
    let term = a[n - 1].term;
    assert(g.led(term));
    assert(crate::safety::history::agree(a, g.logs[term], n));
    assert(crate::safety::history::agree(b, h.logs[term], n));
    assert(crate::safety::history::agree(
        h.logs[term],
        g.logs[term],
        g.logs[term].len() as int,
    ));
    assert(a.take(n) =~= b.take(n));
}

/// Two committed beginnings of logs are the same as far as both go.
proof fn commitments_agree(
    h: History,
    nodes: Seq<crate::safety::history::Core>,
    a: Seq<LogEntry>,
    a_term: Term,
    b: Seq<LogEntry>,
    b_term: Term,
    m: int,
    o: int,
    n: int,
)
    requires
        h.nodes_ok(nodes),
        h.committed(a, m, a_term, nodes.len()),
        h.committed(b, o, b_term, nodes.len()),
        0 <= n <= m <= a.len(),
        n <= o <= b.len(),
    ensures
        crate::safety::history::agree(a, b, n),
{
    if n > 0 {
        let (s, p) = choose|t: Term, p: int|
            t <= a_term && m <= p && #[trigger] h.chosen(t, p, nodes.len())
                && crate::safety::history::agree(a, h.logs[t], m);
        let (t, q) = choose|t: Term, q: int|
            t <= b_term && o <= q && #[trigger] h.chosen(t, q, nodes.len())
                && crate::safety::history::agree(b, h.logs[t], o);
        if s <= t {
            h.chosen_is_kept(nodes, s, p, t);
        } else {
            h.chosen_is_kept(nodes, t, q, s);
        }
    }
}

/// What a node has committed is never lost and never differs: at any two times,
/// the committed entries of any two nodes are the same as far as both go.
pub proof fn committed_entries_agree(
    trace: Seq<ClusterState>,
    size: nat,
    k: int,
    l: int,
    i: int,
    j: int,
    n: int,
)
    requires
        runs(trace, size),
        0 <= k <= l < trace.len(),
        0 <= i < size,
        0 <= j < size,
        0 <= n <= trace[k].nodes[i].commit_index,
        n <= trace[l].nodes[j].commit_index,
    ensures
        n <= trace[k].nodes[i].log.len(),
        n <= trace[l].nodes[j].log.len(),
        trace[k].nodes[i].log.take(n) == trace[l].nodes[j].log.take(n),
{
    let (g, h) = histories(trace, size, k, l);
    let before = crate::safety::moves::cores(trace[k].nodes);
    let after = crate::safety::moves::cores(trace[l].nodes);
    let a = trace[k].nodes[i];
    let b = trace[l].nodes[j];
    assert(before[i] == crate::safety::moves::core_of(a));
    assert(after[j] == crate::safety::moves::core_of(b));
    assert(g.node_ok(before, i as NodeId));
    assert(h.node_ok(after, j as NodeId));
    g.committed_stays(h, a.log, a.commit_index as int, a.current_term, a.current_term, size);
    commitments_agree(
        h,
        after,
        a.log,
        a.current_term,
        b.log,
        b.current_term,
        a.commit_index as int,
        b.commit_index as int,
        n,
    );
    assert(a.log.take(n) =~= b.log.take(n));
}

/// What is committed stays in the log of every leader of a later term.
pub proof fn leaders_hold_what_is_committed(
    trace: Seq<ClusterState>,
    size: nat,
    k: int,
    l: int,
    i: int,
    j: int,
)
    requires
        runs(trace, size),
        0 <= k <= l < trace.len(),
        0 <= i < size,
        0 <= j < size,
        trace[l].nodes[j].role == Role::Leader,
        trace[k].nodes[i].current_term <= trace[l].nodes[j].current_term,
    ensures
        ({
            let n = trace[k].nodes[i].commit_index as int;
            &&& n <= trace[k].nodes[i].log.len()
            &&& n <= trace[l].nodes[j].log.len()
            &&& trace[k].nodes[i].log.take(n) == trace[l].nodes[j].log.take(n)
        }),
{
    let (g, h) = histories(trace, size, k, l);
    let before = crate::safety::moves::cores(trace[k].nodes);
    let after = crate::safety::moves::cores(trace[l].nodes);
    let a = trace[k].nodes[i];
    let b = trace[l].nodes[j];
    let n = a.commit_index as int;
    assert(before[i] == crate::safety::moves::core_of(a));
    assert(after[j] == crate::safety::moves::core_of(b));
    assert(g.node_ok(before, i as NodeId));
    assert(h.node_ok(after, j as NodeId));
    g.committed_stays(h, a.log, n, a.current_term, a.current_term, size);
    h.committed_is_kept(after, a.log, n, a.current_term, b.current_term);
    assert(a.log.take(n) =~= b.log.take(n));
}

/// Nodes that have applied equally many entries, at any two times, hold the same
/// data: that which the committed commands write.
pub proof fn machines_agree(
    trace: Seq<ClusterState>,
    size: nat,
    k: int,
    l: int,
    i: int,
    j: int,
)
    requires
        runs(trace, size),
        0 <= k <= l < trace.len(),
        0 <= i < size,
        0 <= j < size,
        trace[k].nodes[i].last_applied == trace[l].nodes[j].last_applied,
    ensures
        trace[k].nodes[i].data == trace[l].nodes[j].data,
        trace[k].nodes[i].data == replayed(
            trace[k].nodes[i].log,
            trace[k].nodes[i].last_applied,
        ),
{
    let (g, h) = histories(trace, size, k, l);
    let a = trace[k].nodes[i];
    let b = trace[l].nodes[j];
    assert(in_line(a) && in_line(b));
    let n = a.commit_index as int;
    committed_entries_agree(trace, size, k, l, i, j, n);
    assert(commands(a.log, n) =~= commands(b.log, n));
}

/// A leader that serves reads has applied everything that any node had committed
/// in an earlier term: it does not serve a stale value of those.
pub proof fn reads_are_not_stale(
    trace: Seq<ClusterState>,
    size: nat,
    k: int,
    l: int,
    i: int,
    j: int,
)
    requires
        runs(trace, size),
        0 <= k <= l < trace.len(),
        0 <= i < size,
        0 <= j < size,
        trace[l].nodes[j].role == Role::Leader,
        trace[l].nodes[j].can_serve_reads(),
        trace[k].nodes[i].current_term < trace[l].nodes[j].current_term,
    ensures
        trace[k].nodes[i].commit_index <= trace[l].nodes[j].last_applied,
        trace[l].nodes[j].data == replayed(
            trace[l].nodes[j].log,
            trace[l].nodes[j].last_applied,
        ),
{
    let (g, h) = histories(trace, size, k, l);
    let before = crate::safety::moves::cores(trace[k].nodes);
    let after = crate::safety::moves::cores(trace[l].nodes);
    let a = trace[k].nodes[i];
    let b = trace[l].nodes[j];
    let n = a.commit_index as int;
    assert(before[i] == crate::safety::moves::core_of(a));
    assert(after[j] == crate::safety::moves::core_of(b));
    assert(g.node_ok(before, i as NodeId));
    assert(h.node_ok(after, j as NodeId));
    assert(in_line(b) && crate::node_laws::opened(b));
    g.committed_stays(h, a.log, n, a.current_term, a.current_term, size);
    if n > 0 {
        let (t, m) = choose|t: Term, m: int|
            t <= a.current_term && n <= m && #[trigger] h.chosen(t, m, size)
                && crate::safety::history::agree(a.log, h.logs[t], n);
        h.chosen_is_kept(after, t, m, b.current_term);
        assert(b.log[m - 1].term == t);
        if m >= b.term_start_index {
            assert(b.log[b.term_start_index - 1].term <= b.log[m - 1].term);
        }
    }
}

/// A node's term and commit index are no lower than before.
pub open spec fn no_lower(before: NodeState<KvState>, after: NodeState<KvState>) -> bool {
    after.current_term >= before.current_term && after.commit_index >= before.commit_index
}

proof fn delivery_lowers_nothing(state: ClusterState, h: History, i: int)
    requires
        explained(state, h),
        state.messages.len() > 0,
        logs_fit(state.delivered()),
        0 <= i < state.nodes.len(),
    ensures
        no_lower(state.nodes[i], state.delivered().nodes[i]),
{
    let message = state.messages[0];
    let at = message.to as int;
    assert(state.message_wf(message));
    if state.carries(message) && i == at {
        let all = crate::safety::moves::cores(state.nodes);
        let a = state.nodes[at];
        let next = a.on_message(message.from, message.rpc, state.now_ms).0;
        assert(state.node_wf(at));
        assert(h.message_ok(all, message));
        assert(all[at] == crate::safety::moves::core_of(a));
        assert(in_line(a));
        crate::node_laws::settled_keeps(next);
        let node = a.handled(message.from, message.rpc, state.now_ms).0;
        assert(state.delivered().nodes == state.nodes.update(at, node));
        assert(state.delivered().nodes[at].log.len() <= usize::MAX);
        match message.rpc {
            RpcView::AppendEntries(request) => {
                if a.accepts(request) {
                    accepting_keeps_commit(h, all, message, request);
                }
            },
            RpcView::AppendEntriesReply(reply) => {
                if reply.term <= a.current_term && a.heeds(reply) && reply.success {
                    commit_stays_in_log(a, message.from, reply);
                }
            },
            _ => {},
        }
    }
}

proof fn ticks_lower_nothing(state: ClusterState, count: nat, i: int)
    requires
        state.nodes.len() <= usize::MAX,
        count <= state.nodes.len(),
        0 <= i < state.nodes.len(),
        state.now_ms + crate::node_state::ELECTION_MAX_MS <= u64::MAX,
        state.messages.len() == 0,
        forall|j: int| 0 <= j < state.nodes.len() ==> #[trigger] state.node_wf(j),
        forall|j: int|
            0 <= j < state.nodes.len() ==> (#[trigger] state.nodes[j]).current_term < state.now_ms,
    ensures
        no_lower(state.nodes[i], state.ticked(count).nodes[i]),
    decreases count,
{
    if count > 0 {
        crate::traffic::ticks_keep(state, (count - 1) as nat);
        ticks_lower_nothing(state, (count - 1) as nat, i);
        assert(state.nodes[i].current_term < state.now_ms);
    }
}

proof fn move_lowers_nothing(before: ClusterState, after: ClusterState, h: History, i: int)
    requires
        explained(before, h),
        moves(before, after),
        0 <= i < before.nodes.len(),
    ensures
        no_lower(before.nodes[i], after.nodes[i]),
{
    if before.can_step() && after == before.step() && logs_fit(after) {
        if before.messages.len() > 0 {
            delivery_lowers_nothing(before, h, i);
        } else {
            let later = ClusterState { now_ms: (before.now_ms + 1) as u64, ..before };
            crate::traffic::clock_makes_room(before);
            ticks_lower_nothing(later, before.nodes.len(), i);
        }
    }
}

/// Over a run, no node's term and no node's commit index ever falls.
pub proof fn terms_and_commits_never_fall(
    trace: Seq<ClusterState>,
    size: nat,
    k: int,
    l: int,
    i: int,
)
    requires
        runs(trace, size),
        0 <= k <= l < trace.len(),
        0 <= i < size,
    ensures
        no_lower(trace[k].nodes[i], trace[l].nodes[i]),
    decreases l - k,
{
    if k < l {
        let (h, _) = histories(trace, size, k, l);
        assert(moves(trace[k], trace[k + 1]));
        move_lowers_nothing(trace[k], trace[k + 1], h, i);
        terms_and_commits_never_fall(trace, size, k + 1, l, i);
    }
}

/// Over a run, every node has applied exactly what it has committed.
pub proof fn committed_is_applied(trace: Seq<ClusterState>, size: nat, k: int, i: int)
    requires
        runs(trace, size),
        0 <= k < trace.len(),
        0 <= i < size,
    ensures
        in_line(trace[k].nodes[i]),
{
    let (h, _) = histories(trace, size, k, k);
}

/// All of several nodes have the first `n` entries of a log.
pub open spec fn held_by(
    state: ClusterState,
    holders: Set<NodeId>,
    log: Seq<LogEntry>,
    n: int,
) -> bool {
    forall|v: NodeId| #[trigger]
        holders.contains(v) ==> n <= state.nodes[v as int].log.len() && state.nodes[v as int].log.take(
            n,
        ) == log.take(n)
}

/// What a node has committed is in the logs of a majority.
pub proof fn committed_entries_are_on_a_majority(
    trace: Seq<ClusterState>,
    size: nat,
    k: int,
    i: int,
)
    requires
        runs(trace, size),
        0 <= k < trace.len(),
        0 <= i < size,
        trace[k].nodes[i].commit_index > 0,
    ensures
        exists|holders: Set<NodeId>| #[trigger]
            crate::safety::history::quorum(holders, size) && held_by(
                trace[k],
                holders,
                trace[k].nodes[i].log,
                trace[k].nodes[i].commit_index as int,
            ),
{
    let (g, h) = histories(trace, size, k, k);
    let nodes = crate::safety::moves::cores(trace[k].nodes);
    let a = trace[k].nodes[i];
    let n = a.commit_index as int;
    assert(nodes[i] == crate::safety::moves::core_of(a));
    assert(h.node_ok(nodes, i as NodeId));
    let (t, m) = choose|t: Term, m: int|
        t <= a.current_term && n <= m && #[trigger] h.chosen(t, m, size)
            && crate::safety::history::agree(a.log, h.logs[t], n);
    let q = choose|q: Set<NodeId>| #[trigger]
        crate::safety::history::quorum(q, size) && h.acked_by(q, t, m);
    h.chosen_is_not_dead(nodes, t, m);
    assert forall|v: NodeId| #[trigger] q.contains(v) implies n
        <= trace[k].nodes[v as int].log.len() && trace[k].nodes[v as int].log.take(n)
        == a.log.take(n) by {
        let b = trace[k].nodes[v as int];
        assert(nodes[v as int] == crate::safety::moves::core_of(b));
        assert(h.node_ok(nodes, v));
        assert(h.ack(t, v) >= m);
        assert(h.acks.contains_key((t, v)));
        assert(h.ack_ok(nodes, t, v));
        assert(h.own_entry(t, m));
        assert(h.kept(b.log, t, m));
        assert(b.log.take(n) =~= a.log.take(n));
    }
    assert(held_by(trace[k], q, a.log, n));
}

/// While the logs of half of the nodes or more stay as they are, as those of
/// stopped nodes do, nothing is committed but what one of them held before.
pub proof fn nothing_new_is_committed_without_a_majority(
    trace: Seq<ClusterState>,
    size: nat,
    k: int,
    l: int,
    i: int,
    down: Set<NodeId>,
) -> (v: NodeId)
    requires
        runs(trace, size),
        0 <= k <= l < trace.len(),
        0 <= i < size,
        trace[l].nodes[i].commit_index > 0,
        down.finite(),
        down.len() * 2 >= size,
        forall|v: NodeId| #[trigger]
            down.contains(v) ==> v < size && trace[l].nodes[v as int].log
                == trace[k].nodes[v as int].log,
    ensures
        down.contains(v),
        trace[l].nodes[i].commit_index <= trace[k].nodes[v as int].log.len(),
        trace[k].nodes[v as int].log.take(trace[l].nodes[i].commit_index as int)
            == trace[l].nodes[i].log.take(trace[l].nodes[i].commit_index as int),
{
    let n = trace[l].nodes[i].commit_index as int;
    committed_entries_are_on_a_majority(trace, size, l, i);
    let holders = choose|holders: Set<NodeId>| #[trigger]
        crate::safety::history::quorum(holders, size) && held_by(
            trace[l],
            holders,
            trace[l].nodes[i].log,
            n,
        );
    if holders.disjoint(down) {
        vstd::set_lib::lemma_set_disjoint_lens(holders, down);
        crate::safety::history::bounded_set(holders + down, size);
    }
    choose|v: NodeId| holders.contains(v) && down.contains(v)
}

} // verus!
