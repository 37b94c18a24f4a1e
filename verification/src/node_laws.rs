//! What the operations of a node keep, over a key-value machine.
use crate::node_state::NodeState;
use crate::state_machine::{KvState, StateMachine, StateMachineError};
use crate::types::{
    AppendEntriesView, ClientRequest, Command, LogEntry, LogIndex, MessageView, NodeId, Role, RpcView,
    Term,
};
use vstd::prelude::*;

verus! {

/// Applying committed entries changes nothing but the machine, and leaves
/// nothing to apply.
pub proof fn settled_keeps(state: NodeState<KvState>)
    requires
        state.data.last_applied == state.last_applied,
    ensures
        state.settled() == (NodeState {
            data: state.settled().data,
            last_applied: state.settled().last_applied,
            ..state
        }),
        state.settled().data.last_applied == state.settled().last_applied,
        state.settled().last_applied >= state.commit_index,
        state.settled().last_applied >= state.last_applied,
        state.last_applied >= state.commit_index ==> state.settled() == state,
        state.last_applied < state.commit_index ==> state.settled().last_applied
            == state.commit_index,
    decreases state.commit_index - state.last_applied,
{
    if state.last_applied < state.commit_index {
        let (data, outcome) = state.data.apply(
            (state.last_applied + 1) as usize,
            state.log[state.last_applied as int].command,
        );
        settled_keeps(
            NodeState { data, last_applied: (state.last_applied + 1) as usize, ..state },
        );
    }
}

/// The machine is where the node thinks it is and nothing committed waits.
pub open spec fn in_step(node: NodeState<KvState>) -> bool {
    node.last_applied >= node.commit_index && node.data.last_applied == node.last_applied
}

/// What holds of every message a node sends: it comes from the node, in its
/// current term, and a replication request that builds on nothing says so.
pub open spec fn sent_by(node: NodeState<KvState>, message: MessageView) -> bool {
    &&& message.from == node.id
    &&& crate::cluster_state::term_of(message.rpc) == node.current_term
    &&& message.rpc matches RpcView::AppendEntries(request) ==> request.prev_log_index == 0
        ==> request.prev_log_term == 0
}

/// The ways in which a node may change in one operation.
pub open spec fn follows(before: NodeState<KvState>, after: NodeState<KvState>) -> bool {
    &&& after.id == before.id
    &&& after.peers == before.peers
    &&& after.current_term >= before.current_term
    &&& in_step(after)
    &&& after.last_applied >= before.last_applied
    &&& after.log.len() <= usize::MAX ==> after.wf()
}

/// A tick keeps a node in order; the term grows by at most one.
pub proof fn tick_keeps(node: NodeState<KvState>, now_ms: u64)
    requires
        node.wf(),
        in_step(node),
        node.campaigns(now_ms) ==> node.current_term < u64::MAX,
    ensures
        follows(node, node.tick(now_ms).0),
        node.tick(now_ms).0.current_term <= node.current_term + 1,
        node.tick(now_ms).0.log == node.log,
        forall|i: int|
            0 <= i < node.tick(now_ms).1.len() ==> {
                &&& sent_by(node.tick(now_ms).0, #[trigger] node.tick(now_ms).1[i])
                &&& node.peers.contains(node.tick(now_ms).1[i].to)
            },
{
}

pub proof fn commit_bounds(node: NodeState<KvState>, bound: int)
    requires
        bound <= node.log.len() <= usize::MAX,
    ensures
        node.commit_up_to(bound) >= node.commit_index,
        node.commit_up_to(bound) > node.commit_index ==> node.commit_up_to(bound)
            <= node.log.len(),
    decreases bound - node.commit_index,
{
    if bound > node.commit_index && !node.committable(bound) {
        commit_bounds(node, bound - 1);
    }
}

/// A peer's message keeps a node in order; the term does not pass that of the
/// message.
pub proof fn message_keeps(node: NodeState<KvState>, from: NodeId, rpc: RpcView, now_ms: u64)
    requires
        node.wf(),
        in_step(node),
    ensures
        follows(node, node.handled(from, rpc, now_ms).0),
        node.handled(from, rpc, now_ms).0.current_term <= node.current_term
            || node.handled(from, rpc, now_ms).0.current_term == crate::cluster_state::term_of(
            rpc,
        ),
        forall|i: int|
            0 <= i < node.handled(from, rpc, now_ms).1.len() ==> {
                &&& sent_by(
                    node.handled(from, rpc, now_ms).0,
                    #[trigger] node.handled(from, rpc, now_ms).1[i],
                )
                &&& node.handled(from, rpc, now_ms).1[i].to == from || node.peers.contains(
                    node.handled(from, rpc, now_ms).1[i].to,
                )
            },
{
    let (next, sent) = node.on_message(from, rpc, now_ms);
    settled_keeps(next);
    match rpc {
        RpcView::AppendEntriesReply(reply) => {
            let marked = NodeState {
                match_index: node.match_index.insert(from, reply.match_index),
                next_index: node.next_index.insert(from, reply.match_index.saturating_add(1)),
                ..node
            };
            commit_bounds(marked, marked.log.len() as int);
        },
        _ => {},
    }
}

/// A proposal keeps a leader in order.
pub proof fn proposal_keeps(node: NodeState<KvState>, command: Command)
    requires
        node.wf(),
        in_step(node),
        node.role == Role::Leader,
    ensures
        follows(node, node.proposed(command)),
        forall|i: int|
            0 <= i < node.proposed(command).appends().len() ==> {
                &&& sent_by(node.proposed(command), #[trigger] node.proposed(command).appends()[i])
                &&& node.peers.contains(node.proposed(command).appends()[i].to)
            },
{
}

/// What is shared lies in the log, and its terms are those of the entries.
proof fn shared_is_bounded(log: Seq<LogEntry>, prev: int, entries: Seq<LogEntry>)
    requires
        0 <= prev <= log.len(),
    ensures
        crate::node_state::shared_len(log, prev, entries) <= entries.len(),
        prev + crate::node_state::shared_len(log, prev, entries) <= log.len(),
        forall|k: int|
            0 <= k < crate::node_state::shared_len(log, prev, entries) ==> log[prev + k].term
                == (#[trigger] entries[k]).term,
    decreases entries.len(),
{
    if entries.len() > 0 && prev < log.len() && log[prev].term == entries[0].term {
        let rest = entries.drop_first();
        shared_is_bounded(log, prev + 1, rest);
        assert forall|k: int|
            0 <= k < crate::node_state::shared_len(log, prev, entries) implies log[prev + k].term
            == (#[trigger] entries[k]).term by {
            if k > 0 {
                assert(entries[k] == rest[k - 1]);
            }
        }
    }
}

/// Entries whose terms all stand in the log are shared.
proof fn held_is_shared(log: Seq<LogEntry>, prev: int, entries: Seq<LogEntry>)
    requires
        0 <= prev,
        prev + entries.len() <= log.len(),
        forall|k: int|
            0 <= k < entries.len() ==> log[prev + k].term == (#[trigger] entries[k]).term,
    ensures
        crate::node_state::shared_len(log, prev, entries) == entries.len(),
    decreases entries.len(),
{
    if entries.len() > 0 {
        let rest = entries.drop_first();
        assert(entries[0].term == log[prev + 0].term);
        assert forall|k: int| 0 <= k < rest.len() implies log[prev + 1 + k].term == (
        #[trigger] rest[k]).term by {
            assert(rest[k] == entries[k + 1]);
            assert(log[prev + (k + 1)].term == entries[k + 1].term);
        }
        held_is_shared(log, prev + 1, rest);
    }
}

/// Taking the same entries a second time changes nothing.
pub proof fn merging_twice_changes_nothing(log: Seq<LogEntry>, prev: int, entries: Seq<LogEntry>)
    requires
        0 <= prev <= log.len(),
    ensures
        ({
            let once = crate::node_state::merged(log, prev, entries);
            &&& crate::node_state::merged(once, prev, entries) == once
            &&& once.len() >= prev + entries.len()
            &&& once.take(prev) == log.take(prev)
        }),
{
    let once = crate::node_state::merged(log, prev, entries);
    let shared = crate::node_state::shared_len(log, prev, entries) as int;
    shared_is_bounded(log, prev, entries);
    assert forall|k: int| 0 <= k < entries.len() implies once[prev + k].term == (
    #[trigger] entries[k]).term by {
        if k >= shared {
            assert(once[prev + k] == entries[k]);
        } else {
            assert(once[prev + k] == log[prev + k]);
        }
    }
    held_is_shared(once, prev, entries);
    assert(once.take(prev) =~= log.take(prev));
}

/// A replication request that comes a second time, after what was committed may
/// have been applied, gets the same answer and changes nothing more; only the
/// election timer starts anew.
pub proof fn append_twice_changes_nothing<D>(
    node: NodeState<D>,
    request: AppendEntriesView,
    once: NodeState<D>,
    first_ms: u64,
    second_ms: u64,
)
    requires
        node.accepts(request),
        once == (NodeState {
            data: once.data,
            last_applied: once.last_applied,
            ..node.on_append_entries(request, first_ms).0
        }),
    ensures
        once.accepts(request),
        once.on_append_entries(request, second_ms).1 == node.on_append_entries(
            request,
            first_ms,
        ).1,
        once.on_append_entries(request, second_ms).0 == once.timer_reset(second_ms),
{
    let prev = request.prev_log_index as int;
    merging_twice_changes_nothing(node.log, prev, request.entries);
    if prev > 0 {
        assert(once.log.take(prev)[prev - 1] == node.log.take(prev)[prev - 1]);
    }
}

/// Applying what is committed changes nothing but the machine and how far it has
/// come.
pub proof fn settling_keeps_the_rest<S: StateMachine>(before: NodeState<S>, after: NodeState<S>)
    requires
        before.settles(after),
    ensures
        after == (NodeState { data: after.data, last_applied: after.last_applied, ..before }),
    decreases before.commit_index - before.last_applied,
{
    if before.last_applied < before.commit_index {
        let (data, outcome) = choose|data: S, outcome: Result<(), StateMachineError>|
            {
                &&& #[trigger] S::applies(
                    before.data,
                    (before.last_applied + 1) as LogIndex,
                    before.log[before.last_applied as int].command,
                    data,
                    outcome,
                )
                &&& match outcome {
                    Err(_) => after == (NodeState { data, ..before }),
                    Ok(_) => NodeState {
                        data,
                        last_applied: (before.last_applied + 1) as LogIndex,
                        ..before
                    }.settles(after),
                }
            };
        if outcome is Ok {
            let next = NodeState {
                data,
                last_applied: (before.last_applied + 1) as LogIndex,
                ..before
            };
            settling_keeps_the_rest(next, after);
        }
    }
}

/// A node over whatever machine that gets an accepted replication request a second
/// time sends the same reply and changes nothing but its election timer, unless
/// the machine still lags behind what is committed.
pub proof fn repeated_append_on_any_machine<S: StateMachine>(
    node: NodeState<S>,
    request: AppendEntriesView,
    once: NodeState<S>,
    twice: NodeState<S>,
    first_ms: u64,
    second_ms: u64,
)
    requires
        node.accepts(request),
        node.on_append_entries(request, first_ms).0.settles(once),
        once.last_applied >= once.commit_index,
        once.on_append_entries(request, second_ms).0.settles(twice),
    ensures
        once.accepts(request),
        once.on_append_entries(request, second_ms).1 == node.on_append_entries(
            request,
            first_ms,
        ).1,
        twice == once.timer_reset(second_ms),
{
    settling_keeps_the_rest(node.on_append_entries(request, first_ms).0, once);
    append_twice_changes_nothing(node, request, once, first_ms, second_ms);
}

/// A node over a key-value machine that gets an accepted replication request a
/// second time, whenever that is, sends the same reply and changes nothing but its
/// election timer: neither log, commit index, machine nor vote.
pub proof fn repeated_append_changes_nothing(
    node: NodeState<KvState>,
    from: NodeId,
    request: AppendEntriesView,
    first_ms: u64,
    second_ms: u64,
)
    requires
        node.accepts(request),
        node.data.last_applied == node.last_applied,
    ensures
        ({
            let rpc = RpcView::AppendEntries(request);
            let (once, sent) = node.handled(from, rpc, first_ms);
            let (twice, sent_again) = once.handled(from, rpc, second_ms);
            twice == once.timer_reset(second_ms) && sent_again == sent
        }),
{
    let rpc = RpcView::AppendEntries(request);
    let next = node.on_append_entries(request, first_ms).0;
    let once = node.handled(from, rpc, first_ms).0;
    settled_keeps(next);
    append_twice_changes_nothing(node, request, once, first_ms, second_ms);
    settled_keeps(once.timer_reset(second_ms));
}

/// The entry that opened a leader's term is the first of the term.
pub open spec fn opened<D>(node: NodeState<D>) -> bool {
    node.role == Role::Leader ==> {
        &&& 1 <= node.term_start_index <= node.log.len()
        &&& node.log[node.term_start_index - 1].term == node.current_term
        &&& forall|k: int|
            0 <= k < node.term_start_index - 1 ==> (#[trigger] node.log[k]).term < node.current_term
    }
}

/// A log holds no term above this one.
pub open spec fn up_to_term(log: Seq<LogEntry>, term: Term) -> bool {
    forall|k: int| 0 <= k < log.len() ==> (#[trigger] log[k]).term <= term
}

/// A candidate has no entry of its term yet.
pub open spec fn unopened<D>(node: NodeState<D>) -> bool {
    node.role == Role::Candidate ==> forall|k: int|
        0 <= k < node.log.len() ==> (#[trigger] node.log[k]).term < node.current_term
}

/// A node whose log holds no term above its own, with the entry that opened its
/// term marked as soon as it leads.
pub open spec fn dated<D>(node: NodeState<D>) -> bool {
    up_to_term(node.log, node.current_term) && unopened(node) && opened(node)
}

/// A replication request whose entries are not of a later term than its own.
pub open spec fn request_is_dated(rpc: RpcView) -> bool {
    rpc matches RpcView::AppendEntries(request) ==> up_to_term(request.entries, request.term)
}

/// A follower whose log holds no term above its own is dated; so are a new node
/// and one that is restored.
pub proof fn follower_is_dated<D>(node: NodeState<D>)
    requires
        node.role == Role::Follower,
        up_to_term(node.log, node.current_term),
    ensures
        dated(node),
{
}

/// A new node is dated.
pub proof fn new_node_is_dated<S: StateMachine>(id: NodeId, peers: Seq<NodeId>, data: S)
    ensures
        dated(crate::node::fresh(id, peers, data)),
{
}

/// A tick keeps a node dated.
pub proof fn tick_keeps_dated<D>(node: NodeState<D>, now_ms: u64)
    requires
        dated(node),
        node.campaigns(now_ms) ==> node.current_term < u64::MAX,
    ensures
        dated(node.tick(now_ms).0),
{
}

proof fn merging_keeps_terms(log: Seq<LogEntry>, prev: int, entries: Seq<LogEntry>, term: Term)
    requires
        0 <= prev <= log.len(),
        up_to_term(log, term),
        up_to_term(entries, term),
    ensures
        up_to_term(crate::node_state::merged(log, prev, entries), term),
{
    let merged = crate::node_state::merged(log, prev, entries);
    let shared = crate::node_state::shared_len(log, prev, entries) as int;
    shared_is_bounded(log, prev, entries);
    assert forall|k: int| 0 <= k < merged.len() implies (#[trigger] merged[k]).term <= term by {
        if shared < entries.len() && k >= prev + shared {
            assert(merged[k] == entries[k - prev]);
        } else {
            assert(merged[k] == log[k]);
        }
    }
}

/// A peer's message keeps the first entry of a leader's term marked, and keeps a
/// node dated unless it carries entries of a later term than its own.
pub proof fn message_keeps_dated<D>(node: NodeState<D>, from: NodeId, rpc: RpcView, now_ms: u64)
    requires
        dated(node),
        node.on_message(from, rpc, now_ms).0.log.len() <= usize::MAX,
    ensures
        opened(node.on_message(from, rpc, now_ms).0),
        request_is_dated(rpc) ==> dated(node.on_message(from, rpc, now_ms).0),
{
    let next = node.on_message(from, rpc, now_ms).0;
    match rpc {
        RpcView::AppendEntries(request) => {
            if node.accepts(request) && request_is_dated(rpc) {
                assert(up_to_term(node.log, request.term));
                merging_keeps_terms(
                    node.log,
                    request.prev_log_index as int,
                    request.entries,
                    request.term,
                );
            }
        },
        RpcView::RequestVoteReply(reply) => {
            if reply.term <= node.current_term && node.counts(reply) && next.role == Role::Leader {
                assert(next.log == node.log.push(next.log.last()));
                assert forall|k: int| 0 <= k < node.log.len() implies (#[trigger] next.log[k]).term
                    < next.current_term by {
                    assert(next.log[k] == node.log[k]);
                }
            }
        },
        _ => {},
    }
}

/// A command that a leader takes keeps it dated.
pub proof fn proposal_keeps_dated<D>(node: NodeState<D>, command: Command)
    requires
        dated(node),
        node.role == Role::Leader,
    ensures
        dated(node.proposed(command)),
{
    let next = node.proposed(command);
    assert(next.log == node.log.push(next.log.last()));
    assert forall|k: int| 0 <= k < node.log.len() implies #[trigger] next.log[k] == node.log[k] by {}
}

/// Applying what is committed, on whatever machine, keeps a node dated.
pub proof fn settling_keeps_dated<S: StateMachine>(before: NodeState<S>, after: NodeState<S>)
    requires
        dated(before),
        before.settles(after),
    ensures
        dated(after),
    decreases before.commit_index - before.last_applied,
{
    if before.last_applied < before.commit_index {
        let (data, outcome) = choose|data: S, outcome: Result<(), StateMachineError>|
            {
                &&& #[trigger] S::applies(
                    before.data,
                    (before.last_applied + 1) as LogIndex,
                    before.log[before.last_applied as int].command,
                    data,
                    outcome,
                )
                &&& match outcome {
                    Err(_) => after == (NodeState { data, ..before }),
                    Ok(_) => NodeState {
                        data,
                        last_applied: (before.last_applied + 1) as LogIndex,
                        ..before
                    }.settles(after),
                }
            };
        if outcome is Ok {
            let next = NodeState {
                data,
                last_applied: (before.last_applied + 1) as LogIndex,
                ..before
            };
            settling_keeps_dated(next, after);
        }
    }
}

/// A peer's message keeps a node over a key-value machine dated.
pub proof fn handling_keeps_dated(
    node: NodeState<KvState>,
    from: NodeId,
    rpc: RpcView,
    now_ms: u64,
)
    requires
        dated(node),
        node.data.last_applied == node.last_applied,
        request_is_dated(rpc),
        node.on_message(from, rpc, now_ms).0.log.len() <= usize::MAX,
    ensures
        dated(node.handled(from, rpc, now_ms).0),
{
    message_keeps_dated(node, from, rpc, now_ms);
    settled_keeps(node.on_message(from, rpc, now_ms).0);
}

/// A client's request keeps a node over a key-value machine dated.
pub proof fn serving_keeps_dated(node: NodeState<KvState>, request: ClientRequest)
    requires
        dated(node),
    ensures
        dated(node.served(request).0),
{
    if node.role == Role::Leader {
        match request {
            ClientRequest::Put { key, value } => {
                proposal_keeps_dated(node, Command::Put { key, value });
            },
            ClientRequest::Delete { key } => {
                proposal_keeps_dated(node, Command::Delete { key });
            },
            _ => {},
        }
    }
}

/// A leader serves reads exactly once the first entry of its own term is committed.
pub proof fn reads_wait_for_the_first_entry<D>(node: NodeState<D>, first: LogIndex)
    requires
        dated(node),
        node.role == Role::Leader,
        first >= 1,
        node.term_at(first) == Some(node.current_term),
        forall|index: LogIndex|
            1 <= index < first ==> #[trigger] node.term_at(index) != Some(node.current_term),
    ensures
        first == node.term_start_index,
        node.can_serve_reads() == (node.commit_index >= first),
{
    assert(node.term_at(node.term_start_index) == Some(node.current_term));
    if first < node.term_start_index {
        assert(node.log[first - 1].term < node.current_term);
    }
}

/// What a node does leaves its term as it is or raises it.
pub proof fn terms_never_fall<D>(node: NodeState<D>, from: NodeId, rpc: RpcView, now_ms: u64)
    ensures
        node.on_message(from, rpc, now_ms).0.current_term >= node.current_term,
        node.campaigns(now_ms) && node.current_term == u64::MAX
            || node.tick(now_ms).0.current_term >= node.current_term,
{
}

/// A node that has applied exactly what is committed.
pub open spec fn is_settled(node: NodeState<KvState>) -> bool {
    &&& node.data.last_applied == node.last_applied
    &&& node.last_applied == node.commit_index
}

/// A message after which the log still reaches as far as what was committed leaves
/// a node with exactly what is committed applied, and its commit index no lower.
pub proof fn message_settles(node: NodeState<KvState>, from: NodeId, rpc: RpcView, now_ms: u64)
    requires
        is_settled(node),
        node.log.len() <= usize::MAX,
        node.commit_index <= node.on_message(from, rpc, now_ms).0.log.len() <= usize::MAX,
    ensures
        is_settled(node.handled(from, rpc, now_ms).0),
        node.handled(from, rpc, now_ms).0.commit_index >= node.commit_index,
{
    let next = node.on_message(from, rpc, now_ms).0;
    settled_keeps(next);
    match rpc {
        RpcView::AppendEntriesReply(reply) => {
            let marked = NodeState {
                match_index: node.match_index.insert(from, reply.match_index),
                next_index: node.next_index.insert(from, reply.match_index.saturating_add(1)),
                ..node
            };
            commit_bounds(marked, marked.log.len() as int);
        },
        _ => {},
    }
}

/// A tick and a client's request leave exactly what is committed applied.
pub proof fn ticks_and_requests_settle(
    node: NodeState<KvState>,
    now_ms: u64,
    request: ClientRequest,
)
    requires
        is_settled(node),
    ensures
        is_settled(node.tick(now_ms).0),
        is_settled(node.served(request).0),
        node.tick(now_ms).0.commit_index == node.commit_index,
        node.served(request).0.commit_index == node.commit_index,
{
}

} // verus!
