//! Starting a node: what it remembers, and what it does not.
use crate::node_state::NodeState;
use crate::state_machine::{KvState, StateMachine};
use crate::storage::DurableState;
use crate::types::{LogIndex, NodeId, Role};
use vstd::prelude::*;

verus! {

/// A node that has just started: a follower that knows no leader, has no votes and
/// no knowledge of its peers' logs, and waits 150 to 300 milliseconds.
pub open spec fn just_started<S>(node: NodeState<S>, id: NodeId, peers: Seq<NodeId>) -> bool {
    &&& node.id == id
    &&& node.peers == peers
    &&& node.role == Role::Follower
    &&& node.leader_id is None
    &&& node.votes_granted == 0
    &&& node.last_heartbeat_at == 0
    &&& node.term_start_index == 0
    &&& node.next_index == Map::<NodeId, LogIndex>::empty()
    &&& node.match_index == Map::<NodeId, LogIndex>::empty()
    &&& 150 <= node.election_deadline <= 300
    &&& node.election_deadline == 150 + node.rng_state % 151
    &&& node.rng_state == crate::conduct::elections::drawn(
        ((id + 1) as u64).wrapping_mul(0x9e37_79b9_7f4a_7c15),
    )
}

/// A new node has an empty log and no term and vote; its machine is the one it was
/// given, as far as that has come.
pub proof fn new_nodes_know_nothing<S: StateMachine>(id: NodeId, peers: Seq<NodeId>, machine: S)
    ensures
        ({
            let node = crate::node::fresh(id, peers, machine);
            &&& just_started(node, id, peers)
            &&& node.current_term == 0 && node.voted_for is None
            &&& node.log.len() == 0 && node.commit_index == 0
            &&& node.data == machine && node.last_applied == machine.applied()
        }),
{
}

/// The lesser of a commit index and the length of a log.
pub open spec fn within_log(commit_index: LogIndex, len: nat) -> int {
    if commit_index <= len {
        commit_index as int
    } else {
        len as int
    }
}

/// A node that is loaded from what was saved, over any machine however far that has
/// come, has exactly the saved term, vote and log, and the saved commit index as far
/// as the log goes. The committed commands that its machine lacks are applied.
pub proof fn loaded_nodes_remember<S: StateMachine>(
    saved: Option<DurableState>,
    id: NodeId,
    peers: Seq<NodeId>,
    machine: S,
    node: NodeState<S>,
)
    requires
        crate::storage::loads(saved, id, peers, machine, node),
        saved matches Some(state) ==> state.log@.len() <= usize::MAX,
    ensures
        just_started(node, id, peers),
        saved matches Some(state) ==> {
            &&& node.current_term == state.current_term
            &&& node.voted_for == state.voted_for
            &&& node.log == state.log@
            &&& node.commit_index == within_log(state.commit_index, state.log@.len())
            &&& exists|start: NodeState<S>, machines: Seq<S>|
                {
                    &&& start == (NodeState {
                        data: machine,
                        last_applied: machine.applied(),
                        ..node
                    })
                    &&& #[trigger] crate::conduct::replication::applied_so_far(
                        start,
                        node,
                        machines,
                    )
                }
        },
        saved is None ==> {
            &&& node.current_term == 0 && node.voted_for is None
            &&& node.log.len() == 0 && node.commit_index == 0
            &&& node.data == machine && node.last_applied == machine.applied()
        },
{
    if let Some(state) = saved {
        let start = crate::node::restored(
            id,
            peers,
            state.current_term,
            state.voted_for,
            state.log@,
            state.commit_index,
            machine,
        );
        crate::node_laws::settling_keeps_the_rest(start, node);
        let machines = crate::conduct::replication::committed_commands_are_applied_in_order(
            start,
            node,
        );
        assert(start == (NodeState { data: machine, last_applied: machine.applied(), ..node }));
    }
}

/// A node made from parts, over any machine, has exactly these parts.
pub proof fn nodes_are_made_of_their_parts<S: StateMachine>(
    id: NodeId,
    peers: Seq<NodeId>,
    state: DurableState,
    machine: S,
    node: NodeState<S>,
)
    requires
        crate::node::restored(
            id,
            peers,
            state.current_term,
            state.voted_for,
            state.log@,
            state.commit_index,
            machine,
        ).settles(node),
        state.log@.len() <= usize::MAX,
    ensures
        just_started(node, id, peers),
        node.current_term == state.current_term,
        node.voted_for == state.voted_for,
        node.log == state.log@,
        node.commit_index == within_log(state.commit_index, state.log@.len()),
{
    loaded_nodes_remember(Some(state), id, peers, machine, node);
}

/// What is saved of a node is its term, its vote, its log and its commit index.
pub proof fn saving_forgets_nothing<S>(node: NodeState<S>, state: DurableState)
    requires
        state.is_of(node),
    ensures
        state.current_term == node.current_term,
        state.voted_for == node.voted_for,
        state.log@ == node.log,
        state.commit_index == node.commit_index,
{
}

/// A node that is saved and loaded again over its own machine has its term, vote,
/// log and commit index back; a node of the same term that had voted still has.
pub proof fn saving_and_loading_gives_back<S: StateMachine>(
    before: NodeState<S>,
    state: DurableState,
    machine: S,
    after: NodeState<S>,
)
    requires
        state.is_of(before),
        before.log.len() <= usize::MAX,
        before.commit_index <= before.log.len(),
        crate::storage::loads(Some(state), before.id, before.peers, machine, after),
    ensures
        after.current_term == before.current_term,
        after.voted_for == before.voted_for,
        after.log == before.log,
        after.commit_index == before.commit_index,
        after.id == before.id,
        after.peers == before.peers,
        state.is_of(after),
{
    loaded_nodes_remember(Some(state), before.id, before.peers, machine, after);
}

/// A node that voted in a term and is loaded again gives no other candidate its vote
/// in that term.
pub proof fn votes_survive_a_restart<S: StateMachine>(
    before: NodeState<S>,
    state: DurableState,
    machine: S,
    after: NodeState<S>,
    request: crate::types::RequestVote,
    now_ms: u64,
)
    requires
        state.is_of(before),
        before.log.len() <= usize::MAX,
        before.commit_index <= before.log.len(),
        crate::storage::loads(Some(state), before.id, before.peers, machine, after),
        before.voted_for is Some,
        request.term == before.current_term,
        before.voted_for != Some(request.candidate_id),
    ensures
        !after.on_request_vote(request, now_ms).1.vote_granted,
{
    saving_and_loading_gives_back(before, state, machine, after);
}

/// A state is saved again exactly if the node's term, vote, commit index or log
/// differs from it.
pub proof fn changes_are_saved<S>(node: NodeState<S>, state: DurableState)
    ensures
        state.is_stale(node) == !crate::conduct::service::nothing_to_save(
            crate::server::saved_view(state),
            node,
        ),
{
    crate::conduct::service::same_entries_say_the_same(node.log, state.log@);
}

/// Over a key-value machine, a loaded node has applied the log as far as it is
/// committed.
pub proof fn loaded_machines_are_rebuilt(
    saved: Option<DurableState>,
    id: NodeId,
    peers: Seq<NodeId>,
    key: Seq<char>,
)
    requires
        saved matches Some(state) ==> state.log@.len() <= usize::MAX,
    ensures
        ({
            let node = crate::storage::loaded_kv(saved, id, peers);
            &&& just_started(node, id, peers)
            &&& saved matches Some(state) ==> {
                &&& node.current_term == state.current_term
                &&& node.voted_for == state.voted_for
                &&& node.log == state.log@
                &&& node.commit_index == within_log(state.commit_index, state.log@.len())
                &&& node.last_applied == node.commit_index
                &&& node.data.lookup(key) == match crate::conduct::replication::last_word(
                    crate::conduct::replication::commands_between(
                        state.log@,
                        0,
                        node.commit_index as int,
                    ),
                    key,
                ) {
                    Some(value) => value,
                    None => None,
                }
            }
            &&& saved is None ==> {
                &&& node.current_term == 0 && node.voted_for is None
                &&& node.log.len() == 0 && node.commit_index == 0 && node.last_applied == 0
                &&& node.data.lookup(key) is None
            }
        }),
{
    if let Some(state) = saved {
        let start = NodeState {
            current_term: state.current_term,
            voted_for: state.voted_for,
            log: state.log@,
            commit_index: within_log(state.commit_index, state.log@.len()) as LogIndex,
            ..crate::node::fresh_kv(id, peers)
        };
        assert(crate::storage::loaded_kv(saved, id, peers) == start.settled());
        crate::conduct::replication::the_last_command_counts(start, key);
        crate::node_laws::settled_keeps(start);
    }
}

/// A runtime starts with its node as it was loaded: nothing is to be saved, and the
/// node's role, term and leader are no news.
pub proof fn runtimes_start_with_what_was_loaded<S>(
    node: NodeState<S>,
    metrics: crate::observability::MetricsState,
)
    ensures
        ({
            let runtime = crate::server::RuntimeState::started(node, metrics);
            &&& runtime.node == node
            &&& runtime.metrics == metrics
            &&& runtime.unsaved() is None
            &&& runtime.saved.current_term == node.current_term
            &&& runtime.saved.voted_for == node.voted_for
            &&& runtime.saved.log == node.log
            &&& runtime.saved.commit_index == node.commit_index
            &&& runtime.last_role == node.role
            &&& runtime.last_term == node.current_term
            &&& runtime.last_leader_id == node.leader_id
        }),
{
    assert(crate::storage::same_entries(node.log, node.log));
}

} // verus!
