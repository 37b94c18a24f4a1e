//! The simulated cluster: what travels, what is lost, and who acts when.
use crate::cluster_state::ClusterState;
use crate::node_state::NodeState;
use crate::state_machine::KvState;
use crate::types::{
    ClientReplyView, ClientRequest, Command, LogEntry, MessageView, NodeId, Role,
};
use vstd::prelude::*;

verus! {

/// A message gets through: neither end is stopped, and nothing blocks the way.
pub open spec fn gets_through(state: ClusterState, message: MessageView) -> bool {
    &&& !state.stopped.contains(message.from)
    &&& !state.stopped.contains(message.to)
    &&& !state.blocked.contains((message.from, message.to))
}

/// Those of several messages that get through, in their order.
pub open spec fn travelling(state: ClusterState, messages: Seq<MessageView>) -> Seq<MessageView>
    decreases messages.len(),
{
    if messages.len() == 0 {
        Seq::empty()
    } else if gets_through(state, messages.last()) {
        travelling(state, messages.drop_last()).push(messages.last())
    } else {
        travelling(state, messages.drop_last())
    }
}

proof fn queue_takes_what_travels(state: ClusterState, messages: Seq<MessageView>)
    ensures
        state.enqueued(messages) == (ClusterState {
            messages: state.messages + travelling(state, messages),
            ..state
        }),
    decreases messages.len(),
{
    reveal(Seq::filter);
    if messages.len() > 0 {
        queue_takes_what_travels(state, messages.drop_last());
        let keep = |message: MessageView| state.carries(message);
        assert(messages.filter(keep) =~= travelling(state, messages)) by {
            filter_is_travelling(state, messages);
        }
    } else {
        assert(messages.filter(|message: MessageView| state.carries(message)) =~= travelling(
            state,
            messages,
        ));
    }
}

proof fn filter_is_travelling(state: ClusterState, messages: Seq<MessageView>)
    ensures
        messages.filter(|message: MessageView| state.carries(message)) == travelling(
            state,
            messages,
        ),
    decreases messages.len(),
{
    reveal(Seq::filter);
    if messages.len() > 0 {
        filter_is_travelling(state, messages.drop_last());
    }
}

proof fn travelling_depends_on_the_ways(
    a: ClusterState,
    b: ClusterState,
    messages: Seq<MessageView>,
)
    requires
        a.stopped == b.stopped,
        a.blocked == b.blocked,
    ensures
        travelling(a, messages) == travelling(b, messages),
    decreases messages.len(),
{
    if messages.len() > 0 {
        travelling_depends_on_the_ways(a, b, messages.drop_last());
    }
}

/// A new cluster has so many new nodes, numbered from zero, each with all others as
/// its peers; nothing is queued, stopped or blocked, and the clock stands at zero.
pub proof fn new_clusters_are_whole(size: nat, i: int, peer: NodeId)
    requires
        size <= usize::MAX,
        0 <= i < size,
    ensures
        ({
            let state = ClusterState::initial(size);
            let node = state.nodes[i];
            &&& state.nodes.len() == size
            &&& state.messages.len() == 0 && state.now_ms == 0
            &&& state.stopped == Set::<NodeId>::empty()
            &&& state.blocked == Set::<(NodeId, NodeId)>::empty()
            &&& node.id == i
            &&& node.peers.len() == size - 1
            &&& node.peers.contains(peer) == (peer < size && peer != i)
            &&& crate::conduct::restarts::just_started(node, i as NodeId, node.peers)
            &&& node.current_term == 0 && node.voted_for is None && node.log.len() == 0
            &&& node.commit_index == 0 && node.last_applied == 0
            &&& node.data.data == Map::<Seq<char>, Seq<char>>::empty()
        }),
{
    let peers = crate::cluster_state::others(i as NodeId, size);
    if peer < size && peer != i {
        assert(peers[if peer < i { peer as int } else { peer - 1 }] == peer);
    }
}

/// A step delivers the first queued message, if there is one. It is lost where it
/// does not get through. Else its recipient handles it, and those of the answers
/// that get through are queued behind the rest; no other node changes, and the
/// clock stands still.
pub proof fn messages_are_delivered_in_order(state: ClusterState, i: int)
    requires
        state.messages.len() > 0,
        state.messages[0].to < state.nodes.len(),
        0 <= i < state.nodes.len(),
    ensures
        ({
            let message = state.messages[0];
            let after = state.step();
            let (node, sent) = state.nodes[message.to as int].handled(
                message.from,
                message.rpc,
                state.now_ms,
            );
            &&& after.now_ms == state.now_ms
            &&& after.stopped == state.stopped && after.blocked == state.blocked
            &&& after.nodes.len() == state.nodes.len()
            &&& gets_through(state, message) ==> {
                &&& after.nodes[i] == if i == message.to {
                    node
                } else {
                    state.nodes[i]
                }
                &&& after.messages == state.messages.drop_first() + travelling(state, sent)
            }
            &&& !gets_through(state, message) ==> {
                &&& after.nodes[i] == state.nodes[i]
                &&& after.messages == state.messages.drop_first()
            }
        }),
{
    let message = state.messages[0];
    let rest = ClusterState { messages: state.messages.drop_first(), ..state };
    let (node, sent) = state.nodes[message.to as int].handled(
        message.from,
        message.rpc,
        state.now_ms,
    );
    let placed = ClusterState { nodes: state.nodes.update(message.to as int, node), ..rest };
    queue_takes_what_travels(placed, sent);
    travelling_depends_on_the_ways(placed, state, sent);
}

/// What the first nodes of a cluster send when the clock reaches them.
pub open spec fn tick_messages(state: ClusterState, count: nat) -> Seq<MessageView>
    decreases count,
{
    if count == 0 {
        Seq::empty()
    } else {
        let before = tick_messages(state, (count - 1) as nat);
        let id = (count - 1) as NodeId;
        if state.stopped.contains(id) {
            before
        } else {
            before + travelling(state, state.nodes[count - 1].tick(state.now_ms).1)
        }
    }
}

proof fn ticks_reach_each(state: ClusterState, count: nat)
    requires
        count <= state.nodes.len() <= usize::MAX,
    ensures
        ({
            let after = state.ticked(count);
            &&& after.now_ms == state.now_ms
            &&& after.stopped == state.stopped && after.blocked == state.blocked
            &&& after.nodes.len() == state.nodes.len()
            &&& after.messages == state.messages + tick_messages(state, count)
            &&& forall|i: int|
                0 <= i < state.nodes.len() ==> #[trigger] after.nodes[i] == if i < count
                    && !state.stopped.contains(i as NodeId) {
                    state.nodes[i].tick(state.now_ms).0
                } else {
                    state.nodes[i]
                }
        }),
    decreases count,
{
    if count > 0 {
        let before = state.ticked((count - 1) as nat);
        ticks_reach_each(state, (count - 1) as nat);
        let id = (count - 1) as NodeId;
        assert(before.nodes[count - 1] == state.nodes[count - 1]);
        if !before.stopped.contains(id) {
            let (node, sent) = before.nodes[count - 1].tick(before.now_ms);
            let placed = ClusterState { nodes: before.nodes.update(count - 1, node), ..before };
            queue_takes_what_travels(placed, sent);
            travelling_depends_on_the_ways(placed, state, sent);
            assert(state.ticked(count).messages =~= state.messages + tick_messages(state, count));
        }
    } else {
        assert(state.messages + tick_messages(state, 0) =~= state.messages);
    }
}

/// With nothing queued, a step moves the clock on by a millisecond. Every running
/// node is told the time, in the order of the ids, and what they then send is queued
/// as far as it gets through; stopped nodes do not change.
pub proof fn the_clock_reaches_running_nodes(state: ClusterState, i: int)
    requires
        state.messages.len() == 0,
        state.now_ms < u64::MAX,
        state.nodes.len() <= usize::MAX,
        0 <= i < state.nodes.len(),
    ensures
        ({
            let after = state.step();
            let later = ClusterState { now_ms: (state.now_ms + 1) as u64, ..state };
            &&& after.now_ms == state.now_ms + 1
            &&& after.stopped == state.stopped && after.blocked == state.blocked
            &&& after.nodes.len() == state.nodes.len()
            &&& after.nodes[i] == if state.stopped.contains(i as NodeId) {
                state.nodes[i]
            } else {
                state.nodes[i].tick((state.now_ms + 1) as u64).0
            }
            &&& after.messages == tick_messages(later, state.nodes.len())
        }),
{
    let later = ClusterState { now_ms: (state.now_ms + 1) as u64, ..state };
    ticks_reach_each(later, state.nodes.len());
    assert(later.messages + tick_messages(later, state.nodes.len()) =~= tick_messages(
        later,
        state.nodes.len(),
    ));
}

/// A client's request to a running node is served by that node alone, and what it
/// sends is queued as far as it gets through. A stopped node gives no answer, and
/// nothing changes.
pub proof fn requests_go_to_one_node(
    state: ClusterState,
    id: NodeId,
    request: ClientRequest,
    i: int,
)
    requires
        id < state.nodes.len(),
        0 <= i < state.nodes.len(),
    ensures
        ({
            let (after, reply) = state.asked(id, request);
            let (node, answer, sent) = state.nodes[id as int].served(request);
            &&& state.stopped.contains(id) ==> {
                &&& after == state
                &&& !reply.success && reply.leader_id is None && reply.response is None
            }
            &&& !state.stopped.contains(id) ==> {
                &&& reply == answer
                &&& after.nodes[i] == if i == id {
                    node
                } else {
                    state.nodes[i]
                }
                &&& after.messages == state.messages + travelling(state, sent)
                &&& after.nodes.len() == state.nodes.len()
                &&& after.now_ms == state.now_ms
                &&& after.stopped == state.stopped && after.blocked == state.blocked
            }
        }),
{
    let (node, _, sent) = state.nodes[id as int].served(request);
    let placed = ClusterState { nodes: state.nodes.update(id as int, node), ..state };
    queue_takes_what_travels(placed, sent);
    travelling_depends_on_the_ways(placed, state, sent);
}

/// What a node of the cluster answers: a leader takes a write into its log with its own
/// term and tells its peers; a leader that has proven itself serves reads, and any node
/// local ones; every other request is refused, with the leader that the node knows of.
pub proof fn nodes_answer_by_their_role(node: NodeState<KvState>, request: ClientRequest)
    ensures
        ({
            let (after, reply, sent) = node.served(request);
            let leads = node.role == Role::Leader;
            let refused = {
                &&& !reply.success && reply.response is None && sent.len() == 0 && after == node
                &&& reply.leader_id == if leads {
                    Some(node.id)
                } else {
                    node.leader_id
                }
            };
            let found = |key: Seq<char>|
                {
                    &&& reply.success && sent.len() == 0 && after == node
                    &&& node.data.data.contains_key(key) ==> reply.response == Some(
                        node.data.data[key],
                    )
                    &&& !node.data.data.contains_key(key) ==> reply.response is None
                };
            let logged = |command: Command|
                {
                    &&& reply == (ClientReplyView {
                        success: true,
                        leader_id: Some(node.id),
                        response: Some("accepted"@),
                    })
                    &&& after.log == node.log.push(LogEntry { term: node.current_term, command })
                    &&& after == (NodeState {
                        log: after.log,
                        match_index: node.match_index.insert(node.id, after.log.len() as usize),
                        ..node
                    })
                    &&& sent.len() == node.peers.len()
                    &&& forall|i: int|
                        0 <= i < sent.len() ==> (#[trigger] sent[i]).to == node.peers[i]
                            && sent[i].from == node.id
                };
            match request {
                ClientRequest::Put { key, value } => if leads {
                    logged(Command::Put { key, value })
                } else {
                    refused
                },
                ClientRequest::Delete { key } => if leads {
                    logged(Command::Delete { key })
                } else {
                    refused
                },
                ClientRequest::Get { key } => if leads && node.commit_index
                    >= node.term_start_index {
                    found(key@) && reply.leader_id == Some(node.id)
                } else {
                    refused
                },
                ClientRequest::LocalGet { key } => found(key@) && reply.leader_id
                    == node.leader_id,
            }
        }),
{
}

/// Some group holds both nodes.
pub open spec fn share_a_group(groups: Seq<Seq<NodeId>>, a: NodeId, b: NodeId) -> bool {
    exists|g: int|
        0 <= g < groups.len() && (#[trigger] groups[g]).contains(a) && groups[g].contains(b)
}

/// A partition blocks the way between two different nodes exactly if no group holds
/// both, whatever was blocked before; it changes nothing else, and works both ways.
/// Healing blocks nothing any more.
pub proof fn partitions_part_the_groups(
    state: ClusterState,
    groups: Seq<Seq<NodeId>>,
    a: NodeId,
    b: NodeId,
)
    requires
        a < state.nodes.len(),
        b < state.nodes.len(),
    ensures
        ({
            let parted = state.partitioned(groups);
            &&& parted.blocked.contains((a, b)) == (a != b && !share_a_group(groups, a, b))
            &&& parted.blocked.contains((a, b)) == parted.blocked.contains((b, a))
            &&& parted == (ClusterState { blocked: parted.blocked, ..state })
        }),
        !state.healed().blocked.contains((a, b)),
        state.healed() == (ClusterState { blocked: state.healed().blocked, ..state }),
{
    let parted = state.partitioned(groups);
    assert(crate::cluster_state::connected(groups, a, b) == share_a_group(groups, a, b));
    assert(share_a_group(groups, a, b) == share_a_group(groups, b, a)) by {
        if share_a_group(groups, a, b) {
            let g = choose|g: int|
                0 <= g < groups.len() && (#[trigger] groups[g]).contains(a) && groups[g].contains(b);
            assert(groups[g].contains(b));
        }
        if share_a_group(groups, b, a) {
            let g = choose|g: int|
                0 <= g < groups.len() && (#[trigger] groups[g]).contains(b) && groups[g].contains(a);
            assert(groups[g].contains(a));
        }
    }
}

/// Stopping a node stops that node, for good, and nothing else changes.
pub proof fn stopping_stops_one_node(state: ClusterState, id: NodeId, other: NodeId)
    ensures
        state.without(id).stopped.contains(id),
        other != id ==> state.without(id).stopped.contains(other) == state.stopped.contains(other),
        state.without(id) == (ClusterState { stopped: state.without(id).stopped, ..state }),
{
}

/// A cluster is led by a node if that is the only one that runs and leads; with none
/// or several it has no leader.
pub proof fn a_cluster_has_one_leader_or_none(state: ClusterState, leader: Option<NodeId>)
    requires
        state.is_led_by(leader),
        state.nodes.len() <= usize::MAX,
    ensures
        leader matches Some(id) ==> {
            &&& id < state.nodes.len()
            &&& state.nodes[id as int].role == Role::Leader
            &&& !state.stopped.contains(id)
            &&& forall|other: NodeId|
                #![trigger state.stopped.contains(other)]
                other < state.nodes.len() && state.nodes[other as int].role == Role::Leader
                    && !state.stopped.contains(other) ==> other == id
        },
        leader is None ==> forall|id: NodeId|
            #![trigger state.stopped.contains(id)]
            id < state.nodes.len() && state.nodes[id as int].role == Role::Leader
                && !state.stopped.contains(id) ==> exists|other: NodeId|
                #![trigger state.stopped.contains(other)]
                other != id && other < state.nodes.len() && state.nodes[other as int].role
                    == Role::Leader && !state.stopped.contains(other),
{
    match leader {
        Some(id) => {
            assert forall|other: NodeId|
                #![trigger state.stopped.contains(other)]
                other < state.nodes.len() && state.nodes[other as int].role == Role::Leader
                    && !state.stopped.contains(other) implies other == id by {
                assert(state.leads(other as int));
            }
        },
        None => {
            assert forall|id: NodeId|
                #![trigger state.stopped.contains(id)]
                id < state.nodes.len() && state.nodes[id as int].role == Role::Leader
                    && !state.stopped.contains(id) implies exists|other: NodeId|
                #![trigger state.stopped.contains(other)]
                other != id && other < state.nodes.len() && state.nodes[other as int].role
                    == Role::Leader && !state.stopped.contains(other) by {
                assert(state.leads(id as int));
                let other = choose|other: int| #[trigger] state.leads(other) && other != id;
                assert(!state.stopped.contains(other as NodeId));
            }
        },
    }
}

/// A run goes step by step: so many steps and one more are one step after so many.
pub proof fn runs_go_step_by_step(state: ClusterState, steps: nat)
    ensures
        state.after(0) == state,
        state.after(steps + 1) == state.after(steps).step(),
{
}

/// A run that lasts a duration ends at the first step at which the clock has passed
/// it: it takes every step before that, and stops there.
pub proof fn runs_last_until_the_time_is_past(
    from: ClusterState,
    duration_ms: u64,
    to: ClusterState,
) -> (steps: nat)
    requires
        from.lasts(duration_ms, to),
        from.now_ms + duration_ms + 301 <= u64::MAX,
    ensures
        to == from.after(steps),
        to.now_ms == from.now_ms + duration_ms + 1,
        forall|earlier: nat|
            earlier < steps ==> (#[trigger] from.after(earlier)).now_ms <= from.now_ms
                + duration_ms,
{
    choose|steps: nat|
        {
            &&& to == #[trigger] from.after(steps)
            &&& forall|earlier: nat|
                earlier < steps ==> (#[trigger] from.after(earlier)).now_ms <= from.now_ms
                    + duration_ms
        }
}

} // verus!
