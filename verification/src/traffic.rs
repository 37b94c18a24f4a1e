//! Why the message traffic of a cluster always comes to rest, and what a step
//! keeps.
use crate::cluster_state::{ClusterState};
use crate::node_state::NodeState;
use crate::state_machine::KvState;
use crate::types::{ClientRequest, Command, MessageView, NodeId, Role, RpcView};
use vstd::prelude::*;

verus! {

/// The total of a measure over a sequence of messages.
pub open spec fn total(messages: Seq<MessageView>, measure: spec_fn(MessageView) -> nat) -> nat
    decreases messages.len(),
{
    if messages.len() == 0 {
        0
    } else {
        measure(messages[0]) + total(messages.drop_first(), measure)
    }
}

proof fn total_of_concat(
    a: Seq<MessageView>,
    b: Seq<MessageView>,
    measure: spec_fn(MessageView) -> nat,
)
    ensures
        total(a + b, measure) == total(a, measure) + total(b, measure),
    decreases a.len(),
{
    if a.len() == 0 {
        assert(a + b =~= b);
    } else {
        assert((a + b).drop_first() =~= a.drop_first() + b);
        total_of_concat(a.drop_first(), b, measure);
    }
}

proof fn total_of_one(message: MessageView, measure: spec_fn(MessageView) -> nat)
    ensures
        total(seq![message], measure) == measure(message),
{
    assert(seq![message].drop_first() =~= Seq::empty());
    assert(total(Seq::empty(), measure) == 0);
}

proof fn total_of_filter(
    messages: Seq<MessageView>,
    keep: spec_fn(MessageView) -> bool,
    measure: spec_fn(MessageView) -> nat,
)
    ensures
        total(messages.filter(keep), measure) <= total(messages, measure),
    decreases messages.len(),
{
    reveal(Seq::filter);
    if messages.len() > 0 {
        let front = messages.drop_last();
        let last = seq![messages.last()];
        total_of_filter(front, keep, measure);
        assert(messages =~= front + last);
        total_of_concat(front, last, measure);
        total_of_one(messages.last(), measure);
        if keep(messages.last()) {
            assert(messages.filter(keep) =~= front.filter(keep) + last);
            total_of_concat(front.filter(keep), last, measure);
        }
    }
}

proof fn total_is_monotone(
    messages: Seq<MessageView>,
    small: spec_fn(MessageView) -> nat,
    large: spec_fn(MessageView) -> nat,
)
    requires
        forall|i: int|
            0 <= i < messages.len() ==> small(#[trigger] messages[i]) <= large(messages[i]),
    ensures
        total(messages, small) <= total(messages, large),
    decreases messages.len(),
{
    if messages.len() > 0 {
        assert(small(messages[0]) <= large(messages[0]));
        assert forall|i: int| 0 <= i < messages.drop_first().len() implies small(
            #[trigger] messages.drop_first()[i],
        ) <= large(messages.drop_first()[i]) by {
            assert(messages.drop_first()[i] == messages[i + 1]);
        }
        total_is_monotone(messages.drop_first(), small, large);
    }
}

proof fn total_of_constant(messages: Seq<MessageView>, measure: spec_fn(MessageView) -> nat)
    requires
        forall|i: int| 0 <= i < messages.len() ==> measure(#[trigger] messages[i]) == 1,
    ensures
        total(messages, measure) == messages.len(),
    decreases messages.len(),
{
    if messages.len() > 0 {
        assert(measure(messages[0]) == 1);
        assert forall|i: int| 0 <= i < messages.drop_first().len() implies measure(
            #[trigger] messages.drop_first()[i],
        ) == 1 by {
            assert(messages.drop_first()[i] == messages[i + 1]);
        }
        total_of_constant(messages.drop_first(), measure);
    }
}

/// The next entries of the first `count` peers of a node, added up.
pub open spec fn pending_for(node: NodeState<KvState>, count: nat) -> nat
    decreases count,
{
    if count == 0 {
        0
    } else {
        pending_for(node, (count - 1) as nat) + node.next_for(node.peers[count - 1]) as nat
    }
}

/// The next entries of the leaders among the first `count` nodes, added up.
pub open spec fn pending(nodes: Seq<NodeState<KvState>>, count: nat) -> nat
    decreases count,
{
    if count == 0 {
        0
    } else {
        pending(nodes, (count - 1) as nat) + if nodes[count - 1].role == Role::Leader {
            pending_for(nodes[count - 1], nodes[count - 1].peers.len())
        } else {
            0
        }
    }
}

impl ClusterState {
    /// How much traffic a message can still cause: a vote may make a leader
    /// that writes to every peer; a replication request and its reply only ever
    /// give way to each other.
    pub open spec fn weight(self) -> spec_fn(MessageView) -> nat {
        let size = self.nodes.len();
        |message: MessageView|
            match message.rpc {
                RpcView::RequestVote(_) => (size + 1) as nat,
                RpcView::RequestVoteReply(_) => size,
                _ => 1,
            }
    }

    /// Whether a message may lead its leader to step back a peer's next entry.
    pub open spec fn may_fail(self, message: MessageView) -> bool {
        match message.rpc {
            RpcView::AppendEntries(request) => {
                let leader = self.nodes[message.from as int];
                leader.role == Role::Leader && (request.prev_log_index >= 1 || request.term
                    != leader.current_term)
            },
            RpcView::AppendEntriesReply(reply) => {
                let leader = self.nodes[message.to as int];
                leader.heeds(reply) && !reply.success
            },
            _ => false,
        }
    }

    pub open spec fn failure(self) -> spec_fn(MessageView) -> nat {
        |message: MessageView|
            if self.may_fail(message) {
                1
            } else {
                0
            }
    }

    pub open spec fn request() -> spec_fn(MessageView) -> nat {
        |message: MessageView|
            if message.rpc is AppendEntries {
                1
            } else {
                0
            }
    }

    /// The traffic that is left, in four parts of falling importance.
    pub open spec fn traffic(self) -> (nat, nat, nat, nat) {
        (
            total(self.messages, self.weight()),
            pending(self.nodes, self.nodes.len()),
            total(self.messages, self.failure()),
            total(self.messages, ClusterState::request()),
        )
    }
}

/// One measure of traffic is below another.
pub open spec fn less_traffic(a: (nat, nat, nat, nat), b: (nat, nat, nat, nat)) -> bool {
    ||| a.0 < b.0
    ||| a.0 == b.0 && a.1 < b.1
    ||| a.0 == b.0 && a.1 == b.1 && a.2 < b.2
    ||| a.0 == b.0 && a.1 == b.1 && a.2 == b.2 && a.3 < b.3
}

proof fn pending_of_update(
    nodes: Seq<NodeState<KvState>>,
    at: int,
    node: NodeState<KvState>,
    count: nat,
)
    requires
        0 <= at < nodes.len(),
        count <= nodes.len(),
        ({
            let old_part = if nodes[at].role == Role::Leader {
                pending_for(nodes[at], nodes[at].peers.len())
            } else {
                0
            };
            let new_part = if node.role == Role::Leader {
                pending_for(node, node.peers.len())
            } else {
                0
            };
            new_part <= old_part
        }),
    ensures
        pending(nodes.update(at, node), count) <= pending(nodes, count),
        ({
            let old_part = if nodes[at].role == Role::Leader {
                pending_for(nodes[at], nodes[at].peers.len())
            } else {
                0
            };
            let new_part = if node.role == Role::Leader {
                pending_for(node, node.peers.len())
            } else {
                0
            };
            &&& count > at && new_part < old_part ==> pending(nodes.update(at, node), count)
                < pending(nodes, count)
        }),
    decreases count,
{
    if count > 0 {
        pending_of_update(nodes, at, node, (count - 1) as nat);
    }
}

/// Stepping back one peer's next entry lowers the sum by one.
proof fn pending_after_stepping_back(
    before: NodeState<KvState>,
    after: NodeState<KvState>,
    peer: NodeId,
    count: nat,
)
    requires
        count <= before.peers.len(),
        before.peers.no_duplicates(),
        after.peers == before.peers,
        after.next_for(peer) < before.next_for(peer),
        forall|other: NodeId| other != peer ==> #[trigger] after.next_for(other) == before.next_for(
            other,
        ),
    ensures
        pending_for(after, count) <= pending_for(before, count),
        (exists|i: int| 0 <= i < count && before.peers[i] == peer) ==> pending_for(after, count)
            < pending_for(before, count),
    decreases count,
{
    if count > 0 {
        pending_after_stepping_back(before, after, peer, (count - 1) as nat);
        if before.peers[count - 1] != peer {
            assert(after.next_for(before.peers[count - 1]) == before.next_for(
                before.peers[count - 1],
            ));
        }
    }
}

proof fn pending_is_local(a: NodeState<KvState>, b: NodeState<KvState>, count: nat)
    requires
        a.peers == b.peers,
        forall|peer: NodeId| #[trigger] a.next_for(peer) == b.next_for(peer),
    ensures
        pending_for(a, count) == pending_for(b, count),
    decreases count,
{
    if count > 0 {
        pending_is_local(a, b, (count - 1) as nat);
        assert(a.next_for(a.peers[count - 1]) == b.next_for(a.peers[count - 1]));
    }
}

pub proof fn others_are_the_rest(id: NodeId, size: nat)
    requires
        id < size <= usize::MAX,
    ensures
        crate::cluster_state::others(id, size).no_duplicates(),
        forall|i: int|
            0 <= i < crate::cluster_state::others(id, size).len() ==> (#[trigger] crate::cluster_state::others(id, size)[i]) < size && crate::cluster_state::others(
                id,
                size,
            )[i] != id,
        forall|other: NodeId| other < size && other != id ==> #[trigger] crate::cluster_state::others(id, size).contains(other),
{
    let rest = crate::cluster_state::others(id, size);
    assert forall|other: NodeId| other < size && other != id implies #[trigger] rest.contains(
        other,
    ) by {
        let i = if other < id {
            other as int
        } else {
            other - 1
        };
        assert(rest[i] == other);
    }
}


/// Queuing what nodes have sent keeps the cluster in order.
proof fn enqueued_keeps(state: ClusterState, sent: Seq<MessageView>)
    requires
        state.wf(),
        forall|i: int| 0 <= i < sent.len() ==> state.message_wf(#[trigger] sent[i]),
    ensures
        state.enqueued(sent).wf(),
{
    let keep = |message: MessageView| state.carries(message);
    let next = state.enqueued(sent);
    assert forall|i: int| 0 <= i < next.messages.len() implies next.message_wf(
        #[trigger] next.messages[i],
    ) by {
        if i < state.messages.len() {
            assert(next.messages[i] == state.messages[i]);
        } else {
            let message = next.messages[i];
            assert(message == sent.filter(keep)[i - state.messages.len()]);
            assert(sent.filter(keep).contains(message));
            sent.lemma_filter_contains_rev(keep, message);
            let j = choose|j: int| 0 <= j < sent.len() && sent[j] == message;
            assert(state.message_wf(sent[j]));
        }
    }
    assert forall|i: int| 0 <= i < next.nodes.len() implies #[trigger] next.node_wf(i) by {
        assert(state.node_wf(i));
    }
}

/// A node's place in the cluster after it changed.
pub proof fn placed(state: ClusterState, at: int, node: NodeState<KvState>)
    requires
        state.wf(),
        0 <= at < state.nodes.len(),
        crate::node_laws::follows(state.nodes[at], node),
        node.current_term <= state.now_ms,
        node.log.len() <= usize::MAX,
    ensures
        (ClusterState { nodes: state.nodes.update(at, node), ..state }).wf(),
{
    let next = ClusterState { nodes: state.nodes.update(at, node), ..state };
    assert(state.node_wf(at));
    assert forall|i: int| 0 <= i < next.nodes.len() implies #[trigger] next.node_wf(i) by {
        assert(state.node_wf(i));
    }
    assert forall|i: int| 0 <= i < next.messages.len() implies next.message_wf(
        #[trigger] next.messages[i],
    ) by {
        assert(state.message_wf(state.messages[i]));
    }
}

/// What a node sends is in order.
proof fn sent_is_wf(state: ClusterState, at: int, message: MessageView)
    requires
        state.nodes.len() <= usize::MAX,
        0 <= at < state.nodes.len(),
        state.nodes[at].id == at,
        crate::node_laws::sent_by(state.nodes[at], message),
        message.to < state.nodes.len(),
        message.to != at,
    ensures
        state.message_wf(message),
{
}

/// Delivering a message keeps the cluster in order.
pub proof fn delivery_keeps(state: ClusterState)
    requires
        state.wf(),
        state.messages.len() > 0,
        forall|i: int|
            0 <= i < state.nodes.len() ==> (#[trigger] state.delivered().nodes[i]).log.len()
                <= usize::MAX,
    ensures
        state.delivered().wf(),
        state.delivered().nodes.len() == state.nodes.len(),
        state.delivered().now_ms == state.now_ms,
{
    let message = state.messages[0];
    let rest = ClusterState { messages: state.messages.drop_first(), ..state };
    assert(state.message_wf(message));
    assert(rest.wf()) by {
        assert forall|i: int| 0 <= i < rest.messages.len() implies rest.message_wf(
            #[trigger] rest.messages[i],
        ) by {
            assert(rest.messages[i] == state.messages[i + 1]);
            assert(state.message_wf(state.messages[i + 1]));
        }
        assert forall|i: int| 0 <= i < rest.nodes.len() implies #[trigger] rest.node_wf(i) by {
            assert(state.node_wf(i));
        }
    }
    if state.carries(message) {
        let at = message.to as int;
        assert(state.node_wf(at));
        assert(state.node_wf(message.from as int));
        let (node, sent) = state.nodes[at].handled(message.from, message.rpc, state.now_ms);
        crate::node_laws::message_keeps(
            state.nodes[at],
            message.from,
            message.rpc,
            state.now_ms,
        );
        let mid = ClusterState { nodes: state.nodes.update(at, node), ..rest };
        assert(state.delivered().nodes[at] == node);
        assert(state.nodes[message.from as int].current_term <= state.now_ms);
        placed(rest, at, node);
        crate::traffic::others_are_the_rest(message.to, state.nodes.len());
        assert forall|i: int| 0 <= i < sent.len() implies mid.message_wf(#[trigger] sent[i]) by {
            if sent[i].to != message.from {
                let j = choose|j: int|
                    0 <= j < state.nodes[at].peers.len() && state.nodes[at].peers[j] == sent[i].to;
                assert(state.nodes[at].peers[j] == crate::cluster_state::others(
                    message.to,
                    state.nodes.len(),
                )[j]);
            }
            sent_is_wf(mid, at, sent[i]);
        }
        enqueued_keeps(mid, sent);
    }
}

/// Delivering a message lessens the traffic that is left.
pub proof fn delivery_lessens_traffic(state: ClusterState)
    requires
        state.wf(),
        state.messages.len() > 0,
    ensures
        less_traffic(state.delivered().traffic(), state.traffic()),
{
    let message = state.messages[0];
    let rest = state.messages.drop_first();
    let next = state.delivered();
    let at = message.to as int;
    let weight = state.weight();
    assert(state.message_wf(message));
    assert(state.node_wf(at));
    assert(state.node_wf(message.from as int));
    assert(total(state.messages, weight) == weight(message) + total(rest, weight));
    if state.carries(message) {
        let before = state.nodes[at];
        let (after, sent) = before.handled(message.from, message.rpc, state.now_ms);
        let keep = |m: MessageView|
            ClusterState {
                nodes: state.nodes.update(at, after),
                messages: rest,
                ..state
            }.carries(m);
        let kept = sent.filter(keep);
        assert(next.messages =~= rest + kept);
        assert(next.weight() =~= weight);
        total_of_concat(rest, kept, weight);
        total_of_filter(sent, keep, weight);
        let (mid, _) = before.on_message(message.from, message.rpc, state.now_ms);
        crate::node_laws::settled_keeps(mid);
        match message.rpc {
            RpcView::RequestVote(_) => {
                total_of_one(sent[0], weight);
                assert(sent =~= seq![sent[0]]);
            },
            RpcView::RequestVoteReply(reply) => {
                assert forall|i: int| 0 <= i < sent.len() implies weight(#[trigger] sent[i]) == 1 by {
                }
                total_of_constant(sent, weight);
            },
            RpcView::AppendEntries(request) => {
                request_lessens_traffic(state);
            },
            RpcView::AppendEntriesReply(reply) => {
                if sent.len() == 0 {
                    assert(sent =~= Seq::empty());
                } else {
                    refusal_lessens_traffic(state);
                }
            },
        }
    }
}

/// What is left besides the first message may fail no more than before.
proof fn rest_fails_no_more(state: ClusterState, rest: Seq<MessageView>, next: ClusterState, at: int)
    requires
        0 <= at < state.nodes.len(),
        next.nodes.len() == state.nodes.len(),
        forall|i: int| 0 <= i < state.nodes.len() && i != at ==> next.nodes[i] == state.nodes[i],
        next.nodes[at].role == Role::Leader ==> state.nodes[at].role == Role::Leader
            && next.nodes[at].current_term == state.nodes[at].current_term,
        forall|i: int|
            0 <= i < rest.len() ==> (#[trigger] rest[i]).from < state.nodes.len() && rest[i].to
                < state.nodes.len(),
    ensures
        total(rest, next.failure()) <= total(rest, state.failure()),
{
    assert forall|i: int| 0 <= i < rest.len() implies (next.failure())(#[trigger] rest[i]) <= (
    state.failure())(rest[i]) by {
        let message = rest[i];
        match message.rpc {
            RpcView::AppendEntries(_) => {
                if message.from != at {
                    assert(next.nodes[message.from as int] == state.nodes[message.from as int]);
                }
            },
            RpcView::AppendEntriesReply(_) => {
                if message.to != at {
                    assert(next.nodes[message.to as int] == state.nodes[message.to as int]);
                }
            },
            _ => {},
        }
    }
    total_is_monotone(rest, next.failure(), state.failure());
}

proof fn request_lessens_traffic(state: ClusterState)
    requires
        state.wf(),
        state.messages.len() > 0,
        state.messages[0].rpc is AppendEntries,
        state.carries(state.messages[0]),
    ensures
        less_traffic(state.delivered().traffic(), state.traffic()),
{
    let message = state.messages[0];
    let rest = state.messages.drop_first();
    let next = state.delivered();
    let at = message.to as int;
    let weight = state.weight();
    assert(state.message_wf(message));
    assert(state.node_wf(at));
    assert(state.node_wf(message.from as int));
    let before = state.nodes[at];
    let (after, sent) = before.handled(message.from, message.rpc, state.now_ms);
    let keep = |m: MessageView|
        ClusterState { nodes: state.nodes.update(at, after), messages: rest, ..state }.carries(m);
    let kept = sent.filter(keep);
    assert(next.messages =~= rest + kept);
    assert(next.weight() =~= weight);
    let (mid, _) = before.on_message(message.from, message.rpc, state.now_ms);
    crate::node_laws::settled_keeps(mid);
    let reply = sent[0];
    assert(sent =~= seq![reply]);
    total_of_concat(rest, kept, weight);
    total_of_filter(sent, keep, weight);
    total_of_one(reply, weight);
    assert(after.role == Role::Leader ==> after == before);
    pending_of_update(state.nodes, at, after, state.nodes.len());
    assert(next.nodes =~= state.nodes.update(at, after));
    let failure = state.failure();
    let later = next.failure();
    assert forall|i: int| 0 <= i < rest.len() implies (#[trigger] rest[i]).from < state.nodes.len()
        && rest[i].to < state.nodes.len() by {
        assert(rest[i] == state.messages[i + 1]);
        assert(state.message_wf(state.messages[i + 1]));
    }
    rest_fails_no_more(state, rest, next, at);
    total_of_concat(rest, kept, later);
    total_of_filter(sent, keep, later);
    total_of_one(reply, later);
    assert(next.nodes[message.from as int] == state.nodes[message.from as int]);
    assert(later(reply) <= failure(message));
    let request = ClusterState::request();
    total_of_concat(rest, kept, request);
    total_of_filter(sent, keep, request);
    total_of_one(reply, request);
}

proof fn refusal_lessens_traffic(state: ClusterState)
    requires
        state.wf(),
        state.messages.len() > 0,
        state.carries(state.messages[0]),
        state.messages[0].rpc is AppendEntriesReply,
        ({
            let message = state.messages[0];
            let reply = message.rpc->AppendEntriesReply_0;
            !reply.success && state.nodes[message.to as int].heeds(reply)
        }),
    ensures
        less_traffic(state.delivered().traffic(), state.traffic()),
{
    let message = state.messages[0];
    let reply = message.rpc->AppendEntriesReply_0;
    let rest = state.messages.drop_first();
    let next = state.delivered();
    let at = message.to as int;
    let weight = state.weight();
    assert(state.message_wf(message));
    assert(state.node_wf(at));
    let before = state.nodes[at];
    let (after, sent) = before.handled(message.from, message.rpc, state.now_ms);
    let keep = |m: MessageView|
        ClusterState { nodes: state.nodes.update(at, after), messages: rest, ..state }.carries(m);
    let kept = sent.filter(keep);
    assert(next.messages =~= rest + kept);
    assert(next.weight() =~= weight);
    let retry = sent[0];
    assert(sent =~= seq![retry]);
    total_of_concat(rest, kept, weight);
    total_of_filter(sent, keep, weight);
    total_of_one(retry, weight);
    assert(next.nodes =~= state.nodes.update(at, after));
    others_are_the_rest(message.to, state.nodes.len());
    assert(before.peers.contains(message.from));
    assert forall|peer: NodeId| peer != message.from implies #[trigger] after.next_for(peer)
        == before.next_for(peer) by {}
    if before.next_for(message.from) >= 2 {
        pending_after_stepping_back(before, after, message.from, before.peers.len());
        pending_of_update(state.nodes, at, after, state.nodes.len());
    } else {
        assert(before.next_for(message.from) == 1);
        assert(after.next_for(message.from) == 1);
        pending_is_local(after, before, before.peers.len());
        pending_of_update(state.nodes, at, after, state.nodes.len());
        assert forall|i: int| 0 <= i < rest.len() implies (#[trigger] rest[i]).from
            < state.nodes.len() && rest[i].to < state.nodes.len() by {
            assert(rest[i] == state.messages[i + 1]);
            assert(state.message_wf(state.messages[i + 1]));
        }
        rest_fails_no_more(state, rest, next, at);
        let later = next.failure();
        total_of_concat(rest, kept, later);
        total_of_filter(sent, keep, later);
        total_of_one(retry, later);
        assert(next.nodes[at] == after);
        assert(later(retry) == 0);
        assert((state.failure())(message) == 1);
    }
}

/// The clock reaching the first `count` nodes keeps the cluster in order.
pub proof fn ticks_keep(state: ClusterState, count: nat)
    requires
        state.nodes.len() <= usize::MAX,
        count <= state.nodes.len(),
        state.now_ms + crate::node_state::ELECTION_MAX_MS <= u64::MAX,
        forall|i: int| 0 <= i < state.nodes.len() ==> #[trigger] state.node_wf(i),
        forall|i: int|
            0 <= i < state.nodes.len() ==> (#[trigger] state.nodes[i]).current_term
                < state.now_ms,
        forall|i: int|
            0 <= i < state.messages.len() ==> state.message_wf(#[trigger] state.messages[i]),
    ensures
        state.ticked(count).wf(),
        state.ticked(count).nodes.len() == state.nodes.len(),
        state.ticked(count).now_ms == state.now_ms,
        state.ticked(count).stopped == state.stopped,
        state.ticked(count).blocked == state.blocked,
        forall|i: int|
            count <= i < state.nodes.len() ==> #[trigger] state.ticked(count).nodes[i]
                == state.nodes[i],
    decreases count,
{
    if count > 0 {
        let before = state.ticked((count - 1) as nat);
        ticks_keep(state, (count - 1) as nat);
        let at = count - 1;
        let id = at as NodeId;
        assert(before.node_wf(at));
        assert(before.nodes[at] == state.nodes[at]);
        if !before.stopped.contains(id) {
            let (node, sent) = before.nodes[at].tick(before.now_ms);
            assert(state.nodes[at].current_term < state.now_ms);
            crate::node_laws::tick_keeps(before.nodes[at], before.now_ms);
            let mid = ClusterState { nodes: before.nodes.update(at, node), ..before };
            placed(before, at, node);
            others_are_the_rest(id, state.nodes.len());
            assert forall|i: int| 0 <= i < sent.len() implies mid.message_wf(
                #[trigger] sent[i],
            ) by {
                let j = choose|j: int|
                    0 <= j < before.nodes[at].peers.len() && before.nodes[at].peers[j]
                        == sent[i].to;
                assert(before.nodes[at].peers[j] == crate::cluster_state::others(
                    id,
                    state.nodes.len(),
                )[j]);
                sent_is_wf(mid, at, sent[i]);
            }
            enqueued_keeps(mid, sent);
        }
    }
}

/// A step keeps the cluster in order.
pub proof fn step_keeps(state: ClusterState)
    requires
        state.wf(),
        state.can_step(),
        forall|i: int|
            0 <= i < state.nodes.len() ==> (#[trigger] state.step().nodes[i]).log.len()
                <= usize::MAX,
    ensures
        state.step().wf(),
        state.step().nodes.len() == state.nodes.len(),
        state.messages.len() > 0 ==> state.step().now_ms == state.now_ms,
        state.messages.len() == 0 ==> state.step().now_ms == state.now_ms + 1,
{
    if state.messages.len() > 0 {
        assert(state.step() == state.delivered());
        delivery_keeps(state);
    } else {
        let later = ClusterState { now_ms: (state.now_ms + 1) as u64, ..state };
        assert(state.step() == later.ticked(state.nodes.len()));
        clock_makes_room(state);
        assert(later.messages.len() == 0);
        ticks_keep(later, state.nodes.len());
    }
}

/// Each of so many steps can be taken, and the logs fit in memory throughout.
pub open spec fn steps_fit(state: ClusterState, steps: nat) -> bool {
    forall|s: nat, i: int|
        #![trigger state.after(s).nodes[i]]
        s <= steps && 0 <= i < state.nodes.len() ==> (s < steps ==> state.after(s).can_step())
            && state.after(s).nodes[i].log.len() <= usize::MAX
}

/// Stopped nodes never change while a cluster runs, and stay stopped.
pub proof fn stopped_nodes_never_change(state: ClusterState, steps: nat, id: NodeId)
    requires
        state.wf(),
        state.stopped.contains(id),
        id < state.nodes.len(),
        steps_fit(state, steps),
    ensures
        state.after(steps).wf(),
        state.after(steps).nodes.len() == state.nodes.len(),
        state.after(steps).stopped == state.stopped,
        state.after(steps).nodes[id as int] == state.nodes[id as int],
    decreases steps,
{
    if steps > 0 {
        let before = state.after((steps - 1) as nat);
        let after = state.after(steps);
        assert forall|s: nat, i: int|
            #![trigger state.after(s).nodes[i]]
            s <= steps - 1 && 0 <= i < state.nodes.len() implies (s < steps - 1 ==> state.after(
            s,
        ).can_step()) && state.after(s).nodes[i].log.len() <= usize::MAX by {}
        stopped_nodes_never_change(state, (steps - 1) as nat, id);
        assert(after == before.step());
        assert(before.nodes[id as int].log.len() <= usize::MAX);
        assert(before.can_step());
        assert forall|i: int| 0 <= i < before.nodes.len() implies (
        #[trigger] before.step().nodes[i]).log.len() <= usize::MAX by {
            assert(after.nodes[i].log.len() <= usize::MAX);
        }
        step_keeps(before);
        if before.messages.len() > 0 {
            assert(before.message_wf(before.messages[0]));
        } else {
            let later = ClusterState { now_ms: (before.now_ms + 1) as u64, ..before };
            clock_makes_room(before);
            ticks_spare_stopped(later, later.nodes.len(), id);
        }
    }
}

proof fn ticks_spare_stopped(state: ClusterState, count: nat, id: NodeId)
    requires
        count <= state.nodes.len() <= usize::MAX,
        state.stopped.contains(id),
        id < state.nodes.len(),
    ensures
        state.ticked(count).stopped == state.stopped,
        state.ticked(count).nodes.len() == state.nodes.len(),
        state.ticked(count).nodes[id as int] == state.nodes[id as int],
    decreases count,
{
    if count > 0 {
        ticks_spare_stopped(state, (count - 1) as nat, id);
    }
}

/// The clock moving on makes room for one more term.
pub proof fn clock_makes_room(state: ClusterState)
    requires
        state.wf(),
        state.messages.len() == 0,
        crate::cluster_state::clock_has_room(state.now_ms + 1),
    ensures
        ({
            let later = ClusterState { now_ms: (state.now_ms + 1) as u64, ..state };
            &&& forall|i: int| 0 <= i < later.nodes.len() ==> #[trigger] later.node_wf(i)
            &&& forall|i: int|
                0 <= i < later.nodes.len() ==> (#[trigger] later.nodes[i]).current_term
                    < later.now_ms
        }),
{
    let later = ClusterState { now_ms: (state.now_ms + 1) as u64, ..state };
    assert forall|i: int| 0 <= i < later.nodes.len() implies #[trigger] later.node_wf(i) by {
        assert(state.node_wf(i));
    }
}

/// A proposal keeps the cluster in order.
pub proof fn proposal_keeps(state: ClusterState, id: NodeId, request: ClientRequest)
    requires
        state.wf(),
        id < state.nodes.len(),
        state.proposed(id, request).nodes[id as int].log.len() <= usize::MAX,
    ensures
        state.proposed(id, request).wf(),
        state.proposed(id, request).nodes.len() == state.nodes.len(),
{
    let at = id as int;
    assert(state.node_wf(at));
    let (node, _, sent) = state.nodes[at].served(request);
    if state.nodes[at].role == Role::Leader {
        match request {
            ClientRequest::Put { key, value } => {
                crate::node_laws::proposal_keeps(state.nodes[at], Command::Put { key, value });
            },
            ClientRequest::Delete { key } => {
                crate::node_laws::proposal_keeps(state.nodes[at], Command::Delete { key });
            },
            _ => {},
        }
    }
    let mid = ClusterState { nodes: state.nodes.update(at, node), ..state };
    assert(mid.nodes[at] == node);
    assert(state.proposed(id, request).nodes[at] == node);
    placed(state, at, node);
    others_are_the_rest(id, state.nodes.len());
    assert forall|i: int| 0 <= i < sent.len() implies mid.message_wf(#[trigger] sent[i]) by {
        let j = choose|j: int|
            0 <= j < state.nodes[at].peers.len() && state.nodes[at].peers[j] == sent[i].to;
        assert(state.nodes[at].peers[j] == crate::cluster_state::others(
            id,
            state.nodes.len(),
        )[j]);
        sent_is_wf(mid, at, sent[i]);
    }
    enqueued_keeps(mid, sent);
}

} // verus!
