//! The mathematical model of a simulated cluster.
use crate::node_state::{NodeState, ELECTION_MAX_MS};
use crate::state_machine::KvState;
use crate::types::{ClientReplyView, ClientRequest, MessageView, NodeId, Role, RpcView, Term};
use vstd::prelude::*;

verus! {

/// The state of a simulated cluster.
#[verifier::ext_equal]
pub struct ClusterState {
    pub nodes: Seq<NodeState<KvState>>,
    pub messages: Seq<MessageView>,
    pub now_ms: u64,
    pub stopped: Set<NodeId>,
    pub blocked: Set<(NodeId, NodeId)>,
}

/// All of `size` ids but one, in ascending order.
pub open spec fn others(id: NodeId, size: nat) -> Seq<NodeId> {
    Seq::new(
        (size - 1) as nat,
        |i: int|
            if i < id {
                i as NodeId
            } else {
                (i + 1) as NodeId
            },
    )
}

/// Whether the clock has room up to a point in time: election timeouts that start
/// there can be told.
pub open spec fn clock_has_room(until_ms: int) -> bool {
    until_ms + ELECTION_MAX_MS <= u64::MAX
}

/// The term that a message carries.
pub open spec fn term_of(rpc: RpcView) -> Term {
    match rpc {
        RpcView::RequestVote(request) => request.term,
        RpcView::RequestVoteReply(reply) => reply.term,
        RpcView::AppendEntries(request) => request.term,
        RpcView::AppendEntriesReply(reply) => reply.term,
    }
}

/// Whether two ids are in one of the groups together.
pub open spec fn connected(groups: Seq<Seq<NodeId>>, from: NodeId, to: NodeId) -> bool {
    exists|g: int|
        0 <= g < groups.len() && (#[trigger] groups[g]).contains(from) && groups[g].contains(to)
}

impl ClusterState {
    /// A cluster of fresh nodes with ids from zero.
    pub open spec fn initial(size: nat) -> ClusterState {
        ClusterState {
            nodes: Seq::new(
                size,
                |i: int| crate::node::fresh_kv(i as NodeId, others(i as NodeId, size)),
            ),
            messages: Seq::empty(),
            now_ms: 0,
            stopped: Set::empty(),
            blocked: Set::empty(),
        }
    }

    /// Whether messages travel between two nodes.
    pub open spec fn passes(self, from: NodeId, to: NodeId) -> bool {
        !self.stopped.contains(from) && !self.stopped.contains(to) && !self.blocked.contains(
            (from, to),
        )
    }

    /// Whether a message gets through.
    pub open spec fn carries(self, message: MessageView) -> bool {
        self.passes(message.from, message.to)
    }

    /// The cluster with the messages that get through queued.
    pub open spec fn enqueued(self, messages: Seq<MessageView>) -> ClusterState {
        ClusterState {
            messages: self.messages + messages.filter(|message: MessageView| self.carries(message)),
            ..self
        }
    }

    /// The cluster after its first queued message: lost, or handled by its
    /// recipient.
    pub open spec fn delivered(self) -> ClusterState {
        let message = self.messages[0];
        let rest = ClusterState { messages: self.messages.drop_first(), ..self };
        if !self.carries(message) {
            rest
        } else {
            let (node, sent) = self.nodes[message.to as int].handled(
                message.from,
                message.rpc,
                self.now_ms,
            );
            ClusterState { nodes: self.nodes.update(message.to as int, node), ..rest }.enqueued(
                sent,
            )
        }
    }

    /// The cluster after the clock has reached the running nodes among the
    /// first `count`.
    pub open spec fn ticked(self, count: nat) -> ClusterState
        decreases count,
    {
        if count == 0 {
            self
        } else {
            let before = self.ticked((count - 1) as nat);
            let id = (count - 1) as NodeId;
            if before.stopped.contains(id) {
                before
            } else {
                let (node, sent) = before.nodes[count - 1].tick(before.now_ms);
                ClusterState { nodes: before.nodes.update(count - 1, node), ..before }.enqueued(
                    sent,
                )
            }
        }
    }

    /// One step: the first queued message is delivered; with none queued, the
    /// clock moves on by a millisecond.
    pub open spec fn step(self) -> ClusterState {
        if self.messages.len() > 0 {
            self.delivered()
        } else {
            ClusterState { now_ms: (self.now_ms + 1) as u64, ..self }.ticked(self.nodes.len())
        }
    }

    /// The cluster after a number of steps.
    pub open spec fn after(self, steps: nat) -> ClusterState
        decreases steps,
    {
        if steps == 0 {
            self
        } else {
            self.after((steps - 1) as nat).step()
        }
    }

    /// The cluster with a client's request served by one of its nodes.
    pub open spec fn proposed(self, id: NodeId, request: ClientRequest) -> ClusterState {
        let (node, _, sent) = self.nodes[id as int].served(request);
        ClusterState { nodes: self.nodes.update(id as int, node), ..self }.enqueued(sent)
    }

    /// The cluster in which only nodes of a common group reach each other.
    pub open spec fn partitioned(self, groups: Seq<Seq<NodeId>>) -> ClusterState {
        ClusterState {
            blocked: Set::new(
                |pair: (NodeId, NodeId)|
                    {
                        &&& pair.0 < self.nodes.len()
                        &&& pair.1 < self.nodes.len()
                        &&& pair.0 != pair.1
                        &&& !connected(groups, pair.0, pair.1)
                    },
            ),
            ..self
        }
    }

    /// The cluster with one node stopped.
    pub open spec fn without(self, id: NodeId) -> ClusterState {
        ClusterState { stopped: self.stopped.insert(id), ..self }
    }

    /// The cluster in which all nodes reach each other.
    pub open spec fn healed(self) -> ClusterState {
        ClusterState { blocked: Set::empty(), ..self }
    }

    /// What a client's request to one of the nodes leads to, and its reply; a stopped
    /// node gives none.
    pub open spec fn asked(self, id: NodeId, request: ClientRequest) -> (
        ClusterState,
        ClientReplyView,
    ) {
        if self.stopped.contains(id) {
            (self, ClientReplyView { success: false, leader_id: None, response: None })
        } else {
            (self.proposed(id, request), self.nodes[id as int].served(request).1)
        }
    }

    /// Whether a cluster may be like `to` once the clock has passed a duration, or as
    /// far as it has room.
    pub open spec fn lasts(self, duration_ms: u64, to: ClusterState) -> bool {
        &&& to.now_ms == self.now_ms + duration_ms + 1 || !clock_has_room(
            self.now_ms + duration_ms + 1,
        ) && !to.can_step()
        &&& exists|steps: nat|
            {
                &&& to == #[trigger] self.after(steps)
                &&& forall|earlier: nat|
                    earlier < steps ==> (#[trigger] self.after(earlier)).now_ms <= self.now_ms
                        + duration_ms
            }
    }

    /// Whether one node and no other runs and leads, or it is not so of any.
    pub open spec fn is_led_by(self, leader: Option<NodeId>) -> bool {
        match leader {
            Some(id) => self.leads(id as int) && forall|other: int| #[trigger]
                self.leads(other) ==> other == id,
            None => forall|id: int| #[trigger]
                self.leads(id) ==> exists|other: int| #[trigger] self.leads(other) && other != id,
        }
    }

    /// Whether a node runs and leads.
    pub open spec fn leads(self, id: int) -> bool {
        &&& 0 <= id < self.nodes.len()
        &&& !self.stopped.contains(id as NodeId)
        &&& self.nodes[id].role == Role::Leader
    }

    /// A node in its place.
    pub open spec fn node_wf(self, i: int) -> bool {
        let node = self.nodes[i];
        &&& node.wf()
        &&& node.id == i
        &&& node.peers == others(i as NodeId, self.nodes.len())
        &&& node.last_applied >= node.commit_index
        &&& node.data.last_applied == node.last_applied
    }

    /// A message between two different nodes that its sender may have sent.
    pub open spec fn message_wf(self, message: MessageView) -> bool {
        &&& message.from < self.nodes.len()
        &&& message.to < self.nodes.len()
        &&& message.from != message.to
        &&& term_of(message.rpc) <= self.nodes[message.from as int].current_term
        &&& message.rpc matches RpcView::AppendEntries(request) ==> request.prev_log_index == 0
            ==> request.prev_log_term == 0
    }

    /// What every operation keeps. Each millisecond, the highest term grows by one
    /// at most: nodes start elections only when the clock moves on, and messages
    /// carry terms no further.
    pub open spec fn wf(self) -> bool {
        &&& self.nodes.len() <= usize::MAX
        &&& self.now_ms + ELECTION_MAX_MS <= u64::MAX
        &&& forall|i: int| 0 <= i < self.nodes.len() ==> #[trigger] self.node_wf(i)
        &&& forall|i: int|
            0 <= i < self.nodes.len() ==> (#[trigger] self.nodes[i]).current_term <= self.now_ms
        &&& forall|i: int|
            0 <= i < self.messages.len() ==> self.message_wf(#[trigger] self.messages[i])
    }

    /// Whether a step can be taken: a message is queued or the clock has room.
    pub open spec fn can_step(self) -> bool {
        self.messages.len() > 0 || clock_has_room(self.now_ms + 1)
    }
}

} // verus!
