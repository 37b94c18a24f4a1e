//! A simulated cluster: nodes, a message queue and a millisecond clock.
use crate::cluster_state::ClusterState;
use crate::node::Node;
use crate::node_state::{NodeState, ELECTION_MAX_MS};
use crate::state_machine::KvState;
use crate::types::{
    ClientReply, ClientReplyView, ClientRequest, Message, MessageView, NodeId, Role,
};
use std::collections::{HashMap, VecDeque};
use vstd::prelude::*;

verus! {

broadcast use vstd::std_specs::hash::group_hash_axioms;

/// A cluster whose nodes talk over one queue that loses what stopped or
/// separated nodes send.
///
/// Nodes are numbered from zero; the clock reaches them in that order.
#[derive(Debug)]
pub struct Cluster {
    nodes: Vec<Node>,
    messages: VecDeque<Message>,
    now_ms: u64,
    stopped: HashMap<NodeId, bool>,
    blocked: Vec<(NodeId, NodeId)>,
}

/// The messages of a queue.
pub open spec fn views(messages: Seq<Message>) -> Seq<MessageView> {
    messages.map_values(|message: Message| message@)
}

/// The states of nodes.
pub open spec fn states(nodes: Seq<Node>) -> Seq<NodeState<KvState>> {
    nodes.map_values(|node: Node| node.kv())
}

/// The sequences of a sequence of vectors.
pub open spec fn contents(groups: Seq<Vec<NodeId>>) -> Seq<Seq<NodeId>> {
    groups.map_values(|group: Vec<NodeId>| group@)
}

impl View for Cluster {
    type V = ClusterState;

    closed spec fn view(&self) -> ClusterState {
        ClusterState {
            nodes: states(self.nodes@),
            messages: views(self.messages@),
            now_ms: self.now_ms,
            stopped: Set::new(|id: NodeId| self.stopped@.contains_key(id) && self.stopped@[id]),
            blocked: self.blocked@.to_set(),
        }
    }
}

impl Cluster {
    /// What every operation keeps.
    pub closed spec fn wf(&self) -> bool {
        self@.wf() && forall|i: int|
            0 <= i < self.nodes@.len() ==> (#[trigger] self.nodes@[i])@.wf()
    }

    /// A cluster in order is one whose state is.
    pub proof fn wf_state(&self)
        requires
            self.wf(),
        ensures
            self@.wf(),
    {
    }

    pub fn new(size: usize) -> (cluster: Self)
        ensures
            cluster.wf(),
            cluster@ == ClusterState::initial(size as nat),
    {
        let mut nodes: Vec<Node> = Vec::new();
        let mut id: usize = 0;
        while id < size
            invariant
                id <= size,
                nodes@.len() == id,
                forall|i: int|
                    0 <= i < id ==> (#[trigger] nodes@[i])@.wf() && nodes@[i].kv()
                        == crate::node::fresh_kv(
                        i as NodeId,
                        crate::cluster_state::others(i as NodeId, size as nat),
                    ),
            decreases size - id,
        {
            let mut peers: Vec<NodeId> = Vec::new();
            let mut peer: usize = 0;
            while peer < size
                invariant
                    id < size,
                    peer <= size,
                    peers@.len() == if peer <= id {
                        peer as int
                    } else {
                        peer - 1
                    },
                    forall|i: int|
                        0 <= i < peers@.len() ==> #[trigger] peers@[i]
                            == crate::cluster_state::others(id, size as nat)[i],
                decreases size - peer,
            {
                if peer != id {
                    peers.push(peer);
                }
                peer = peer + 1;
            }
            assert(peers@ =~= crate::cluster_state::others(id, size as nat));
            nodes.push(Node::new(id, peers));
            id = id + 1;
        }
        let cluster = Cluster {
            nodes,
            messages: VecDeque::new(),
            now_ms: 0,
            stopped: HashMap::new(),
            blocked: Vec::new(),
        };
        proof {
            let initial = ClusterState::initial(size as nat);
            assert(cluster@.nodes =~= initial.nodes);
            assert(cluster@.messages =~= initial.messages);
            assert(cluster@.stopped =~= initial.stopped);
            assert(cluster@.blocked =~= initial.blocked);
            assert(cluster@.wf()) by {
                assert forall|i: int| 0 <= i < cluster@.nodes.len() implies #[trigger]
                    cluster@.node_wf(i) by {
                    assert(cluster@.nodes[i] == cluster.nodes@[i].kv());
                }
            }
        }
        cluster
    }

    pub fn node(&self, id: NodeId) -> (node: &Node)
        requires
            id < self@.nodes.len(),
        ensures
            node.kv() == self@.nodes[id as int],
            self.wf() ==> node@.wf(),
    {
        assert(self@.nodes[id as int] == self.nodes@[id as int].kv());
        &self.nodes[id]
    }

    /// The nodes with their ids, in the order of the ids.
    pub fn nodes(&self) -> (nodes: Vec<(NodeId, &Node)>)
        ensures
            nodes@.len() == self@.nodes.len(),
            forall|i: int|
                0 <= i < nodes@.len() ==> (#[trigger] nodes@[i]).0 == i && nodes@[i].1.kv()
                    == self@.nodes[i],
    {
        let mut nodes: Vec<(NodeId, &Node)> = Vec::new();
        let mut id: usize = 0;
        while id < self.nodes.len()
            invariant
                id <= self.nodes@.len(),
                nodes@.len() == id,
                forall|i: int|
                    0 <= i < id ==> (#[trigger] nodes@[i]).0 == i && nodes@[i].1.kv()
                        == self@.nodes[i],
            decreases self.nodes@.len() - id,
        {
            nodes.push((id, &self.nodes[id]));
            id = id + 1;
        }
        nodes
    }

    /// The ids of the nodes in ascending order.
    pub fn node_ids(&self) -> (ids: Vec<NodeId>)
        ensures
            ids@.len() == self@.nodes.len(),
            forall|i: int| 0 <= i < ids@.len() ==> #[trigger] ids@[i] == i,
    {
        let mut ids: Vec<NodeId> = Vec::new();
        let mut id: usize = 0;
        while id < self.nodes.len()
            invariant
                id <= self.nodes@.len(),
                ids@.len() == id,
                forall|i: int| 0 <= i < id ==> #[trigger] ids@[i] == i,
            decreases self.nodes@.len() - id,
        {
            ids.push(id);
            id = id + 1;
        }
        ids
    }

    /// Stops a node for good: the clock no longer reaches it and its messages
    /// are lost.
    pub fn stop(&mut self, id: NodeId)
        requires
            old(self).wf(),
        ensures
            final(self).wf(),
            final(self)@ == old(self)@.without(id),
    {
        self.stopped.insert(id, true);
        proof {
            assert(self@.stopped =~= old(self)@.stopped.insert(id));
            same_traffic_is_wf(old(self)@, self@);
        }
    }

    /// Separates all nodes that share none of the groups.
    pub fn partition(&mut self, groups: &[Vec<NodeId>])
        requires
            old(self).wf(),
        ensures
            final(self).wf(),
            final(self)@ == old(self)@.partitioned(contents(groups@)),
    {
        let mut blocked: Vec<(NodeId, NodeId)> = Vec::new();
        let size: usize = self.nodes.len();
        let ghost target = self@.partitioned(contents(groups@)).blocked;
        let mut from: usize = 0;
        while from < size
            invariant
                size == self.nodes@.len(),
                size == self@.nodes.len(),
                from <= size,
                target == self@.partitioned(contents(groups@)).blocked,
                forall|pair: (NodeId, NodeId)| #[trigger]
                    blocked@.contains(pair) <==> target.contains(pair) && pair.0 < from,
            decreases size - from,
        {
            let mut to: usize = 0;
            while to < size
                invariant
                    size == self@.nodes.len(),
                    from < size,
                    to <= size,
                    target == self@.partitioned(contents(groups@)).blocked,
                    forall|pair: (NodeId, NodeId)| #[trigger]
                        blocked@.contains(pair) <==> target.contains(pair) && (pair.0 < from
                            || pair.0 == from && pair.1 < to),
                decreases size - to,
            {
                if from != to && !in_common_group(groups, from, to) {
                    let ghost before = blocked@;
                    blocked.push((from, to));
                    proof {
                        assert forall|pair: (NodeId, NodeId)| #[trigger]
                            blocked@.contains(pair) <==> before.contains(pair) || pair == (
                            from,
                            to,
                        ) by {
                            if before.contains(pair) {
                                let i = choose|i: int| 0 <= i < before.len() && before[i] == pair;
                                assert(blocked@[i] == pair);
                            }
                            assert(blocked@[before.len() as int] == (from, to));
                        }
                    }
                }
                to = to + 1;
            }
            from = from + 1;
        }
        self.blocked = blocked;
        proof {
            assert(self@.blocked =~= target);
            assert(self@.nodes == old(self)@.nodes);
            same_traffic_is_wf(old(self)@, self@);
        }
    }

    /// Lets all nodes reach each other again.
    pub fn heal(&mut self)
        requires
            old(self).wf(),
        ensures
            final(self).wf(),
            final(self)@ == old(self)@.healed(),
    {
        self.blocked = Vec::new();
        proof {
            assert(self@.blocked =~= Set::empty());
            same_traffic_is_wf(old(self)@, self@);
        }
    }

    /// The running leader, if there is exactly one.
    pub fn leader(&self) -> (leader: Option<NodeId>)
        requires
            self.wf(),
        ensures
            self@.is_led_by(leader),
    {
        let mut first: Option<NodeId> = None;
        let mut id: usize = 0;
        while id < self.nodes.len()
            invariant
                self.wf(),
                self@.nodes.len() == self.nodes@.len(),
                id <= self.nodes@.len(),
                match first {
                    Some(found) => found < id && self@.leads(found as int) && forall|other: int|
                        0 <= other < id && #[trigger] self@.leads(other) ==> other == found,
                    None => forall|other: int| 0 <= other < id ==> !#[trigger] self@.leads(other),
                },
            decreases self.nodes@.len() - id,
        {
            assert(self@.nodes[id as int] == self.nodes@[id as int].kv());
            if !self.is_stopped(id) && matches!(self.nodes[id].role(), Role::Leader) {
                assert(self@.leads(id as int));
                if let Some(found) = first {
                    assert(self@.leads(found as int) && found != id);
                    assert forall|other: int| #[trigger] self@.leads(other) implies exists|
                        third: int,
                    | #[trigger]
                        self@.leads(third) && third != other by {
                        if other == id {
                            assert(self@.leads(found as int));
                        }
                    }
                    return None;
                }
                first = Some(id);
            }
            id = id + 1;
        }
        first
    }

    /// Hands a client's request to a node; a stopped node gives no answer.
    pub fn propose(&mut self, leader: NodeId, request: ClientRequest) -> (reply: ClientReply)
        requires
            old(self).wf(),
            leader < old(self)@.nodes.len() || old(self)@.stopped.contains(leader),
        ensures
            final(self).wf(),
            (final(self)@, reply@) == old(self)@.asked(leader, request),
    {
        if self.is_stopped(leader) {
            return ClientReply { success: false, leader_id: None, response: None };
        }
        let ghost before = self.nodes@[leader as int];
        let ghost state = self@;
        let (reply, messages) = self.nodes[leader].handle_client_request(request);
        proof {
            let after = self.nodes@[leader as int];
            crate::node::request_as_kv(
                before@,
                request,
                after@,
                reply@,
                messages.deep_view(),
            );
            assert(self@.nodes =~= state.nodes.update(leader as int, after.kv()));
            assert(self@ =~= (ClusterState { nodes: self@.nodes, ..state }));
        }
        let ghost mid = self@;
        self.enqueue(messages);
        proof {
            assert(self@ == state.proposed(leader, request));
            assert(self@.nodes[leader as int] == self.nodes@[leader as int].kv());
            crate::traffic::proposal_keeps(state, leader, request);
        }
        reply
    }

    /// Whether a step can be taken: a message is queued or the clock has room.
    fn may_step(&self) -> (may: bool)
        requires
            self.wf(),
        ensures
            may == self@.can_step(),
    {
        assert(self@.messages.len() == self.messages@.len());
        self.messages.len() > 0 || self.now_ms < u64::MAX - ELECTION_MAX_MS
    }

    /// Runs the cluster until the predicate holds or the clock passes the deadline,
    /// and tells whether the predicate held. Where the clock would overflow, the
    /// run ends.
    pub fn run_until<F>(&mut self, deadline_ms: u64, predicate: F) -> (held: bool) where
        F: Fn(&Self) -> bool,

        requires
            old(self).wf(),
            forall|cluster: &Cluster| #[trigger] cluster.wf() ==> call_requires(predicate, (cluster,)),
        ensures
            final(self).wf(),
            call_ensures(predicate, (&*final(self),), held),
            !held ==> final(self)@.now_ms > deadline_ms || !final(self)@.can_step(),
            !held && crate::cluster_state::clock_has_room(deadline_ms + 1) ==> final(self)@.now_ms
                == if old(self)@.now_ms > deadline_ms {
                old(self)@.now_ms as int
            } else {
                deadline_ms + 1
            },
            final(self)@.nodes.len() == old(self)@.nodes.len(),
            old(self)@.now_ms <= final(self)@.now_ms,
            final(self)@.now_ms <= old(self)@.now_ms || final(self)@.now_ms <= deadline_ms + 1,
            exists|steps: nat|
                {
                    &&& final(self)@ == #[trigger] old(self)@.after(steps)
                    &&& forall|earlier: nat|
                        earlier < steps ==> unheld(
                            predicate,
                            deadline_ms,
                            #[trigger] old(self)@.after(earlier),
                        )
                },
    {
        let ghost mut steps: nat = 0;
        assert(self@ == old(self)@.after(0));
        while self.now_ms <= deadline_ms
            invariant
                self.wf(),
                self@.nodes.len() == old(self)@.nodes.len(),
                self.now_ms == self@.now_ms,
                old(self)@.now_ms <= self@.now_ms,
                self@.now_ms <= old(self)@.now_ms || self@.now_ms <= deadline_ms + 1,
                forall|cluster: &Cluster| #[trigger]
                    cluster.wf() ==> call_requires(predicate, (cluster,)),
                self@ == old(self)@.after(steps),
                forall|earlier: nat|
                    earlier < steps ==> unheld(
                        predicate,
                        deadline_ms,
                        #[trigger] old(self)@.after(earlier),
                    ),
            decreases
                    deadline_ms + 1 - self@.now_ms,
                    self@.traffic().0,
                    self@.traffic().1,
                    self@.traffic().2,
                    self@.traffic().3,
        {
            let held = predicate(&*self);
            if held {
                return true;
            }
            proof {
                let cluster = *self;
                assert(call_ensures(predicate, (&cluster,), false));
                assert(unheld(predicate, deadline_ms, self@));
            }
            if !self.may_step() {
                return false;
            }
            self.step();
            proof {
                steps = steps + 1;
            }
        }
        predicate(&*self)
    }

    /// Runs the cluster until the clock has passed the given duration. Where the
    /// clock would overflow, the run ends.
    pub fn run_for(&mut self, duration_ms: u64)
        requires
            old(self).wf(),
            old(self)@.now_ms + duration_ms <= u64::MAX,
        ensures
            final(self).wf(),
            old(self)@.now_ms <= final(self)@.now_ms,
            final(self)@.now_ms == old(self)@.now_ms + duration_ms + 1
                || !final(self)@.can_step() && final(self)@.now_ms <= old(self)@.now_ms
                + duration_ms,
            final(self)@.nodes.len() == old(self)@.nodes.len(),
            old(self)@.lasts(duration_ms, final(self)@),
    {
        let deadline: u64 = self.now_ms + duration_ms;
        let ghost start = self@;
        let ghost mut steps: nat = 0;
        assert(self@ == start.after(0));
        while self.now_ms <= deadline
            invariant
                self.wf(),
                start == old(self)@,
                deadline == start.now_ms + duration_ms,
                self@.nodes.len() == start.nodes.len(),
                self.now_ms == self@.now_ms,
                start.now_ms <= self@.now_ms <= deadline + 1,
                self@ == start.after(steps),
                forall|earlier: nat|
                    earlier < steps ==> (#[trigger] start.after(earlier)).now_ms <= deadline,
            decreases
                    deadline + 1 - self@.now_ms,
                    self@.traffic().0,
                    self@.traffic().1,
                    self@.traffic().2,
                    self@.traffic().3,
        {
            if !self.may_step() {
                return ;
            }
            self.step();
            proof {
                steps = steps + 1;
            }
        }
    }

    pub fn now(&self) -> (now_ms: u64)
        ensures
            now_ms == self@.now_ms,
    {
        self.now_ms
    }

    /// Delivers the first queued message; with none queued, moves the clock on
    /// by a millisecond.
    fn step(&mut self)
        requires
            old(self).wf(),
            old(self)@.can_step(),
        ensures
            final(self).wf(),
            final(self)@ == old(self)@.step(),
            final(self)@.nodes.len() == old(self)@.nodes.len(),
            old(self)@.messages.len() == 0 ==> final(self)@.now_ms == old(self)@.now_ms + 1,
            old(self)@.messages.len() > 0 ==> final(self)@.now_ms == old(self)@.now_ms
                && crate::traffic::less_traffic(final(self)@.traffic(), old(self)@.traffic()),
    {
        let ghost start = self@;
        assert(start.messages.len() == self.messages@.len());
        if self.messages.len() > 0 {
            self.deliver();
            proof {
                crate::traffic::delivery_lessens_traffic(start);
            }
            return ;
        }
        proof {
            crate::traffic::clock_makes_room(start);
        }
        self.now_ms = self.now_ms + 1;
        let ghost later = self@;
        assert(later =~= (ClusterState { now_ms: (start.now_ms + 1) as u64, ..start }));
        let size: usize = self.nodes.len();
        let mut id: usize = 0;
        while id < size
            invariant
                size == self.nodes@.len(),
                size == later.nodes.len(),
                id <= size,
                later.nodes.len() <= usize::MAX,
                later.now_ms + ELECTION_MAX_MS <= u64::MAX,
                forall|i: int| 0 <= i < later.nodes.len() ==> #[trigger] later.node_wf(i),
                forall|i: int|
                    0 <= i < later.nodes.len() ==> (#[trigger] later.nodes[i]).current_term
                        < later.now_ms,
                later.messages.len() == 0,
                self@ == later.ticked(id as nat),
                forall|i: int| 0 <= i < self.nodes@.len() ==> (#[trigger] self.nodes@[i])@.wf(),
            decreases size - id,
        {
            proof {
                crate::traffic::ticks_keep(later, id as nat);
                assert(self@.nodes[id as int] == later.nodes[id as int]);
                assert(later.node_wf(id as int));
            }
            let ghost before = self@;
            assert(before.nodes[id as int] == self.nodes@[id as int].kv());
            if !self.is_stopped(id) {
                let ghost node = self.nodes@[id as int];
                let now: u64 = self.now_ms;
                let messages = self.nodes[id].tick(now);
                proof {
                    crate::node::tick_as_kv(node@, now);
                    assert(self@.nodes =~= before.nodes.update(
                        id as int,
                        self.nodes@[id as int].kv(),
                    ));
                    assert(self@ =~= (ClusterState { nodes: self@.nodes, ..before }));
                }
                self.enqueue(messages);
            }
            id = id + 1;
            assert(self@ == later.ticked(id as nat));
        }
        proof {
            crate::traffic::ticks_keep(later, size as nat);
        }
    }

    /// Delivers the first queued message.
    fn deliver(&mut self)
        requires
            old(self).wf(),
            old(self)@.messages.len() > 0,
        ensures
            final(self).wf(),
            final(self)@ == old(self)@.delivered(),
            final(self)@.nodes.len() == old(self)@.nodes.len(),
            final(self)@.now_ms == old(self)@.now_ms,
    {
        let ghost start = self@;
        assert(start.messages.len() == self.messages@.len());
        if let Some(message) = self.messages.pop_front() {
            let ghost rest = self@;
            proof {
                assert(start.messages[0] == message@);
                assert(rest.messages =~= start.messages.drop_first());
                assert(rest =~= (ClusterState { messages: rest.messages, ..start }));
                assert(start.message_wf(start.messages[0]));
                assert(start.node_wf(message.to as int));
            }
            if self.is_stopped(message.from) || self.is_stopped(message.to) || self.is_blocked(
                message.from,
                message.to,
            ) {
                proof {
                    assert(self@ == start.delivered());
                    logs_fit(self);
                    crate::traffic::delivery_keeps(start);
                }
                return ;
            }
            let to: NodeId = message.to;
            let now: u64 = self.now_ms;
            let ghost node = self.nodes@[to as int];
            assert(start.nodes[to as int] == node.kv());
            let replies = self.nodes[to].handle_message(message.from, message.rpc, now);
            proof {
                crate::node::message_as_kv(
                    node@,
                    message.from,
                    message.rpc@,
                    now,
                    self.nodes@[to as int]@,
                );
                assert(self@.nodes =~= rest.nodes.update(to as int, self.nodes@[to as int].kv()));
                assert(self@ =~= (ClusterState { nodes: self@.nodes, ..rest }));
            }
            self.enqueue(replies);
            proof {
                assert(self@ == start.delivered());
                logs_fit(self);
                crate::traffic::delivery_keeps(start);
            }
        }
    }

    fn enqueue(&mut self, messages: Vec<Message>)
        ensures
            final(self)@ == old(self)@.enqueued(messages.deep_view()),
            final(self).nodes == old(self).nodes,
    {
        let ghost start = self@;
        let ghost keep = |message: MessageView| start.carries(message);
        let ghost all = messages.deep_view();
        assert(all.take(0).filter(keep) =~= Seq::empty()) by {
            reveal(Seq::filter);
        }
        let ghost mut done: int = 0;
        for message in it: messages
            invariant
                done == it.index(),
                it.seq() == messages@,
                all == messages.deep_view(),
                keep == (|message: MessageView| start.carries(message)),
                self@.messages == start.messages + all.take(done).filter(keep),
                self@ == (ClusterState { messages: self@.messages, ..start }),
                self.nodes == old(self).nodes,
        {
            let ghost front = all.take(done);
            assert(all[done] == message@);
            assert(all.take(done + 1) =~= front.push(message@));
            assert(front.push(message@).drop_last() =~= front);
            proof {
                reveal(Seq::filter);
                done = done + 1;
            }
            let ghost before = self.messages@;
            if !self.is_stopped(message.from) && !self.is_stopped(message.to) && !self.is_blocked(
                message.from,
                message.to,
            ) {
                self.messages.push_back(message);
                assert(views(self.messages@) =~= views(before).push(message@));
                assert(self@.messages =~= start.messages + all.take(done).filter(keep));
            }
        }
        assert(all.take(all.len() as int) =~= all);
    }

    fn is_stopped(&self, id: NodeId) -> (stopped: bool)
        ensures
            stopped == self@.stopped.contains(id),
    {
        match self.stopped.get(&id) {
            Some(stopped) => *stopped,
            None => false,
        }
    }

    fn is_blocked(&self, from: NodeId, to: NodeId) -> (blocked: bool)
        ensures
            blocked == self@.blocked.contains((from, to)),
    {
        let mut i: usize = 0;
        while i < self.blocked.len()
            invariant
                i <= self.blocked@.len(),
                forall|j: int| 0 <= j < i ==> self.blocked@[j] != (from, to),
            decreases self.blocked@.len() - i,
        {
            let pair = self.blocked[i];
            if pair.0 == from && pair.1 == to {
                assert(self.blocked@[i as int] == (from, to));
                return true;
            }
            i = i + 1;
        }
        false
    }
}

/// The predicate did not hold of a cluster in this state, and its time had not
/// run out.
pub open spec fn unheld<F: Fn(&Cluster) -> bool>(
    predicate: F,
    deadline_ms: u64,
    state: ClusterState,
) -> bool {
    state.now_ms <= deadline_ms && exists|cluster: Cluster|
        cluster@ == state && #[trigger] call_ensures(predicate, (&cluster,), false)
}

/// Whether two ids are in one of the groups together.
fn in_common_group(groups: &[Vec<NodeId>], from: NodeId, to: NodeId) -> (common: bool)
    ensures
        common == crate::cluster_state::connected(contents(groups@), from, to),
{
    let mut i: usize = 0;
    while i < groups.len()
        invariant
            i <= groups@.len(),
            forall|g: int|
                0 <= g < i ==> !((#[trigger] contents(groups@)[g]).contains(from) && contents(
                    groups@,
                )[g].contains(to)),
        decreases groups@.len() - i,
    {
        assert(contents(groups@)[i as int] == groups@[i as int]@);
        if holds(&groups[i], from) && holds(&groups[i], to) {
            return true;
        }
        i = i + 1;
    }
    false
}

/// Whether a vector holds an id.
fn holds(ids: &Vec<NodeId>, id: NodeId) -> (held: bool)
    ensures
        held == ids@.contains(id),
{
    let mut i: usize = 0;
    while i < ids.len()
        invariant
            i <= ids@.len(),
            forall|j: int| 0 <= j < i ==> ids@[j] != id,
        decreases ids@.len() - i,
    {
        if ids[i] == id {
            return true;
        }
        i = i + 1;
    }
    false
}

proof fn same_traffic_is_wf(before: ClusterState, after: ClusterState)
    requires
        before.wf(),
        after.nodes == before.nodes,
        after.messages == before.messages,
        after.now_ms == before.now_ms,
    ensures
        after.wf(),
{
    assert forall|i: int| 0 <= i < after.nodes.len() implies #[trigger] after.node_wf(i) by {
        assert(before.node_wf(i));
    }
    assert forall|i: int| 0 <= i < after.messages.len() implies after.message_wf(
        #[trigger] after.messages[i],
    ) by {
        assert(before.message_wf(before.messages[i]));
    }
}

proof fn logs_fit(cluster: &Cluster)
    requires
        forall|i: int| 0 <= i < cluster.nodes@.len() ==> (#[trigger] cluster.nodes@[i])@.wf(),
    ensures
        forall|i: int|
            0 <= i < cluster@.nodes.len() ==> (#[trigger] cluster@.nodes[i]).log.len() <= usize::MAX,
{
    assert forall|i: int| 0 <= i < cluster@.nodes.len() implies (#[trigger] cluster@.nodes[i]).log.len()
        <= usize::MAX by {
        assert(cluster@.nodes[i] == cluster.nodes@[i].kv());
    }
}

} // verus!
