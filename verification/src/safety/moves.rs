//! Every move of a node keeps its cluster safe.
use crate::node_state::NodeState;
use crate::safety::history::{Core, History};
use crate::state_machine::KvState;
use crate::types::{
    AppendEntriesReply, AppendEntriesView, Command, LogEntry, MessageView, NodeId, RequestVote,
    RequestVoteReply, Role, RpcView, Term,
};
use vstd::prelude::*;

verus! {

/// The part of a node's state that agreement rests on.
pub open spec fn core_of(node: NodeState<KvState>) -> Core {
    Core {
        term: node.current_term,
        voted_for: node.voted_for,
        role: node.role,
        log: node.log,
        commit: node.commit_index,
        votes: node.votes_granted,
        next_index: node.next_index,
        match_index: node.match_index,
    }
}

/// The same for all nodes of a cluster.
pub open spec fn cores(nodes: Seq<NodeState<KvState>>) -> Seq<Core> {
    nodes.map_values(|node: NodeState<KvState>| core_of(node))
}

/// Every node is in its place and knows all others.
pub open spec fn placed(nodes: Seq<NodeState<KvState>>) -> bool {
    &&& nodes.len() <= usize::MAX
    &&& forall|i: int|
        0 <= i < nodes.len() ==> (#[trigger] nodes[i]).id == i && nodes[i].peers
            == crate::cluster_state::others(i as NodeId, nodes.len()) && nodes[i].wf()
}

proof fn cores_of_update(nodes: Seq<NodeState<KvState>>, at: int, node: NodeState<KvState>)
    requires
        0 <= at < nodes.len(),
    ensures
        cores(nodes.update(at, node)) == cores(nodes).update(at, core_of(node)),
{
    assert(cores(nodes.update(at, node)) =~= cores(nodes).update(at, core_of(node)));
}

/// No message brings a vote.
pub open spec fn bring_no_vote(messages: Seq<MessageView>) -> bool {
    forall|i: int, candidate: NodeId, voter: NodeId, term: Term|
        0 <= i < messages.len() ==> !#[trigger] History::brings_vote(
            messages[i],
            candidate,
            voter,
            term,
        )
}

impl History {
    /// Messages that bring no vote can be added.
    proof fn adding_keeps(self, nodes: Seq<Core>, messages: Seq<MessageView>, sent: Seq<MessageView>)
        requires
            self.messages_ok(nodes, messages),
            bring_no_vote(sent),
            forall|i: int| 0 <= i < sent.len() ==> self.message_ok(nodes, #[trigger] sent[i]),
        ensures
            self.messages_ok(nodes, messages + sent),
    {
        let all = messages + sent;
        assert forall|i: int| 0 <= i < all.len() implies self.message_ok(nodes, #[trigger] all[i])
            && self.not_counted(nodes, all[i]) by {
            if i < messages.len() {
                assert(all[i] == messages[i]);
            } else {
                assert(all[i] == sent[i - messages.len()]);
            }
        }
        assert forall|i: int, j: int, candidate: NodeId, voter: NodeId, term: Term|
            0 <= i < j < all.len() && #[trigger] History::brings_vote(
                all[i],
                candidate,
                voter,
                term,
            ) implies !#[trigger] History::brings_vote(all[j], candidate, voter, term) by {
            if j < messages.len() {
                assert(all[i] == messages[i] && all[j] == messages[j]);
            } else {
                assert(all[j] == sent[j - messages.len()]);
            }
        }
    }

    /// Without its first message, a queue stays in order.
    pub proof fn taking_keeps(self, nodes: Seq<Core>, messages: Seq<MessageView>)
        requires
            self.messages_ok(nodes, messages),
            messages.len() > 0,
        ensures
            self.messages_ok(nodes, messages.drop_first()),
    {
        let rest = messages.drop_first();
        assert forall|i: int| 0 <= i < rest.len() implies self.message_ok(nodes, #[trigger] rest[i])
            && self.not_counted(nodes, rest[i]) by {
            assert(rest[i] == messages[i + 1]);
        }
        assert forall|i: int, j: int, candidate: NodeId, voter: NodeId, term: Term|
            0 <= i < j < rest.len() && #[trigger] History::brings_vote(
                rest[i],
                candidate,
                voter,
                term,
            ) implies !#[trigger] History::brings_vote(rest[j], candidate, voter, term) by {
            assert(rest[i] == messages[i + 1] && rest[j] == messages[j + 1]);
        }
    }

    /// Lost messages leave a queue in order.
    pub proof fn losing_keeps(
        self,
        nodes: Seq<Core>,
        messages: Seq<MessageView>,
        sent: Seq<MessageView>,
        keep: spec_fn(MessageView) -> bool,
    )
        requires
            self.messages_ok(nodes, messages + sent),
        ensures
            self.messages_ok(nodes, messages + sent.filter(keep)),
        decreases sent.len(),
    {
        reveal(Seq::filter);
        if sent.len() > 0 {
            let less = sent.drop_last();
            let all = messages + sent;
            assert(all.drop_last() =~= messages + less);
            self.shortening_keeps(nodes, all);
            self.losing_keeps(nodes, messages, less, keep);
            if keep(sent.last()) {
                let kept = messages + less.filter(keep);
                assert(messages + sent.filter(keep) =~= kept.push(sent.last()));
                assert forall|i: int, candidate: NodeId, voter: NodeId, term: Term|
                    0 <= i < kept.len() && #[trigger] History::brings_vote(
                        kept[i],
                        candidate,
                        voter,
                        term,
                    ) implies !History::brings_vote(sent.last(), candidate, voter, term) by {
                    let k = if i < messages.len() {
                        i
                    } else {
                        let m = kept[i];
                        assert(less.filter(keep)[i - messages.len()] == m);
                        assert(less.filter(keep).contains(m));
                        less.lemma_filter_contains_rev(keep, m);
                        messages.len() + choose|k: int| 0 <= k < less.len() && less[k] == m
                    };
                    assert(all[k] == kept[i]);
                    assert(all[all.len() - 1] == sent.last());
                    assert(History::brings_vote(all[k], candidate, voter, term));
                }
                let longer = kept.push(sent.last());
                assert(all[all.len() - 1] == sent.last());
                assert forall|i: int| 0 <= i < longer.len() implies self.message_ok(
                    nodes,
                    #[trigger] longer[i],
                ) && self.not_counted(nodes, longer[i]) by {
                    if i < kept.len() {
                        assert(longer[i] == kept[i]);
                    }
                }
                assert forall|i: int, j: int, candidate: NodeId, voter: NodeId, term: Term|
                    0 <= i < j < longer.len() && #[trigger] History::brings_vote(
                        longer[i],
                        candidate,
                        voter,
                        term,
                    ) implies !#[trigger] History::brings_vote(longer[j], candidate, voter, term) by {
                    assert(longer[i] == kept[i]);
                    if j < kept.len() {
                        assert(longer[j] == kept[j]);
                    }
                }
            } else {
                assert(sent.filter(keep) == less.filter(keep));
            }
        } else {
            assert(sent.filter(keep) =~= sent);
        }
    }

    proof fn shortening_keeps(self, nodes: Seq<Core>, messages: Seq<MessageView>)
        requires
            self.messages_ok(nodes, messages),
            messages.len() > 0,
        ensures
            self.messages_ok(nodes, messages.drop_last()),
    {
        let less = messages.drop_last();
        assert forall|i: int| 0 <= i < less.len() implies self.message_ok(nodes, #[trigger] less[i])
            && self.not_counted(nodes, less[i]) by {
            assert(less[i] == messages[i]);
        }
        assert forall|i: int, j: int, candidate: NodeId, voter: NodeId, term: Term|
            0 <= i < j < less.len() && #[trigger] History::brings_vote(
                less[i],
                candidate,
                voter,
                term,
            ) implies !#[trigger] History::brings_vote(less[j], candidate, voter, term) by {
            assert(less[i] == messages[i] && less[j] == messages[j]);
        }
    }

    /// A replication request of a leader is in order.
    proof fn append_is_ok(self, nodes: Seq<NodeState<KvState>>, at: NodeId, peer: NodeId)
        requires
            placed(nodes),
            at < nodes.len(),
            peer < nodes.len(),
            peer != at,
            self.nodes_ok(cores(nodes)),
            nodes[at as int].role == Role::Leader,
        ensures
            self.message_ok(cores(nodes), nodes[at as int].append_for(peer)),
    {
        let node = nodes[at as int];
        assert(self.node_ok(cores(nodes), at));
        assert(cores(nodes)[at as int] == core_of(node));
        let prev = node.next_for(peer).saturating_sub(1);
        if node.next_index.contains_key(peer) {
            assert(core_of(node).next_index.contains_key(peer));
        }
        assert(prev <= node.log.len());
    }

    /// All replication requests of a leader are in order.
    proof fn appends_are_ok(
        self,
        nodes: Seq<NodeState<KvState>>,
        at: NodeId,
        messages: Seq<MessageView>,
    )
        requires
            placed(nodes),
            at < nodes.len(),
            self.safe(cores(nodes), messages),
            nodes[at as int].role == Role::Leader,
        ensures
            self.safe(cores(nodes), messages + nodes[at as int].appends()),
    {
        let node = nodes[at as int];
        let sent = node.appends();
        crate::traffic::others_are_the_rest(at, nodes.len());
        assert forall|i: int| 0 <= i < sent.len() implies self.message_ok(
            cores(nodes),
            #[trigger] sent[i],
        ) by {
            assert(node.peers[i] == crate::cluster_state::others(at, nodes.len())[i]);
            self.append_is_ok(nodes, at, node.peers[i]);
        }
        self.adding_keeps(cores(nodes), messages, sent);
    }

    /// A heartbeat keeps a cluster safe.
    proof fn beat_keeps(
        self,
        nodes: Seq<NodeState<KvState>>,
        at: NodeId,
        messages: Seq<MessageView>,
        now_ms: u64,
    )
        requires
            placed(nodes),
            at < nodes.len(),
            self.safe(cores(nodes), messages),
            nodes[at as int].beats(now_ms),
        ensures
            ({
                let (node, sent) = nodes[at as int].tick(now_ms);
                self.safe(cores(nodes.update(at as int, node)), messages + sent)
            }),
    {
        let (node, sent) = nodes[at as int].tick(now_ms);
        let after = nodes.update(at as int, node);
        cores_of_update(nodes, at as int, node);
        assert(cores(after) =~= cores(nodes));
        assert(placed(after));
        self.appends_are_ok(after, at, messages);
    }

    /// Standing for election keeps a cluster safe.
    proof fn campaign_keeps(
        self,
        nodes: Seq<NodeState<KvState>>,
        at: NodeId,
        messages: Seq<MessageView>,
        now_ms: u64,
    ) -> (next: History)
        requires
            placed(nodes),
            at < nodes.len(),
            self.safe(cores(nodes), messages),
            !nodes[at as int].beats(now_ms),
            nodes[at as int].campaigns(now_ms),
            nodes[at as int].current_term < u64::MAX,
        ensures
            ({
                let (node, sent) = nodes[at as int].tick(now_ms);
                next.safe(cores(nodes.update(at as int, node)), messages + sent)
            }),
            self.extends(next),
    {
        let (node, sent) = nodes[at as int].tick(now_ms);
        let all = cores(nodes);
        let after = cores(nodes.update(at as int, node));
        cores_of_update(nodes, at as int, node);
        let next = self.campaigned(at, node.current_term, nodes[at as int].log);
        assert(all[at as int] == core_of(nodes[at as int]));
        assert(after[at as int] == core_of(node));
        self.campaigning_keeps(all, at, after);
        self.growing_extends(all, next, after);
        self.messages_stay(all, next, after, messages);
        let queue = messages + sent;
        crate::traffic::others_are_the_rest(at, nodes.len());
        assert forall|i: int| 0 <= i < sent.len() implies next.message_ok(after, #[trigger] sent[i])
            && next.not_counted(after, sent[i]) by {
            assert(node.peers[i] == crate::cluster_state::others(at, nodes.len())[i]);
            assert(next.counted[at] == Set::<NodeId>::empty());
        }
        assert forall|i: int| 0 <= i < queue.len() implies next.message_ok(
            after,
            #[trigger] queue[i],
        ) && next.not_counted(after, queue[i]) by {
            if i < messages.len() {
                assert(queue[i] == messages[i]);
            } else {
                assert(queue[i] == sent[i - messages.len()]);
            }
        }
        assert forall|i: int, j: int, candidate: NodeId, voter: NodeId, term: Term|
            0 <= i < j < queue.len() && #[trigger] History::brings_vote(
                queue[i],
                candidate,
                voter,
                term,
            ) implies !#[trigger] History::brings_vote(queue[j], candidate, voter, term) by {
            if j < messages.len() {
                assert(queue[i] == messages[i] && queue[j] == messages[j]);
            } else {
                assert(queue[j] == sent[j - messages.len()]);
                if i < messages.len() {
                    assert(queue[i] == messages[i]);
                    assert(self.not_counted(all, messages[i]));
                } else {
                    assert(queue[i] == sent[i - messages.len()]);
                    assert(node.peers[i - messages.len()] != node.peers[j - messages.len()]);
                }
            }
        }
        next
    }

    /// A tick keeps a cluster safe.
    pub proof fn tick_keeps(
        self,
        nodes: Seq<NodeState<KvState>>,
        at: NodeId,
        messages: Seq<MessageView>,
        now_ms: u64,
    ) -> (next: History)
        requires
            placed(nodes),
            at < nodes.len(),
            self.safe(cores(nodes), messages),
            nodes[at as int].campaigns(now_ms) ==> nodes[at as int].current_term < u64::MAX,
        ensures
            ({
                let (node, sent) = nodes[at as int].tick(now_ms);
                next.safe(cores(nodes.update(at as int, node)), messages + sent)
            }),
            self.extends(next),
    {
        if nodes[at as int].beats(now_ms) {
            self.beat_keeps(nodes, at, messages, now_ms);
            self
        } else if nodes[at as int].campaigns(now_ms) {
            self.campaign_keeps(nodes, at, messages, now_ms)
        } else {
            let (node, sent) = nodes[at as int].tick(now_ms);
            assert(nodes.update(at as int, node) =~= nodes);
            assert(messages + sent =~= messages);
            self
        }
    }

    /// A proposal keeps a cluster safe.
    pub proof fn proposal_keeps(
        self,
        nodes: Seq<NodeState<KvState>>,
        at: NodeId,
        messages: Seq<MessageView>,
        command: Command,
    ) -> (next: History)
        requires
            placed(nodes),
            at < nodes.len(),
            self.safe(cores(nodes), messages),
            nodes[at as int].role == Role::Leader,
            nodes[at as int].log.len() < usize::MAX,
        ensures
            ({
                let node = nodes[at as int].proposed(command);
                next.safe(cores(nodes.update(at as int, node)), messages + node.appends())
            }),
            self.extends(next),
    {
        let node = nodes[at as int].proposed(command);
        let all = cores(nodes);
        let after = cores(nodes.update(at as int, node));
        cores_of_update(nodes, at as int, node);
        assert(all[at as int] == core_of(nodes[at as int]));
        assert(after[at as int] == core_of(node));
        let next = self.appended(at, node.current_term, node.log);
        self.appending_keeps(all, at, after);
        self.growing_extends(all, next, after);
        self.messages_stay(all, next, after, messages);
        assert(placed(nodes.update(at as int, node)));
        next.appends_are_ok(nodes.update(at as int, node), at, messages);
        next
    }

    /// Following the term of a message that is ahead keeps a cluster safe.
    proof fn stepping_down_keeps(
        self,
        nodes: Seq<NodeState<KvState>>,
        at: NodeId,
        messages: Seq<MessageView>,
        node: NodeState<KvState>,
    )
        requires
            at < nodes.len(),
            self.safe(cores(nodes), messages),
            node.current_term > nodes[at as int].current_term,
            node.voted_for is None,
            node.role == Role::Follower,
            node.log == nodes[at as int].log,
            node.commit_index == nodes[at as int].commit_index,
        ensures
            self.safe(cores(nodes.update(at as int, node)), messages),
    {
        let all = cores(nodes);
        let after = cores(nodes.update(at as int, node));
        cores_of_update(nodes, at as int, node);
        assert(all[at as int] == core_of(nodes[at as int]));
        assert(after[at as int] == core_of(node));
        self.raising_the_term_keeps(all, at, after);
        self.messages_stay(all, self, after, messages);
    }

    /// Answering a vote request keeps a cluster safe.
    proof fn vote_request_keeps(
        self,
        nodes: Seq<NodeState<KvState>>,
        messages: Seq<MessageView>,
        request: RequestVote,
        now_ms: u64,
    ) -> (next: History)
        requires
            placed(nodes),
            messages.len() > 0,
            messages[0].to < nodes.len(),
            self.safe(cores(nodes), messages),
            messages[0].rpc == RpcView::RequestVote(request),
        ensures
            ({
                let at = messages[0].to as int;
                let (node, sent) = nodes[at].on_message(messages[0].from, messages[0].rpc, now_ms);
                next.safe(cores(nodes.update(at, node)), messages.drop_first() + sent)
            }),
            self.extends(next),
    {
        let m = messages[0];
        let at = m.to;
        let from = m.from;
        let a = nodes[at as int];
        let (node, sent) = a.on_message(from, m.rpc, now_ms);
        let reply = sent[0];
        assert(self.message_ok(cores(nodes), m));
        // First the term, then the vote.
        let voter = a.caught_up(request.term, now_ms);
        let middle = nodes.update(at as int, voter);
        if request.term > a.current_term {
            self.stepping_down_keeps(nodes, at, messages, voter);
        } else {
            assert(middle =~= nodes);
        }
        let all = cores(middle);
        let after = cores(nodes.update(at as int, node));
        cores_of_update(nodes, at as int, voter);
        cores_of_update(nodes, at as int, node);
        assert(all[at as int] == core_of(voter));
        assert(after[at as int] == core_of(node));
        assert(after =~= all.update(at as int, core_of(node)));
        assert(all[from as int] == core_of(nodes[from as int]));
        assert(self.node_ok(all, at));
        let granted = a.grants(request, now_ms);
        let rest = messages.drop_first();
        assert(self.message_ok(all, m) && self.not_counted(all, m));
        let next = if granted && voter.voted_for is None {
            self.voted(at, voter.current_term, from, voter.log)
        } else {
            self
        };
        if granted && voter.voted_for is None {
            self.voting_keeps(all, at, from, after);
            self.messages_stay(all, next, after, messages);
            self.growing_extends(all, next, after);
        } else {
            assert(core_of(node) == core_of(voter));
            assert(after =~= all);
        }
        next.taking_keeps(after, messages);
        assert(History::brings_vote(m, from, at, request.term));
        assert(next.not_counted(after, m));
        let queue = rest + sent;
        assert(sent =~= seq![reply]);
        if granted {
            assert(next.votes.contains_key((request.term, at)));
            assert(next.votes[(request.term, at)].candidate == from);
        }
        assert(next.message_ok(after, reply));
        assert(next.not_counted(after, reply));
        assert forall|i: int| 0 <= i < queue.len() implies next.message_ok(
            after,
            #[trigger] queue[i],
        ) && next.not_counted(after, queue[i]) by {
            if i < rest.len() {
                assert(queue[i] == rest[i]);
            } else {
                assert(queue[i] == reply);
            }
        }
        assert forall|i: int, j: int, candidate: NodeId, voter: NodeId, term: Term|
            0 <= i < j < queue.len() && #[trigger] History::brings_vote(
                queue[i],
                candidate,
                voter,
                term,
            ) implies !#[trigger] History::brings_vote(queue[j], candidate, voter, term) by {
            assert(queue[i] == rest[i]);
            assert(rest[i] == messages[i + 1]);
            if j < rest.len() {
                assert(queue[j] == rest[j]);
            } else {
                assert(queue[j] == reply);
                if History::brings_vote(reply, candidate, voter, term) {
                    assert(History::brings_vote(messages[0], candidate, voter, term));
                    assert(!History::brings_vote(messages[i + 1], candidate, voter, term));
                }
            }
        }
        next
    }

    /// A vote that is counted keeps a cluster safe, also when it decides.
    proof fn vote_reply_keeps(
        self,
        nodes: Seq<NodeState<KvState>>,
        messages: Seq<MessageView>,
        reply: RequestVoteReply,
        now_ms: u64,
    ) -> (next: History)
        requires
            placed(nodes),
            messages.len() > 0,
            messages[0].to < nodes.len(),
            self.safe(cores(nodes), messages),
            messages[0].rpc == RpcView::RequestVoteReply(reply),
            nodes[messages[0].to as int].on_message(
                messages[0].from,
                messages[0].rpc,
                now_ms,
            ).0.log.len() <= usize::MAX,
        ensures
            ({
                let at = messages[0].to as int;
                let (node, sent) = nodes[at].on_message(messages[0].from, messages[0].rpc, now_ms);
                next.safe(cores(nodes.update(at, node)), messages.drop_first() + sent)
            }),
            self.extends(next),
    {
        let m = messages[0];
        let at = m.to;
        let from = m.from;
        let a = nodes[at as int];
        let (node, sent) = a.on_message(from, m.rpc, now_ms);
        let all = cores(nodes);
        let after = cores(nodes.update(at as int, node));
        let rest = messages.drop_first();
        cores_of_update(nodes, at as int, node);
        assert(all[at as int] == core_of(a));
        assert(after[at as int] == core_of(node));
        assert(self.message_ok(all, m) && self.not_counted(all, m));
        self.taking_keeps(all, messages);
        if reply.term > a.current_term {
            self.stepping_down_keeps(nodes, at, rest, node);
            assert(rest + sent =~= rest);
            self
        } else if a.counts(reply) {
            assert(self.node_ok(all, at));
            assert(History::brings_vote(m, at, from, reply.term));
            assert(!self.counted[at].contains(from));
            assert(self.candidate_ok(all, at));
            assert forall|i: int, voter: NodeId|
                0 <= i < rest.len() && #[trigger] History::brings_vote(
                    rest[i],
                    at,
                    voter,
                    reply.term,
                ) implies voter != from by {
                assert(rest[i] == messages[i + 1]);
                if voter == from {
                    assert(History::brings_vote(messages[0], at, from, reply.term));
                    assert(!History::brings_vote(messages[i + 1], at, from, reply.term));
                }
            }
            if a.votes_granted + 1 < a.majority() {
                let next = self.counting(at, from);
                self.counting_keeps(all, at, from, after);
                self.growing_extends(all, next, after);
                assert forall|i: int| 0 <= i < rest.len() implies next.message_ok(
                    after,
                    #[trigger] rest[i],
                ) && next.not_counted(after, rest[i]) by {
                    self.message_stays(all, next, after, rest[i]);
                    assert(self.not_counted(all, rest[i]));
                    assert forall|c: NodeId, voter: NodeId, term: Term| #[trigger]
                        History::brings_vote(rest[i], c, voter, term) implies c < after.len()
                        && term <= after[c as int].term && (after[c as int].role == Role::Candidate
                        && after[c as int].term == term ==> !next.counted[c].contains(voter)) by {
                        if c == at && term == a.current_term {
                            assert(voter != from);
                        }
                    }
                }
                assert(rest + sent =~= rest);
                next
            } else {
                let voters = self.counted[at].insert(from).insert(at);
                assert(self.votes.contains_key((a.current_term, at)));
                assert(self.vote_ok(all, a.current_term, at));
                assert forall|v: NodeId| #[trigger] voters.contains(v) implies v < nodes.len()
                    && self.votes.contains_key((a.current_term, v)) && self.votes[(
                    a.current_term,
                    v,
                )].candidate == at by {
                    if v != from && v != at {
                        assert(self.counted[at].contains(v));
                    }
                }
                assert(a.peers.len() == nodes.len() - 1);
                assert(voters.len() == self.counted[at].len() + 2);
                assert(crate::safety::history::quorum(voters, nodes.len()));
                crate::traffic::others_are_the_rest(at, nodes.len());
                self.new_leader_is_ok(nodes, at, node, now_ms);
                let next = self.elected(at, a.current_term, voters, node.log);
                assert(node.log =~= a.log.push(node.log.last()));
                self.election_keeps(all, at, voters, after);
                self.growing_extends(all, next, after);
                self.messages_stay(all, next, after, rest);
                assert(placed(nodes.update(at as int, node)));
                next.appends_are_ok(nodes.update(at as int, node), at, rest);
                next
            }
        } else {
            assert(nodes.update(at as int, node) =~= nodes);
            assert(rest + sent =~= rest);
            self
        }
    }

    /// The bookkeeping of a new leader.
    proof fn new_leader_is_ok(
        self,
        nodes: Seq<NodeState<KvState>>,
        at: NodeId,
        node: NodeState<KvState>,
        now_ms: u64,
    )
        requires
            placed(nodes),
            at < nodes.len(),
            node.log.len() <= usize::MAX,
            node == (NodeState {
                votes_granted: (nodes[at as int].votes_granted + 1) as usize,
                ..nodes[at as int]
            }).leading(now_ms),
        ensures
            node.match_index.dom().finite(),
            forall|u: NodeId| #[trigger]
                node.match_index.contains_key(u) ==> u < nodes.len() && node.match_index[u] <= if u
                    == at {
                    node.log.len()
                } else {
                    0
                },
            forall|u: NodeId| #[trigger]
                node.next_index.contains_key(u) ==> node.next_index[u] <= node.log.len() + 1,
    {
        let a = nodes[at as int];
        crate::traffic::others_are_the_rest(at, nodes.len());
        let peers = Set::new(|peer: NodeId| a.peers.contains(peer));
        assert(peers =~= a.peers.to_set());
        vstd::seq_lib::seq_to_set_is_finite(a.peers);
        assert(node.match_index.dom() =~= peers.insert(at));
        assert forall|u: NodeId| #[trigger] node.match_index.contains_key(u) implies u
            < nodes.len() && node.match_index[u] <= if u == at {
            node.log.len()
        } else {
            0
        } by {
            if u != at {
                assert(a.peers.contains(u));
                let i = choose|i: int| 0 <= i < a.peers.len() && a.peers[i] == u;
                assert(crate::cluster_state::others(at, nodes.len())[i] == u);
            }
        }
    }
}

/// What a log becomes when it takes entries of a leader's log: the leader's, up
/// to the last of the entries, unless it held them already.
pub proof fn merging_follows(
    h: History,
    log: Seq<LogEntry>,
    leader_log: Seq<LogEntry>,
    prev: int,
    entries: Seq<LogEntry>,
)
    requires
        h.good_log(log),
        h.good_log(leader_log),
        0 <= prev <= log.len(),
        prev + entries.len() <= leader_log.len(),
        prev > 0 ==> log[prev - 1].term == leader_log[prev - 1].term,
        forall|k: int|
            0 <= k < entries.len() ==> #[trigger] entries[k] == leader_log[prev + k],
    ensures
        ({
            let merged = crate::node_state::merged(log, prev, entries);
            let n = prev + entries.len();
            &&& crate::safety::history::agree(merged, leader_log, n)
            &&& merged == log || (merged.len() == n && forall|m: int| #[trigger]
                crate::safety::history::agree(log, leader_log, m) ==> m < n)
        }),
{
    let shared = crate::node_state::shared_len(log, prev, entries);
    let merged = crate::node_state::merged(log, prev, entries);
    let n = prev + entries.len();
    shared_bounds(log, prev, entries);
    if prev > 0 {
        crate::safety::history::logs_match(h, log, leader_log, prev);
    }
    let held = prev + shared;
    if shared > 0 {
        assert(entries[shared - 1] == leader_log[prev + (shared - 1)]);
        crate::safety::history::logs_match(h, log, leader_log, held);
    }
    assert(crate::safety::history::agree(log, leader_log, held));
    if shared != entries.len() {
        assert forall|k: int|
            #![trigger merged[k]]
            #![trigger leader_log[k]]
            0 <= k < n implies merged[k] == leader_log[k] by {
            if k < held {
                assert(merged[k] == log[k]);
            } else {
                assert(merged[k] == entries[k - prev]);
            }
        }
        assert forall|m: int| #[trigger]
            crate::safety::history::agree(log, leader_log, m) implies m < n by {
            if m > held {
                assert(log[held] == leader_log[held]);
                assert(entries[shared as int] == leader_log[held]);
            }
        }
    }
}

proof fn shared_bounds(log: Seq<LogEntry>, prev: int, entries: Seq<LogEntry>)
    requires
        0 <= prev <= log.len(),
    ensures
        ({
            let shared = crate::node_state::shared_len(log, prev, entries);
            &&& shared <= entries.len()
            &&& prev + shared <= log.len()
            &&& shared > 0 ==> log[prev + shared - 1].term == entries[shared - 1].term
            &&& shared < entries.len() && prev + shared < log.len() ==> log[prev + shared].term
                != entries[shared as int].term
        }),
    decreases entries.len(),
{
    if entries.len() > 0 && prev < log.len() && log[prev].term == entries[0].term {
        shared_bounds(log, prev + 1, entries.drop_first());
        let rest = crate::node_state::shared_len(log, prev + 1, entries.drop_first());
        if rest > 0 {
            assert(entries.drop_first()[rest - 1] == entries[rest as int]);
        }
        if rest < entries.drop_first().len() {
            assert(entries.drop_first()[rest as int] == entries[rest as int + 1]);
        }
    }
}

impl History {
    /// Becoming a follower of a term's leader keeps a cluster safe.
    proof fn following_keeps(
        self,
        nodes: Seq<NodeState<KvState>>,
        at: NodeId,
        from: NodeId,
        messages: Seq<MessageView>,
        request: AppendEntriesView,
        now_ms: u64,
    ) -> (next: History)
        requires
            placed(nodes),
            at < nodes.len(),
            from != at,
            self.safe(cores(nodes), messages),
            request.term >= nodes[at as int].current_term,
            self.led(request.term),
            self.leaders[request.term] == from,
        ensures
            next.safe(
                cores(nodes.update(at as int, nodes[at as int].following(request, now_ms))),
                messages,
            ),
            self.extends(next),
            next.leaders == self.leaders,
            next.logs == self.logs,
            next.acks == self.acks,
    {
        let a = nodes[at as int];
        let node = a.following(request, now_ms);
        let all = cores(nodes);
        let after = cores(nodes.update(at as int, node));
        cores_of_update(nodes, at as int, node);
        assert(all[at as int] == core_of(a));
        assert(after[at as int] == core_of(node));
        assert(self.node_ok(all, at));
        if request.term > a.current_term {
            self.stepping_down_keeps(nodes, at, messages, node);
            self
        } else if a.role != Role::Follower {
            assert(a.role == Role::Candidate) by {
                if a.role == Role::Leader {
                    assert(self.leaders[a.current_term] == at);
                }
            }
            let next = self.gave_up(at, a.current_term);
            self.giving_up_keeps(all, at, after);
            self.growing_extends(all, next, after);
            self.messages_stay(all, next, after, messages);
            next
        } else {
            assert(after =~= all);
            self
        }
    }

    /// Answering a replication request keeps a cluster safe.
    proof fn append_request_keeps(
        self,
        nodes: Seq<NodeState<KvState>>,
        messages: Seq<MessageView>,
        request: AppendEntriesView,
        now_ms: u64,
    ) -> (next: History)
        requires
            placed(nodes),
            messages.len() > 0,
            messages[0].to < nodes.len(),
            self.safe(cores(nodes), messages),
            messages[0].rpc == RpcView::AppendEntries(request),
            nodes[messages[0].to as int].on_message(
                messages[0].from,
                messages[0].rpc,
                now_ms,
            ).0.log.len() <= usize::MAX,
        ensures
            ({
                let at = messages[0].to as int;
                let (node, sent) = nodes[at].on_message(messages[0].from, messages[0].rpc, now_ms);
                next.safe(cores(nodes.update(at, node)), messages.drop_first() + sent)
            }),
            self.extends(next),
    {
        let m = messages[0];
        let at = m.to;
        let from = m.from;
        let a = nodes[at as int];
        let (node, sent) = a.on_message(from, m.rpc, now_ms);
        let rest = messages.drop_first();
        let all = cores(nodes);
        assert(all[at as int] == core_of(a));
        assert(self.message_ok(all, m));
        self.taking_keeps(all, messages);
        assert(sent.len() == 1);
        assert(bring_no_vote(sent));
        if request.term < a.current_term {
            assert(nodes.update(at as int, node) =~= nodes);
            self.adding_keeps(all, rest, sent);
            self
        } else {
            let h = self.following_keeps(nodes, at, from, rest, request, now_ms);
            let follower = a.following(request, now_ms);
            let middle = nodes.update(at as int, follower);
            cores_of_update(nodes, at as int, follower);
            assert(cores(middle)[at as int] == core_of(follower));
            if !a.matches_prev(request) {
                h.adding_keeps(cores(middle), rest, sent);
                h
            } else {
                let after = cores(nodes.update(at as int, node));
                cores_of_update(nodes, at as int, node);
                assert(after[at as int] == core_of(node));
                assert(after =~= cores(middle).update(at as int, core_of(node)));
                let log = h.logs[request.term];
                let n = (request.prev_log_index + request.entries.len()) as nat;
                assert(h.node_ok(cores(middle), at));
                assert(h.led(request.term));
                assert(h.term_ok(cores(middle), request.term));
                merging_follows(
                    h,
                    a.log,
                    log,
                    request.prev_log_index as int,
                    request.entries,
                );
                assert(h.committed(
                    log,
                    request.leader_commit as int,
                    request.term,
                    nodes.len(),
                )) by {
                    self.committed_stays(
                        h,
                        log,
                        request.leader_commit as int,
                        request.term,
                        request.term,
                        nodes.len(),
                    );
                }
                let next = h.acknowledged(at, request.term, n);
                h.accepting_keeps(cores(middle), at, n, request.leader_commit, after);
                h.growing_extends(cores(middle), next, after);
                self.extends_through(h, next);
                h.messages_stay(cores(middle), next, after, rest);
                assert(next.message_ok(after, sent[0]));
                next.adding_keeps(after, rest, sent);
                next
            }
        }
    }

    /// Heeding a replication reply keeps a cluster safe, also when it commits.
    proof fn append_reply_keeps(
        self,
        nodes: Seq<NodeState<KvState>>,
        messages: Seq<MessageView>,
        reply: AppendEntriesReply,
        now_ms: u64,
    )
        requires
            placed(nodes),
            messages.len() > 0,
            messages[0].to < nodes.len(),
            self.safe(cores(nodes), messages),
            messages[0].rpc == RpcView::AppendEntriesReply(reply),
        ensures
            ({
                let at = messages[0].to as int;
                let (node, sent) = nodes[at].on_message(messages[0].from, messages[0].rpc, now_ms);
                self.safe(cores(nodes.update(at, node)), messages.drop_first() + sent)
            }),
    {
        let m = messages[0];
        let at = m.to;
        let from = m.from;
        let a = nodes[at as int];
        let (node, sent) = a.on_message(from, m.rpc, now_ms);
        let rest = messages.drop_first();
        let all = cores(nodes);
        let after = cores(nodes.update(at as int, node));
        cores_of_update(nodes, at as int, node);
        assert(all[at as int] == core_of(a));
        assert(after[at as int] == core_of(node));
        assert(self.message_ok(all, m));
        self.taking_keeps(all, messages);
        if reply.term > a.current_term {
            self.stepping_down_keeps(nodes, at, rest, node);
            assert(rest + sent =~= rest);
        } else if !a.heeds(reply) {
            assert(nodes.update(at as int, node) =~= nodes);
            assert(rest + sent =~= rest);
        } else if reply.success {
            self.success_keeps(nodes, at, from, rest, reply);
            assert(rest + sent =~= rest);
        } else {
            self.refusal_keeps(nodes, at, from, rest, reply);
        }
    }

    /// Marking what a follower holds, and committing on it, keeps a cluster safe.
    proof fn success_keeps(
        self,
        nodes: Seq<NodeState<KvState>>,
        at: NodeId,
        from: NodeId,
        messages: Seq<MessageView>,
        reply: AppendEntriesReply,
    )
        requires
            placed(nodes),
            at < nodes.len(),
            from < nodes.len(),
            self.safe(cores(nodes), messages),
            nodes[at as int].heeds(reply),
            reply.success,
            reply.match_index <= self.ack(reply.term, from),
        ensures
            self.safe(
                cores(
                    nodes.update(at as int, nodes[at as int].on_append_reply(from, reply).0),
                ),
                messages,
            ),
    {
        let a = nodes[at as int];
        let node = a.on_append_reply(from, reply).0;
        let all = cores(nodes);
        let after = cores(nodes.update(at as int, node));
        cores_of_update(nodes, at as int, node);
        assert(all[at as int] == core_of(a));
        assert(after[at as int] == core_of(node));
        let marked = marked_by(a, from, reply);
        self.marked_is_ok(nodes, at, from, reply, marked);
        let holders = commit_holders(marked, nodes.len());
        assert(core_of(node) == (Core { commit: node.commit_index, ..core_of(marked) }));
        assert(self.leader_ok(core_of(node), at, nodes.len()));
        self.bookkeeping_keeps(all, at, holders, after);
        self.messages_stay(all, self, after, messages);
    }

    proof fn marked_is_ok(
        self,
        nodes: Seq<NodeState<KvState>>,
        at: NodeId,
        from: NodeId,
        reply: AppendEntriesReply,
        marked: NodeState<KvState>,
    )
        requires
            at < nodes.len(),
            from < nodes.len(),
            self.nodes_ok(cores(nodes)),
            nodes[at as int].heeds(reply),
            reply.match_index <= self.ack(reply.term, from),
            marked == marked_by(nodes[at as int], from, reply),
        ensures
            self.leader_ok(core_of(marked), at, nodes.len()),
            forall|u: NodeId| #[trigger] marked.match_index.contains_key(u) ==> u < nodes.len(),
            marked.match_index.dom().finite(),
    {
        let all = cores(nodes);
        let a = nodes[at as int];
        assert(all[at as int] == core_of(a));
        assert(self.node_ok(all, at));
        assert(self.leader_ok(core_of(a), at, nodes.len()));
        if self.acks.contains_key((reply.term, from)) {
            assert(self.ack_ok(all, reply.term, from));
        }
        assert forall|u: NodeId| #[trigger] marked.match_index.contains_key(u) implies u
            < nodes.len() && marked.match_index[u] <= self.ack(a.current_term, u) by {
            if u != from {
                assert(core_of(a).match_index.contains_key(u));
            }
        }
        assert forall|u: NodeId| #[trigger] marked.next_index.contains_key(u) implies
            marked.next_index[u] <= marked.log.len() + 1 by {
            if u != from {
                assert(core_of(a).next_index.contains_key(u));
            }
        }
    }

    /// Stepping back and trying again keeps a cluster safe.
    proof fn refusal_keeps(
        self,
        nodes: Seq<NodeState<KvState>>,
        at: NodeId,
        from: NodeId,
        messages: Seq<MessageView>,
        reply: AppendEntriesReply,
    )
        requires
            placed(nodes),
            at < nodes.len(),
            from < nodes.len(),
            from != at,
            self.safe(cores(nodes), messages),
            nodes[at as int].heeds(reply),
            !reply.success,
        ensures
            ({
                let (node, sent) = nodes[at as int].on_append_reply(from, reply);
                self.safe(cores(nodes.update(at as int, node)), messages + sent)
            }),
    {
        let a = nodes[at as int];
        let (node, sent) = a.on_append_reply(from, reply);
        let all = cores(nodes);
        let after = cores(nodes.update(at as int, node));
        cores_of_update(nodes, at as int, node);
        assert(all[at as int] == core_of(a));
        assert(after[at as int] == core_of(node));
        assert(self.node_ok(all, at));
        assert(self.leader_ok(core_of(a), at, nodes.len()));
        assert forall|u: NodeId| #[trigger] node.next_index.contains_key(u) implies
            node.next_index[u] <= node.log.len() + 1 by {
            if a.next_index.contains_key(u) {
                assert(core_of(a).next_index.contains_key(u));
            }
            if a.next_index.contains_key(from) {
                assert(core_of(a).next_index.contains_key(from));
            }
        }
        assert(self.leader_ok(core_of(node), at, nodes.len()));
        self.bookkeeping_keeps(all, at, Set::empty(), after);
        self.messages_stay(all, self, after, messages);
        assert(placed(nodes.update(at as int, node)));
        self.append_is_ok(nodes.update(at as int, node), at, from);
        self.adding_keeps(after, messages, sent);
    }

    /// A message that is handled keeps a cluster safe.
    pub proof fn message_keeps(
        self,
        nodes: Seq<NodeState<KvState>>,
        messages: Seq<MessageView>,
        now_ms: u64,
    ) -> (next: History)
        requires
            placed(nodes),
            messages.len() > 0,
            messages[0].to < nodes.len(),
            self.safe(cores(nodes), messages),
            nodes[messages[0].to as int].on_message(
                messages[0].from,
                messages[0].rpc,
                now_ms,
            ).0.log.len() <= usize::MAX,
        ensures
            ({
                let at = messages[0].to as int;
                let (node, sent) = nodes[at].on_message(messages[0].from, messages[0].rpc, now_ms);
                next.safe(cores(nodes.update(at, node)), messages.drop_first() + sent)
            }),
            self.extends(next),
    {
        match messages[0].rpc {
            RpcView::RequestVote(request) => {
                self.vote_request_keeps(nodes, messages, request, now_ms)
            },
            RpcView::RequestVoteReply(reply) => {
                self.vote_reply_keeps(nodes, messages, reply, now_ms)
            },
            RpcView::AppendEntries(request) => {
                self.append_request_keeps(nodes, messages, request, now_ms)
            },
            RpcView::AppendEntriesReply(reply) => {
                self.append_reply_keeps(nodes, messages, reply, now_ms);
                self
            },
        }
    }
}

/// A leader with the marks that a successful reply moves.
spec fn marked_by(node: NodeState<KvState>, from: NodeId, reply: AppendEntriesReply) -> NodeState<
    KvState,
> {
    NodeState {
        match_index: node.match_index.insert(from, reply.match_index),
        next_index: node.next_index.insert(from, reply.match_index.saturating_add(1)),
        ..node
    }
}

/// The majority on which a leader commits.
proof fn commit_holders(node: NodeState<KvState>, size: nat) -> (holders: Set<NodeId>)
    requires
        node.peers.len() == size - 1,
        node.log.len() <= usize::MAX,
        node.match_index.dom().finite(),
        forall|u: NodeId| #[trigger] node.match_index.contains_key(u) ==> u < size,
    ensures
        ({
            let commit = node.committed().commit_index;
            commit == node.commit_index || ({
                &&& 1 <= commit <= node.log.len()
                &&& node.log[commit - 1].term == node.current_term
                &&& crate::safety::history::quorum(holders, size)
                &&& forall|v: NodeId| #[trigger]
                    holders.contains(v) ==> node.match_index.contains_key(v) && node.match_index[v]
                        >= commit
            })
        }),
{
    let commit = node.commit_up_to(node.log.len() as int);
    commit_is_committable(node, node.log.len() as int);
    let holders = node.holders(commit as int);
    assert(holders.subset_of(node.match_index.dom()));
    vstd::set_lib::lemma_len_subset(holders, node.match_index.dom());
    assert forall|v: NodeId| #[trigger] holders.contains(v) implies v < size
        && node.match_index.contains_key(v) && node.match_index[v] >= commit by {
        assert(node.match_index.contains_key(v));
    }
    holders
}

/// A new commit index is one that the leader may commit up to.
proof fn commit_is_committable(node: NodeState<KvState>, bound: int)
    requires
        bound <= node.log.len() <= usize::MAX,
    ensures
        node.commit_up_to(bound) == node.commit_index || node.committable(
            node.commit_up_to(bound) as int,
        ),
    decreases bound - node.commit_index,
{
    if bound > node.commit_index && !node.committable(bound) {
        commit_is_committable(node, bound - 1);
    }
}

} // verus!
