//! Terms, votes and elections keep a cluster safe.
use crate::safety::history::{Core, History, Vote};
use crate::types::{LogEntry, MessageView, NodeId, Role, RpcView, Term};
use vstd::prelude::*;

verus! {

impl History {
    /// A message stays in order while a history grows.
    pub proof fn message_stays(
        self,
        nodes: Seq<Core>,
        next: History,
        after: Seq<Core>,
        message: MessageView,
    )
        requires
            self.grows(nodes, next, after),
            self.message_ok(nodes, message),
        ensures
            next.message_ok(after, message),
    {
        let from = message.from as int;
        let to = message.to as int;
        assert(nodes[from].term <= after[from].term);
        assert(nodes[to].term <= after[to].term);
        match message.rpc {
            RpcView::RequestVote(request) => {
                if after[from].term == request.term && after[from].role == Role::Candidate {
                    assert(nodes[from].role == Role::Candidate);
                }
            },
            RpcView::RequestVoteReply(reply) => {
                if reply.vote_granted {
                    assert(self.votes.contains_key((reply.term, message.from)));
                }
            },
            RpcView::AppendEntries(request) => {
                let term = request.term;
                assert(self.led(term));
                assert(next.led(term));
                let log = self.logs[term];
                let n = request.leader_commit as int;
                self.growing_extends(nodes, next, after);
        self.committed_stays(
            next, log, n, term, term, nodes.len());
                if n != 0 {
                    let (t, m) = choose|t: Term, m: int|
                        t <= term && n <= m && #[trigger] next.chosen(t, m, nodes.len())
                            && crate::safety::history::agree(log, next.logs[t], n);
                    assert(crate::safety::history::agree(next.logs[term], next.logs[t], n));
                }
                assert forall|k: int| 0 <= k < request.entries.len() implies
                    #[trigger] request.entries[k] == next.logs[term][request.prev_log_index + k] by {
                    assert(request.entries[k] == log[request.prev_log_index + k]);
                }
                if request.prev_log_index > 0 {
                    assert(next.logs[term][request.prev_log_index - 1]
                        == log[request.prev_log_index - 1]);
                }
            },
            RpcView::AppendEntriesReply(reply) => {
                if reply.success {
                    assert(self.led(reply.term));
                    assert(next.ack(reply.term, message.from) >= self.ack(
                        reply.term,
                        message.from,
                    ));
                }
            },
        }
    }

    /// Messages stay in order while a history grows and no vote is counted.
    pub proof fn messages_stay(
        self,
        nodes: Seq<Core>,
        next: History,
        after: Seq<Core>,
        messages: Seq<MessageView>,
    )
        requires
            self.grows(nodes, next, after),
            self.messages_ok(nodes, messages),
            forall|c: NodeId|
                c < nodes.len() && (#[trigger] after[c as int]).role == Role::Candidate
                    && after[c as int].term == nodes[c as int].term ==> next.counted[c]
                    == self.counted[c],
        ensures
            next.messages_ok(after, messages),
    {
        assert forall|i: int| 0 <= i < messages.len() implies next.message_ok(
            after,
            #[trigger] messages[i],
        ) && next.not_counted(after, messages[i]) by {
            self.message_stays(nodes, next, after, messages[i]);
            assert(self.not_counted(nodes, messages[i]));
            assert forall|c: NodeId, voter: NodeId, term: Term| #[trigger]
                History::brings_vote(messages[i], c, voter, term) implies c < after.len() && term
                <= after[c as int].term && (after[c as int].role == Role::Candidate
                && after[c as int].term == term ==> !next.counted[c].contains(voter)) by {
                assert(nodes[c as int].term <= after[c as int].term);
            }
        }
    }

    /// A node moves on without touching any leader's log, voters or
    /// acknowledgements.
    pub open spec fn is_quiet(
        self,
        nodes: Seq<Core>,
        next: History,
        after: Seq<Core>,
        at: NodeId,
    ) -> bool {
        let term = after[at as int].term;
        &&& at < nodes.len()
        &&& after == nodes.update(at as int, after[at as int])
        &&& next.leaders == self.leaders
        &&& next.voters == self.voters
        &&& next.logs == self.logs
        &&& next.acks == self.acks
        &&& nodes[at as int].term <= term
        &&& forall|t: Term, v: NodeId|
            #![trigger next.votes.contains_key((t, v))]
            #![trigger self.votes.contains_key((t, v))]
            !(t == term && v == at) ==> next.votes.contains_key((t, v)) == self.votes.contains_key(
                (t, v),
            ) && next.votes[(t, v)] == self.votes[(t, v)]
        &&& self.votes.contains_key((term, at)) && (self.votes[(term, at)].candidate != at || (
        self.led(term) && self.leaders[term] == at)) ==> next.votes.contains_key((term, at))
            && next.votes[(term, at)] == self.votes[(term, at)]
        &&& forall|v: NodeId|
            #![trigger next.counted.contains_key(v)]
            #![trigger self.counted.contains_key(v)]
            v != at ==> next.counted.contains_key(v) == self.counted.contains_key(v)
                && next.counted[v] == self.counted[v]
        &&& after[at as int].role == Role::Candidate && term == nodes[at as int].term
            ==> nodes[at as int].role == Role::Candidate && after[at as int].log
            == nodes[at as int].log
        &&& self.led(term) && self.leaders[term] == at ==> after[at as int].role != Role::Candidate
    }

    /// With a quiet move the history grows.
    pub proof fn quiet_grows(self, nodes: Seq<Core>, next: History, after: Seq<Core>, at: NodeId)
        requires
            self.nodes_ok(nodes),
            self.is_quiet(nodes, next, after, at),
        ensures
            self.grows(nodes, next, after),
    {
        assert forall|term: Term, v: NodeId| #[trigger]
            self.votes.contains_key((term, v)) && self.votes[(term, v)].candidate != v implies next.votes.contains_key(
        (term, v)) && next.votes[(term, v)] == self.votes[(term, v)] by {
            assert(next.votes.contains_key((term, v)) || true);
        }
        assert forall|term: Term, v: NodeId| #[trigger] next.ack(term, v) == self.ack(term, v) by {}
    }

    /// A quiet move keeps the nodes in order if it keeps the moving node and its
    /// vote in order.
    pub proof fn quiet_keeps(self, nodes: Seq<Core>, next: History, after: Seq<Core>, at: NodeId)
        requires
            self.nodes_ok(nodes),
            self.is_quiet(nodes, next, after, at),
            next.votes.contains_key((after[at as int].term, at)) ==> next.vote_ok(
                after,
                after[at as int].term,
                at,
            ),
            next.node_ok(after, at),
        ensures
            next.nodes_ok(after),
            self.grows(nodes, next, after),
    {
        self.quiet_grows(nodes, next, after, at);
        assert forall|term: Term, v: NodeId| #[trigger] next.ack(term, v) == self.ack(term, v) by {}
        assert forall|v: NodeId| v < after.len() implies #[trigger] next.node_ok(after, v) by {
            if v != at {
                self.bystander_stays(nodes, next, after, at, v);
            }
        }
        assert forall|term: Term| #[trigger] next.led(term) implies next.term_ok(after, term) by {
            assert(self.led(term));
            assert(self.term_ok(nodes, term));
            self.good_log_stays(nodes, next, after, self.logs[term]);
            let leader = self.leaders[term];
            assert forall|v: NodeId| #[trigger] next.voters[term].contains(v) implies next.votes.contains_key(
            (term, v)) && next.votes[(term, v)].candidate == leader by {
                assert(self.voters[term].contains(v));
                assert(self.votes.contains_key((term, v)));
            }
            assert(next.ack(term, leader) == self.ack(term, leader));
        }
        assert forall|term: Term, v: NodeId| #[trigger]
            next.votes.contains_key((term, v)) implies next.vote_ok(after, term, v) by {
            if !(term == after[at as int].term && v == at) {
                assert(self.votes.contains_key((term, v)));
                self.vote_stays(nodes, next, after, at, term, v);
            }
        }
        assert forall|term: Term, v: NodeId| #[trigger]
            next.acks.contains_key((term, v)) implies next.ack_ok(after, term, v) by {
            assert(self.acks.contains_key((term, v)));
            assert(self.ack_ok(nodes, term, v));
            assert(nodes[v as int].term <= after[v as int].term);
        }
        assert forall|term: Term, later: Term| #[trigger]
            next.led(term) && #[trigger] next.led(later) && term < later implies next.complete(
            term,
            later,
        ) by {
            assert(self.led(term) && self.led(later));
            assert(self.complete(term, later));
            assert forall|n: int| #[trigger] next.own_entry(term, n) implies next.kept(
                next.logs[later],
                term,
                n,
            ) by {
                assert(self.own_entry(term, n));
                self.kept_stays(nodes, next, after, self.logs[later], term, n);
            }
        }
    }

    /// A vote stays in order.
    pub proof fn vote_stays(
        self,
        nodes: Seq<Core>,
        next: History,
        after: Seq<Core>,
        at: NodeId,
        term: Term,
        v: NodeId,
    )
        requires
            self.nodes_ok(nodes),
            self.grows(nodes, next, after),
            after == nodes.update(at as int, after[at as int]),
            at < nodes.len(),
            self.votes.contains_key((term, v)),
            next.votes.contains_key((term, v)),
            next.votes[(term, v)] == self.votes[(term, v)],
            v == at && after[at as int].term == term ==> after[at as int].voted_for == Some(
                self.votes[(term, v)].candidate,
            ),
        ensures
            next.vote_ok(after, term, v),
    {
        assert(self.vote_ok(nodes, term, v));
        let vote = self.votes[(term, v)];
        let c = vote.candidate as int;
        assert(nodes[v as int].term <= after[v as int].term);
        assert(nodes[c].term <= after[c].term);
        self.good_log_stays(nodes, next, after, vote.log);
        assert forall|t: Term| t < term implies #[trigger] next.ack(t, v) == self.ack(t, v) by {
            assert(next.ack(t, v) >= self.ack(t, v));
        }
        self.keeps_acked_stays(nodes, next, after, vote.log, v, term as int);
        if after[c].term == term && after[c].role == Role::Candidate {
            assert(nodes[c].role == Role::Candidate && nodes[c].log == after[c].log);
        }
    }

    /// A node that does not move stays in order.
    pub proof fn bystander_stays(
        self,
        nodes: Seq<Core>,
        next: History,
        after: Seq<Core>,
        at: NodeId,
        v: NodeId,
    )
        requires
            self.nodes_ok(nodes),
            self.grows(nodes, next, after),
            after == nodes.update(at as int, after[at as int]),
            at < nodes.len(),
            v < nodes.len(),
            v != at,
            self.votes.contains_key((nodes[v as int].term, v)) ==> next.votes.contains_key(
                (nodes[v as int].term, v),
            ) && next.votes[(nodes[v as int].term, v)] == self.votes[(nodes[v as int].term, v)],
            forall|t: Term| #[trigger] next.ack(t, v) == self.ack(t, v),
            self.counted.contains_key(v) ==> next.counted.contains_key(v) && next.counted[v]
                == self.counted[v],
            self.led(nodes[v as int].term) && self.leaders[nodes[v as int].term] == v
                ==> next.logs[nodes[v as int].term] == self.logs[nodes[v as int].term],
        ensures
            next.node_ok(after, v),
    {
        assert(self.node_ok(nodes, v));
        let node = nodes[v as int];
        assert(after[v as int] == node);
        self.good_log_stays(nodes, next, after, node.log);
        self.growing_extends(nodes, next, after);
        self.committed_stays(
            next,
            node.log,
            node.commit as int,
            node.term,
            node.term,
            nodes.len(),
        );
        self.keeps_acked_stays(nodes, next, after, node.log, v, node.term + 1);
        if node.role == Role::Candidate {
            assert forall|u: NodeId| #[trigger] next.counted[v].contains(u) implies u < nodes.len()
                && next.votes.contains_key((node.term, u)) && next.votes[(node.term, u)].candidate
                == v by {
                assert(self.counted[v].contains(u));
                assert(self.votes.contains_key((node.term, u)));
            }
        }
        if node.role == Role::Leader {
            assert(self.led(node.term));
            assert forall|u: NodeId| #[trigger] node.match_index.contains_key(u) implies u
                < nodes.len() && node.match_index[u] <= next.ack(node.term, u) by {
                assert(next.ack(node.term, u) >= self.ack(node.term, u));
            }
        }
    }

    /// Following a later term keeps the nodes in order.
    pub proof fn raising_the_term_keeps(self, nodes: Seq<Core>, at: NodeId, after: Seq<Core>)
        requires
            self.nodes_ok(nodes),
            at < nodes.len(),
            after == nodes.update(at as int, after[at as int]),
            ({
                let a = nodes[at as int];
                let b = after[at as int];
                &&& b.term > a.term
                &&& b.voted_for is None
                &&& b.role == Role::Follower
                &&& b.log == a.log
                &&& b.commit == a.commit
            }),
        ensures
            self.nodes_ok(after),
            self.grows(nodes, self, after),
    {
        let a = nodes[at as int];
        let b = after[at as int];
        assert(self.node_ok(nodes, at));
        if self.led(b.term) {
            assert(self.term_ok(nodes, b.term));
        }
        if self.votes.contains_key((b.term, at)) {
            assert(self.vote_ok(nodes, b.term, at));
        }
        assert(self.is_quiet(nodes, self, after, at));
        self.quiet_grows(nodes, self, after, at);
        self.node_moves_up(nodes, self, after, at);
        self.quiet_keeps(nodes, self, after, at);
    }

    /// A node's log, commit index and acknowledgements are in order in a later
    /// term, if they were and none of them changed.
    pub proof fn node_moves_up(self, nodes: Seq<Core>, next: History, after: Seq<Core>, at: NodeId)
        requires
            self.nodes_ok(nodes),
            self.is_quiet(nodes, next, after, at),
            self.grows(nodes, next, after),
            after[at as int].log == nodes[at as int].log,
            after[at as int].commit == nodes[at as int].commit,
        ensures
            ({
                let b = after[at as int];
                &&& next.good_log(b.log)
                &&& crate::safety::history::terms_up_to(b.log, nodes[at as int].term as int)
                &&& b.commit <= b.log.len()
                &&& next.committed(b.log, b.commit as int, b.term, nodes.len())
                &&& next.keeps_acked(b.log, at, b.term + 1)
                &&& self.keeps_acked(b.log, at, b.term + 1)
            }),
    {
        let a = nodes[at as int];
        let b = after[at as int];
        assert(self.node_ok(nodes, at));
        self.good_log_stays(nodes, next, after, a.log);
        self.growing_extends(nodes, next, after);
        self.committed_stays(
            next,
            a.log,
            a.commit as int,
            a.term,
            b.term,
            nodes.len(),
        );
        assert(self.keeps_acked(a.log, at, b.term + 1)) by {
            assert forall|term: Term, n: int|
                term < b.term + 1 && n <= self.ack(term, at) && #[trigger] self.own_entry(
                    term,
                    n,
                ) implies self.kept(a.log, term, n) by {
                assert(self.acks.contains_key((term, at)));
                assert(self.ack_ok(nodes, term, at));
            }
        }
        assert forall|term: Term| #[trigger] next.ack(term, at) == self.ack(term, at) by {}
        self.keeps_acked_stays(nodes, next, after, a.log, at, b.term + 1);
    }

    /// The history after a node stood for election in a new term.
    pub open spec fn campaigned(self, at: NodeId, term: Term, log: Seq<LogEntry>) -> History {
        History {
            votes: self.votes.insert((term, at), Vote { candidate: at, log }),
            counted: self.counted.insert(at, Set::empty()),
            ..self
        }
    }

    /// Standing for election keeps the nodes in order.
    pub proof fn campaigning_keeps(self, nodes: Seq<Core>, at: NodeId, after: Seq<Core>)
        requires
            self.nodes_ok(nodes),
            at < nodes.len(),
            after == nodes.update(at as int, after[at as int]),
            ({
                let a = nodes[at as int];
                let b = after[at as int];
                &&& b.term == a.term + 1
                &&& b.voted_for == Some(at)
                &&& b.role == Role::Candidate
                &&& b.log == a.log
                &&& b.commit == a.commit
                &&& b.votes == 1
            }),
        ensures
            self.campaigned(at, after[at as int].term, nodes[at as int].log).nodes_ok(after),
            self.grows(
                nodes,
                self.campaigned(at, after[at as int].term, nodes[at as int].log),
                after,
            ),
    {
        let a = nodes[at as int];
        let b = after[at as int];
        let next = self.campaigned(at, b.term, a.log);
        assert(self.node_ok(nodes, at));
        if self.led(b.term) {
            assert(self.term_ok(nodes, b.term));
        }
        if self.votes.contains_key((b.term, at)) {
            assert(self.vote_ok(nodes, b.term, at));
        }
        assert(self.is_quiet(nodes, next, after, at));
        self.quiet_grows(nodes, next, after, at);
        self.node_moves_up(nodes, next, after, at);
        assert(next.counted[at] =~= Set::empty());
        assert(next.keeps_acked(b.log, at, b.term as int));
        assert(next.vote_ok(after, b.term, at));
        self.quiet_keeps(nodes, next, after, at);
    }

    /// The history after a node voted.
    pub open spec fn voted(self, at: NodeId, term: Term, candidate: NodeId, log: Seq<LogEntry>)
        -> History {
        History { votes: self.votes.insert((term, at), Vote { candidate, log }), ..self }
    }

    /// A first vote for another node keeps the nodes in order.
    pub proof fn voting_keeps(
        self,
        nodes: Seq<Core>,
        at: NodeId,
        candidate: NodeId,
        after: Seq<Core>,
    )
        requires
            self.nodes_ok(nodes),
            at < nodes.len(),
            candidate < nodes.len(),
            candidate != at,
            after == nodes.update(at as int, after[at as int]),
            nodes[at as int].voted_for is None,
            nodes[candidate as int].term >= nodes[at as int].term,
            nodes[candidate as int].term == nodes[at as int].term && nodes[candidate as int].role
                == Role::Candidate ==> crate::safety::history::up_to_date(
                nodes[candidate as int].log,
                nodes[at as int].log,
            ),
            after[at as int] == (Core { voted_for: Some(candidate), ..nodes[at as int] }),
        ensures
            self.voted(at, nodes[at as int].term, candidate, nodes[at as int].log).nodes_ok(after),
            self.grows(
                nodes,
                self.voted(at, nodes[at as int].term, candidate, nodes[at as int].log),
                after,
            ),
    {
        let a = nodes[at as int];
        let b = after[at as int];
        let next = self.voted(at, a.term, candidate, a.log);
        assert(self.node_ok(nodes, at));
        if self.votes.contains_key((b.term, at)) {
            assert(self.vote_ok(nodes, b.term, at));
        }
        if self.led(b.term) && self.leaders[b.term] == at {
            assert(self.term_ok(nodes, b.term));
        }
        assert(a.role == Role::Follower);
        assert(self.is_quiet(nodes, next, after, at));
        self.quiet_grows(nodes, next, after, at);
        self.node_moves_up(nodes, next, after, at);
        assert(next.keeps_acked(b.log, at, b.term as int));
        assert(next.vote_ok(after, b.term, at));
        self.quiet_keeps(nodes, next, after, at);
    }

    /// The history after a candidate gave up in its own term.
    pub open spec fn gave_up(self, at: NodeId, term: Term) -> History {
        History { votes: self.votes.remove((term, at)), ..self }
    }

    /// A candidate that gives up in its own term keeps the nodes in order.
    pub proof fn giving_up_keeps(self, nodes: Seq<Core>, at: NodeId, after: Seq<Core>)
        requires
            self.nodes_ok(nodes),
            at < nodes.len(),
            after == nodes.update(at as int, after[at as int]),
            nodes[at as int].role == Role::Candidate,
            ({
                let a = nodes[at as int];
                let b = after[at as int];
                &&& b.term == a.term
                &&& b.voted_for is None
                &&& b.role == Role::Follower
                &&& b.log == a.log
                &&& b.commit == a.commit
            }),
        ensures
            self.gave_up(at, nodes[at as int].term).nodes_ok(after),
            self.grows(nodes, self.gave_up(at, nodes[at as int].term), after),
    {
        let a = nodes[at as int];
        let b = after[at as int];
        let next = self.gave_up(at, a.term);
        assert(self.node_ok(nodes, at));
        if self.led(b.term) && self.leaders[b.term] == at {
            assert(self.term_ok(nodes, b.term));
        }
        assert(self.is_quiet(nodes, next, after, at));
        self.quiet_grows(nodes, next, after, at);
        self.node_moves_up(nodes, next, after, at);
        self.quiet_keeps(nodes, next, after, at);
    }

    /// A node that restarts from its term, vote, log and commit index keeps the
    /// nodes in order.
    pub proof fn restarting_keeps(self, nodes: Seq<Core>, at: NodeId, after: Seq<Core>)
        requires
            self.nodes_ok(nodes),
            at < nodes.len(),
            after == nodes.update(at as int, after[at as int]),
            ({
                let a = nodes[at as int];
                let b = after[at as int];
                &&& b.term == a.term
                &&& b.voted_for == a.voted_for
                &&& b.role == Role::Follower
                &&& b.log == a.log
                &&& b.commit == a.commit
            }),
        ensures
            self.nodes_ok(after),
            self.grows(nodes, self, after),
    {
        let a = nodes[at as int];
        let b = after[at as int];
        assert(self.node_ok(nodes, at));
        assert(self.is_quiet(nodes, self, after, at));
        self.quiet_grows(nodes, self, after, at);
        self.node_moves_up(nodes, self, after, at);
        if self.votes.contains_key((b.term, at)) {
            assert(self.vote_ok(nodes, b.term, at));
            self.vote_stays(nodes, self, after, at, b.term, at);
        }
        self.quiet_keeps(nodes, self, after, at);
    }

    /// The history after a candidate counted a vote.
    pub open spec fn counting(self, at: NodeId, voter: NodeId) -> History {
        History { counted: self.counted.insert(at, self.counted[at].insert(voter)), ..self }
    }

    /// Counting a vote that does not decide keeps the nodes in order.
    pub proof fn counting_keeps(self, nodes: Seq<Core>, at: NodeId, voter: NodeId, after: Seq<Core>)
        requires
            self.nodes_ok(nodes),
            at < nodes.len(),
            voter < nodes.len(),
            voter != at,
            after == nodes.update(at as int, after[at as int]),
            nodes[at as int].role == Role::Candidate,
            nodes[at as int].votes < usize::MAX,
            after[at as int] == (Core {
                votes: (nodes[at as int].votes + 1) as usize,
                ..nodes[at as int]
            }),
            self.votes.contains_key((nodes[at as int].term, voter)),
            self.votes[(nodes[at as int].term, voter)].candidate == at,
            !self.counted[at].contains(voter),
        ensures
            self.counting(at, voter).nodes_ok(after),
            self.grows(nodes, self.counting(at, voter), after),
    {
        let a = nodes[at as int];
        let b = after[at as int];
        let next = self.counting(at, voter);
        assert(self.node_ok(nodes, at));
        if self.led(b.term) && self.leaders[b.term] == at {
            assert(self.term_ok(nodes, b.term));
        }
        assert(self.votes.contains_key((a.term, at)));
        assert(self.vote_ok(nodes, a.term, at));
        assert(self.is_quiet(nodes, next, after, at));
        self.quiet_grows(nodes, next, after, at);
        self.node_moves_up(nodes, next, after, at);
        self.vote_stays(nodes, next, after, at, a.term, at);
        assert forall|u: NodeId| #[trigger] next.counted[at].contains(u) implies u < after.len()
            && next.votes.contains_key((b.term, u)) && next.votes[(b.term, u)].candidate == at by {
            if u != voter {
                assert(self.counted[at].contains(u));
            }
        }
        self.quiet_keeps(nodes, next, after, at);
    }
}

} // verus!
