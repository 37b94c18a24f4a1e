//! What has happened in a cluster, and what always holds of it.
//!
//! A history keeps, beside the state of the nodes, what the nodes themselves
//! forget: who led each term with whose votes, the leader's log, what a voter's
//! log was when it voted, and how much of a leader's log each node has ever
//! acknowledged.
use crate::types::{LogEntry, LogIndex, MessageView, NodeId, Role, RpcView, Term};
use vstd::prelude::*;

verus! {

/// The part of a node's state that agreement rests on.
#[verifier::ext_equal]
pub struct Core {
    pub term: Term,
    pub voted_for: Option<NodeId>,
    pub role: Role,
    pub log: Seq<LogEntry>,
    pub commit: LogIndex,
    pub votes: usize,
    pub next_index: Map<NodeId, LogIndex>,
    pub match_index: Map<NodeId, LogIndex>,
}

/// A vote, with the voter's log at the time.
pub struct Vote {
    pub candidate: NodeId,
    pub log: Seq<LogEntry>,
}

/// What has happened so far.
pub struct History {
    /// The leader of each term that had one.
    pub leaders: Map<Term, NodeId>,
    /// The nodes whose votes made that leader.
    pub voters: Map<Term, Set<NodeId>>,
    /// The leader's log, as far as it got.
    pub logs: Map<Term, Seq<LogEntry>>,
    /// The vote of a node in a term.
    pub votes: Map<(Term, NodeId), Vote>,
    /// How much of the log of a term's leader a node has acknowledged.
    pub acks: Map<(Term, NodeId), nat>,
    /// The nodes whose votes a candidate has counted beside its own.
    pub counted: Map<NodeId, Set<NodeId>>,
}

/// Two logs hold the same first `n` entries.
pub open spec fn agree(a: Seq<LogEntry>, b: Seq<LogEntry>, n: int) -> bool {
    &&& 0 <= n <= a.len()
    &&& n <= b.len()
    &&& forall|k: int| #![trigger a[k]] #![trigger b[k]] 0 <= k < n ==> a[k] == b[k]
}

/// The term of a log's last entry; zero for an empty log.
pub open spec fn last_term(log: Seq<LogEntry>) -> Term {
    if log.len() == 0 {
        0
    } else {
        log.last().term
    }
}

/// A log is at least as up to date as another.
pub open spec fn up_to_date(log: Seq<LogEntry>, other: Seq<LogEntry>) -> bool {
    ||| last_term(log) > last_term(other)
    ||| last_term(log) == last_term(other) && log.len() >= other.len()
}

/// Entries in ascending order of their terms.
pub open spec fn terms_ascend(log: Seq<LogEntry>) -> bool {
    forall|j: int, k: int|
        0 <= j <= k < log.len() ==> (#[trigger] log[j]).term <= (#[trigger] log[k]).term
}

/// No entry is of a later term.
pub open spec fn terms_up_to(log: Seq<LogEntry>, term: int) -> bool {
    forall|j: int| 0 <= j < log.len() ==> (#[trigger] log[j]).term <= term
}

/// More than half of `n` nodes.
pub open spec fn quorum(nodes: Set<NodeId>, n: nat) -> bool {
    &&& nodes.finite()
    &&& nodes.len() >= n / 2 + 1
    &&& forall|v: NodeId| #[trigger] nodes.contains(v) ==> v < n
}

impl History {
    /// A term had a leader.
    pub open spec fn led(self, term: Term) -> bool {
        self.leaders.contains_key(term)
    }

    /// How much of the log of a term's leader a node has acknowledged.
    pub open spec fn ack(self, term: Term, v: NodeId) -> nat {
        if self.acks.contains_key((term, v)) {
            self.acks[(term, v)]
        } else {
            0
        }
    }

    /// Every entry is where the leader of its term put it, and so are all before
    /// it.
    pub open spec fn good_log(self, log: Seq<LogEntry>) -> bool {
        &&& terms_ascend(log)
        &&& forall|j: int|
            0 <= j < log.len() ==> self.led((#[trigger] log[j]).term) && agree(
                log,
                self.logs[log[j].term],
                j + 1,
            )
    }

    /// The entry at `n` in the log of a term's leader is of that term.
    pub open spec fn own_entry(self, term: Term, n: int) -> bool {
        self.led(term) && 1 <= n <= self.logs[term].len() && self.logs[term][n - 1].term == term
    }

    /// A later leader's voters all lack the `n`-th entry of a term's leader, so
    /// it cannot be acknowledged by a majority any more.
    pub open spec fn dead(self, term: Term, n: int) -> bool {
        exists|later: Term|
            later > term && #[trigger] self.led(later) && self.lacking(later, term, n)
    }

    /// The voters of a leader all lack the `n`-th entry of another.
    pub open spec fn lacking(self, later: Term, term: Term, n: int) -> bool {
        forall|v: NodeId| #[trigger] self.voters[later].contains(v) ==> self.ack(term, v) < n
    }

    /// A log holds the first `n` entries of a term's leader, or else these are
    /// not to be committed any more.
    pub open spec fn kept(self, log: Seq<LogEntry>, term: Term, n: int) -> bool {
        agree(log, self.logs[term], n) || self.dead(term, n)
    }

    /// A log keeps all that a node has acknowledged before a term.
    pub open spec fn keeps_acked(self, log: Seq<LogEntry>, v: NodeId, before: int) -> bool {
        forall|term: Term, n: int|
            term < before && n <= self.ack(term, v) && #[trigger] self.own_entry(term, n)
                ==> self.kept(log, term, n)
    }

    /// A majority has acknowledged the `n`-th entry of a term's leader, which is
    /// of that term.
    pub open spec fn chosen(self, term: Term, n: int, size: nat) -> bool {
        self.own_entry(term, n) && exists|q: Set<NodeId>| #[trigger]
            quorum(q, size) && self.acked_by(q, term, n)
    }

    /// All of several nodes have acknowledged `n` entries of a term's leader.
    pub open spec fn acked_by(self, q: Set<NodeId>, term: Term, n: int) -> bool {
        forall|v: NodeId| #[trigger] q.contains(v) ==> self.ack(term, v) >= n
    }

    /// The first `n` entries of a log are committed, as of a term.
    pub open spec fn committed(self, log: Seq<LogEntry>, n: int, term: Term, size: nat) -> bool {
        ||| n == 0
        ||| n <= log.len() && exists|t: Term, m: int|
            t <= term && n <= m && #[trigger] self.chosen(t, m, size) && agree(log, self.logs[t], n)
    }

    /// What holds of the leader of a term.
    pub open spec fn term_ok(self, nodes: Seq<Core>, term: Term) -> bool {
        let leader = self.leaders[term];
        let log = self.logs[term];
        &&& term >= 1
        &&& leader < nodes.len()
        &&& nodes[leader as int].term >= term
        &&& nodes[leader as int].term == term ==> nodes[leader as int].role != Role::Candidate
        &&& self.good_log(log)
        &&& terms_up_to(log, term as int)
        &&& log.len() >= 1
        &&& last_term(log) == term
        &&& self.ack(term, leader) == log.len()
        &&& quorum(self.voters[term], nodes.len())
        &&& forall|v: NodeId| #[trigger]
            self.voters[term].contains(v) ==> self.votes.contains_key((term, v)) && self.votes[(
                term,
                v,
            )].candidate == leader
    }

    /// What holds of a vote.
    pub open spec fn vote_ok(self, nodes: Seq<Core>, term: Term, v: NodeId) -> bool {
        let vote = self.votes[(term, v)];
        &&& v < nodes.len()
        &&& vote.candidate < nodes.len()
        &&& nodes[v as int].term >= term
        &&& nodes[v as int].term == term ==> nodes[v as int].voted_for == Some(vote.candidate)
        &&& nodes[vote.candidate as int].term >= term
        &&& self.good_log(vote.log)
        &&& self.keeps_acked(vote.log, v, term as int)
        &&& nodes[vote.candidate as int].term == term && nodes[vote.candidate as int].role
            == Role::Candidate ==> up_to_date(nodes[vote.candidate as int].log, vote.log)
    }

    /// What holds of an acknowledgement.
    pub open spec fn ack_ok(self, nodes: Seq<Core>, term: Term, v: NodeId) -> bool {
        &&& self.led(term)
        &&& v < nodes.len()
        &&& nodes[v as int].term >= term
        &&& self.acks[(term, v)] <= self.logs[term].len()
    }

    /// What holds of a node that stands for election.
    pub open spec fn candidate_ok(self, nodes: Seq<Core>, v: NodeId) -> bool {
        let node = nodes[v as int];
        &&& terms_up_to(node.log, node.term - 1)
        &&& self.counted.contains_key(v)
        &&& self.counted[v].finite()
        &&& !self.counted[v].contains(v)
        &&& node.votes == 1 + self.counted[v].len()
        &&& forall|u: NodeId| #[trigger]
            self.counted[v].contains(u) ==> u < nodes.len() && self.votes.contains_key(
                (node.term, u),
            ) && self.votes[(node.term, u)].candidate == v
    }

    /// What holds of a node that leads.
    pub open spec fn leader_ok(self, node: Core, v: NodeId, size: nat) -> bool {
        &&& self.led(node.term)
        &&& self.leaders[node.term] == v
        &&& self.logs[node.term] == node.log
        &&& node.match_index.dom().finite()
        &&& forall|u: NodeId| #[trigger]
            node.match_index.contains_key(u) ==> u < size && node.match_index[u] <= self.ack(
                node.term,
                u,
            )
        &&& forall|u: NodeId| #[trigger]
            node.next_index.contains_key(u) ==> node.next_index[u] <= node.log.len() + 1
    }

    /// What holds of a node.
    pub open spec fn node_ok(self, nodes: Seq<Core>, v: NodeId) -> bool {
        let node = nodes[v as int];
        &&& self.good_log(node.log)
        &&& terms_up_to(node.log, node.term as int)
        &&& node.commit <= node.log.len()
        &&& self.committed(node.log, node.commit as int, node.term, nodes.len())
        &&& self.keeps_acked(node.log, v, node.term + 1)
        &&& node.role != Role::Follower ==> node.term >= 1 && node.voted_for == Some(v)
        &&& node.voted_for matches Some(c) ==> self.votes.contains_key((node.term, v))
            && self.votes[(node.term, v)].candidate == c
        &&& node.role == Role::Candidate ==> self.candidate_ok(nodes, v)
        &&& node.role == Role::Leader ==> self.leader_ok(node, v, nodes.len())
    }

    /// A later leader holds all of an earlier one that can still be committed.
    pub open spec fn complete(self, term: Term, later: Term) -> bool {
        forall|n: int| #[trigger] self.own_entry(term, n) ==> self.kept(self.logs[later], term, n)
    }

    /// What always holds of the nodes of a cluster.
    pub open spec fn nodes_ok(self, nodes: Seq<Core>) -> bool {
        &&& forall|v: NodeId| v < nodes.len() ==> #[trigger] self.node_ok(nodes, v)
        &&& forall|term: Term| #[trigger] self.led(term) ==> self.term_ok(nodes, term)
        &&& forall|term: Term, v: NodeId| #[trigger]
            self.votes.contains_key((term, v)) ==> self.vote_ok(nodes, term, v)
        &&& forall|term: Term, v: NodeId| #[trigger]
            self.acks.contains_key((term, v)) ==> self.ack_ok(nodes, term, v)
        &&& forall|term: Term, later: Term| #[trigger]
            self.led(term) && #[trigger] self.led(later) && term < later ==> self.complete(
                term,
                later,
            )
    }

    /// What holds of a message on its way.
    pub open spec fn message_ok(self, nodes: Seq<Core>, message: MessageView) -> bool {
        let from = message.from;
        let to = message.to;
        &&& from < nodes.len()
        &&& to < nodes.len()
        &&& from != to
        &&& match message.rpc {
            RpcView::RequestVote(request) => {
                &&& request.candidate_id == from
                &&& request.term <= nodes[from as int].term
                &&& nodes[from as int].term == request.term && nodes[from as int].role
                    == Role::Candidate ==> request.last_log_index as nat == nodes[from as int].log.len()
                    && request.last_log_term == last_term(nodes[from as int].log)
            },
            RpcView::RequestVoteReply(reply) => reply.vote_granted ==> {
                &&& reply.term <= nodes[to as int].term
                &&& self.votes.contains_key((reply.term, from))
                &&& self.votes[(reply.term, from)].candidate == to
            },
            RpcView::AppendEntries(request) => {
                let n = request.prev_log_index + request.entries.len();
                let log = self.logs[request.term];
                &&& self.led(request.term)
                &&& self.leaders[request.term] == from
                &&& request.leader_id == from
                &&& n <= log.len()
                &&& forall|k: int|
                    0 <= k < request.entries.len() ==> #[trigger] request.entries[k]
                        == log[request.prev_log_index + k]
                &&& request.prev_log_index > 0 ==> request.prev_log_term == log[request.prev_log_index
                    - 1].term
                &&& request.leader_commit <= n
                &&& self.committed(log, request.leader_commit as int, request.term, nodes.len())
            },
            RpcView::AppendEntriesReply(reply) => reply.success ==> {
                &&& self.led(reply.term)
                &&& self.leaders[reply.term] == to
                &&& reply.match_index <= self.ack(reply.term, from)
            },
        }
    }

    /// A message that is, or will bring, the vote of a node for a candidate.
    pub open spec fn brings_vote(
        message: MessageView,
        candidate: NodeId,
        voter: NodeId,
        term: Term,
    ) -> bool {
        match message.rpc {
            RpcView::RequestVote(request) => message.from == candidate && message.to == voter
                && request.term == term,
            RpcView::RequestVoteReply(reply) => message.to == candidate && message.from == voter
                && reply.term == term && reply.vote_granted,
            _ => false,
        }
    }

    /// No vote is brought twice.
    pub open spec fn votes_come_once(messages: Seq<MessageView>) -> bool {
        forall|i: int, j: int, candidate: NodeId, voter: NodeId, term: Term|
            0 <= i < j < messages.len() && #[trigger] History::brings_vote(
                messages[i],
                candidate,
                voter,
                term,
            ) ==> !#[trigger] History::brings_vote(messages[j], candidate, voter, term)
    }

    /// A vote that is still to be brought was not counted.
    pub open spec fn not_counted(self, nodes: Seq<Core>, message: MessageView) -> bool {
        forall|candidate: NodeId, voter: NodeId, term: Term| #[trigger]
            History::brings_vote(message, candidate, voter, term) ==> candidate < nodes.len() && term
                <= nodes[candidate as int].term && (nodes[candidate as int].role == Role::Candidate
                && nodes[candidate as int].term == term ==> !self.counted[candidate].contains(voter))
    }

    /// What always holds of the messages on their way.
    pub open spec fn messages_ok(self, nodes: Seq<Core>, messages: Seq<MessageView>) -> bool {
        &&& forall|i: int|
            0 <= i < messages.len() ==> self.message_ok(nodes, #[trigger] messages[i])
        &&& History::votes_come_once(messages)
        &&& forall|i: int|
            0 <= i < messages.len() ==> self.not_counted(nodes, #[trigger] messages[i])
    }

    /// What always holds of a cluster.
    pub open spec fn safe(self, nodes: Seq<Core>, messages: Seq<MessageView>) -> bool {
        self.nodes_ok(nodes) && self.messages_ok(nodes, messages)
    }

    /// A later history of the same cluster.
    pub open spec fn extends(self, next: History) -> bool {
        &&& forall|term: Term| #[trigger]
            self.led(term) ==> next.led(term) && next.leaders[term] == self.leaders[term] && agree(
                next.logs[term],
                self.logs[term],
                self.logs[term].len() as int,
            )
        &&& forall|term: Term, v: NodeId| #[trigger] next.ack(term, v) >= self.ack(term, v)
    }

    /// How a history may grow while nodes move on.
    pub open spec fn grows(self, nodes: Seq<Core>, next: History, after: Seq<Core>) -> bool {
        &&& after.len() == nodes.len()
        &&& forall|v: int| 0 <= v < nodes.len() ==> (#[trigger] nodes[v]).term <= after[v].term
        &&& forall|term: Term| #[trigger]
            self.led(term) ==> next.led(term) && next.leaders[term] == self.leaders[term]
                && next.voters[term] == self.voters[term] && agree(
                next.logs[term],
                self.logs[term],
                self.logs[term].len() as int,
            )
        &&& forall|term: Term, v: NodeId| #[trigger]
            next.ack(term, v) >= self.ack(term, v) && (next.ack(term, v) != self.ack(term, v)
                ==> v < nodes.len() && nodes[v as int].term <= term)
        &&& forall|term: Term, v: NodeId| #[trigger]
            self.votes.contains_key((term, v)) && self.votes[(term, v)].candidate != v
                ==> next.votes.contains_key((term, v)) && next.votes[(term, v)] == self.votes[(
                term,
                v,
            )]
        &&& forall|v: int|
            0 <= v < nodes.len() && (#[trigger] after[v]).role == Role::Candidate && after[v].term
                == nodes[v].term ==> nodes[v].role == Role::Candidate && after[v].log == nodes[v].log
    }
}

/// A bounded set of nodes is no larger than its bound.
pub proof fn bounded_set(nodes: Set<NodeId>, n: nat)
    requires
        nodes.finite(),
        forall|v: NodeId| #[trigger] nodes.contains(v) ==> v < n,
    ensures
        nodes.len() <= n,
    decreases n,
{
    if n == 0 {
        assert(nodes =~= Set::empty());
    } else {
        let last = (n - 1) as NodeId;
        let rest = nodes.remove(last);
        if n - 1 <= usize::MAX {
            assert forall|v: NodeId| #[trigger] rest.contains(v) implies v < n - 1 by {
                assert(nodes.contains(v));
                assert(v != last);
            }
        } else {
            assert forall|v: NodeId| #[trigger] rest.contains(v) implies v < n - 1 by {
                assert(v <= usize::MAX);
            }
        }
        bounded_set(rest, (n - 1) as nat);
    }
}

/// Two majorities have a node in common.
pub proof fn quorums_meet(a: Set<NodeId>, b: Set<NodeId>, n: nat) -> (v: NodeId)
    requires
        quorum(a, n),
        quorum(b, n),
    ensures
        a.contains(v),
        b.contains(v),
{
    if a.disjoint(b) {
        vstd::set_lib::lemma_set_disjoint_lens(a, b);
        bounded_set(a + b, n);
    }
    choose|v: NodeId| a.contains(v) && b.contains(v)
}

/// Logs that agree with a third agree with each other.
pub proof fn agree_through(a: Seq<LogEntry>, b: Seq<LogEntry>, c: Seq<LogEntry>, n: int)
    requires
        agree(a, b, n),
        agree(c, b, n),
    ensures
        agree(a, c, n),
        agree(c, a, n),
{
}

/// Logs that agree on more agree on less.
pub proof fn agree_on_less(a: Seq<LogEntry>, b: Seq<LogEntry>, n: int, m: int)
    requires
        agree(a, b, n),
        0 <= m <= n,
    ensures
        agree(a, b, m),
        agree(b, a, m),
{
}

/// Entries of one term in the same place come with all that is before them.
pub proof fn logs_match(h: History, a: Seq<LogEntry>, b: Seq<LogEntry>, n: int)
    requires
        h.good_log(a),
        h.good_log(b),
        1 <= n <= a.len(),
        n <= b.len(),
        a[n - 1].term == b[n - 1].term,
    ensures
        agree(a, b, n),
{
    assert(agree(a, h.logs[a[n - 1].term], n));
    assert(agree(b, h.logs[b[n - 1].term], n));
}

impl History {
    /// A history that grows is extended.
    pub proof fn growing_extends(self, nodes: Seq<Core>, next: History, after: Seq<Core>)
        requires
            self.grows(nodes, next, after),
        ensures
            self.extends(next),
    {
        assert forall|term: Term, v: NodeId| #[trigger] next.ack(term, v) >= self.ack(term, v) by {}
    }

    /// Extending is transitive.
    pub proof fn extends_through(self, middle: History, next: History)
        requires
            self.extends(middle),
            middle.extends(next),
        ensures
            self.extends(next),
    {
        assert forall|term: Term| #[trigger] self.led(term) implies next.led(term)
            && next.leaders[term] == self.leaders[term] && agree(
            next.logs[term],
            self.logs[term],
            self.logs[term].len() as int,
        ) by {
            assert(middle.led(term));
        }
        assert forall|term: Term, v: NodeId| #[trigger] next.ack(term, v) >= self.ack(term, v) by {
            assert(next.ack(term, v) >= middle.ack(term, v));
            assert(middle.ack(term, v) >= self.ack(term, v));
        }
    }

    /// What is out of reach of a majority stays so.
    pub proof fn dead_stays(
        self,
        nodes: Seq<Core>,
        next: History,
        after: Seq<Core>,
        term: Term,
        n: int,
    )
        requires
            self.nodes_ok(nodes),
            self.grows(nodes, next, after),
            self.dead(term, n),
        ensures
            next.dead(term, n),
    {
        let later = choose|later: Term|
            later > term && #[trigger] self.led(later) && self.lacking(later, term, n);
        assert(self.term_ok(nodes, later));
        assert(next.led(later));
        assert forall|v: NodeId| #[trigger] next.voters[later].contains(v) implies next.ack(
            term,
            v,
        ) < n by {
            assert(self.voters[later].contains(v));
            assert(self.votes.contains_key((later, v)));
            assert(self.vote_ok(nodes, later, v));
            assert(self.ack(term, v) < n);
            assert(next.ack(term, v) >= self.ack(term, v));
        }
        assert(next.lacking(later, term, n));
    }

    /// What a log keeps it keeps.
    pub proof fn kept_stays(
        self,
        nodes: Seq<Core>,
        next: History,
        after: Seq<Core>,
        log: Seq<LogEntry>,
        term: Term,
        n: int,
    )
        requires
            self.nodes_ok(nodes),
            self.grows(nodes, next, after),
            self.led(term),
            self.kept(log, term, n),
        ensures
            next.kept(log, term, n),
    {
        if self.dead(term, n) {
            self.dead_stays(nodes, next, after, term, n);
        } else {
            assert(next.led(term));
        }
    }

    /// A good log stays one.
    pub proof fn good_log_stays(
        self,
        nodes: Seq<Core>,
        next: History,
        after: Seq<Core>,
        log: Seq<LogEntry>,
    )
        requires
            self.grows(nodes, next, after),
            self.good_log(log),
        ensures
            next.good_log(log),
    {
        assert forall|j: int| 0 <= j < log.len() implies next.led((#[trigger] log[j]).term)
            && agree(log, next.logs[log[j].term], j + 1) by {
            let term = log[j].term;
            assert(self.led(term));
            assert(next.led(term));
            assert(agree(log, self.logs[term], j + 1));
        }
    }

    /// What is chosen stays chosen.
    pub proof fn chosen_stays(self, next: History, term: Term, n: int, size: nat)
        requires
            self.extends(next),
            self.chosen(term, n, size),
        ensures
            next.chosen(term, n, size),
            agree(next.logs[term], self.logs[term], n),
    {
        assert(self.led(term));
        assert(next.led(term));
        let q = choose|q: Set<NodeId>| #[trigger] quorum(q, size) && self.acked_by(q, term, n);
        assert(next.acked_by(q, term, n)) by {
            assert forall|v: NodeId| #[trigger] q.contains(v) implies next.ack(term, v) >= n by {
                assert(self.ack(term, v) >= n);
                assert(next.ack(term, v) >= self.ack(term, v));
            }
        }
        assert(next.logs[term][n - 1] == self.logs[term][n - 1]);
        assert(next.own_entry(term, n));
        assert(quorum(q, size) && next.acked_by(q, term, n));
    }

    /// What is committed stays committed.
    pub proof fn committed_stays(
        self,
        next: History,
        log: Seq<LogEntry>,
        n: int,
        term: Term,
        later: Term,
        size: nat,
    )
        requires
            self.extends(next),
            self.committed(log, n, term, size),
            term <= later,
        ensures
            next.committed(log, n, later, size),
    {
        if n != 0 {
            let (t, m) = choose|t: Term, m: int|
                t <= term && n <= m && #[trigger] self.chosen(t, m, size) && agree(
                    log,
                    self.logs[t],
                    n,
                );
            self.chosen_stays(next, t, m, size);
            assert(agree(log, next.logs[t], n));
            assert(next.chosen(t, m, size));
        }
    }

    /// A node that acknowledged nothing new since keeps what it acknowledged.
    pub proof fn keeps_acked_stays(
        self,
        nodes: Seq<Core>,
        next: History,
        after: Seq<Core>,
        log: Seq<LogEntry>,
        v: NodeId,
        before: int,
    )
        requires
            self.nodes_ok(nodes),
            self.grows(nodes, next, after),
            self.keeps_acked(log, v, before),
            forall|term: Term| term < before ==> #[trigger] next.ack(term, v) == self.ack(term, v),
        ensures
            next.keeps_acked(log, v, before),
    {
        assert forall|term: Term, n: int|
            term < before && n <= next.ack(term, v) && #[trigger] next.own_entry(term, n) implies next.kept(
            log,
            term,
            n,
        ) by {
            assert(next.ack(term, v) == self.ack(term, v));
            assert(self.acks.contains_key((term, v)));
            assert(self.ack_ok(nodes, term, v));
            assert(next.led(term));
            assert(next.logs[term][n - 1] == self.logs[term][n - 1]);
            assert(self.own_entry(term, n));
            self.kept_stays(nodes, next, after, log, term, n);
        }
    }

    /// What is chosen is not out of reach of a majority.
    pub proof fn chosen_is_not_dead(self, nodes: Seq<Core>, term: Term, n: int)
        requires
            self.nodes_ok(nodes),
            self.chosen(term, n, nodes.len()),
        ensures
            !self.dead(term, n),
    {
        if self.dead(term, n) {
            let later = choose|later: Term|
                later > term && #[trigger] self.led(later) && self.lacking(later, term, n);
            assert(self.term_ok(nodes, later));
            let q = choose|q: Set<NodeId>| #[trigger]
                quorum(q, nodes.len()) && self.acked_by(q, term, n);
            let v = quorums_meet(q, self.voters[later], nodes.len());
            assert(self.ack(term, v) >= n);
        }
    }

    /// What is chosen is in the log of every later leader.
    pub proof fn chosen_is_kept(self, nodes: Seq<Core>, term: Term, n: int, later: Term)
        requires
            self.nodes_ok(nodes),
            self.chosen(term, n, nodes.len()),
            self.led(later),
            term <= later,
        ensures
            agree(self.logs[later], self.logs[term], n),
    {
        self.chosen_is_not_dead(nodes, term, n);
        if term < later {
            assert(self.led(term) && self.led(later));
            assert(self.complete(term, later));
            assert(self.own_entry(term, n));
        }
    }

    /// What is committed as of a term is in the log of its leader and of every
    /// later one.
    pub proof fn committed_is_kept(
        self,
        nodes: Seq<Core>,
        log: Seq<LogEntry>,
        n: int,
        term: Term,
        later: Term,
    )
        requires
            self.nodes_ok(nodes),
            self.committed(log, n, term, nodes.len()),
            0 <= n <= log.len(),
            self.led(later),
            term <= later,
        ensures
            agree(self.logs[later], log, n),
            agree(log, self.logs[later], n),
    {
        if n != 0 {
            let (t, m) = choose|t: Term, m: int|
                t <= term && n <= m && #[trigger] self.chosen(t, m, nodes.len()) && agree(
                    log,
                    self.logs[t],
                    n,
                );
            self.chosen_is_kept(nodes, t, m, later);
            agree_on_less(self.logs[later], self.logs[t], m, n);
        }
    }
}

} // verus!
