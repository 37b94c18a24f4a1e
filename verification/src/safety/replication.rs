//! Leading, replication and commitment keep a cluster safe.
use crate::safety::history::{Core, History};
use crate::types::{LogEntry, LogIndex, NodeId, Role, Term};
use vstd::prelude::*;

verus! {

impl History {
    /// The history after a leader put one more entry into its log.
    pub open spec fn appended(self, at: NodeId, term: Term, log: Seq<LogEntry>) -> History {
        History {
            logs: self.logs.insert(term, log),
            acks: self.acks.insert((term, at), log.len()),
            ..self
        }
    }

    /// A committed beginning of a log is one of every log that agrees on it.
    pub proof fn committed_elsewhere(
        self,
        log: Seq<LogEntry>,
        other: Seq<LogEntry>,
        n: int,
        term: Term,
        size: nat,
    )
        requires
            self.committed(log, n, term, size),
            crate::safety::history::agree(other, log, n),
        ensures
            self.committed(other, n, term, size),
    {
        if n != 0 {
            let (t, m) = choose|t: Term, m: int|
                t <= term && n <= m && #[trigger] self.chosen(t, m, size)
                    && crate::safety::history::agree(log, self.logs[t], n);
            assert(crate::safety::history::agree(other, self.logs[t], n));
        }
    }

    /// One more entry of its term in a leader's log keeps the nodes in order.
    pub proof fn appending_keeps(self, nodes: Seq<Core>, at: NodeId, after: Seq<Core>)
        requires
            self.nodes_ok(nodes),
            at < nodes.len(),
            after == nodes.update(at as int, after[at as int]),
            nodes[at as int].role == Role::Leader,
            ({
                let a = nodes[at as int];
                let b = after[at as int];
                &&& b.log.len() == a.log.len() + 1
                &&& b.log.len() <= usize::MAX
                &&& b.log == a.log.push(b.log.last())
                &&& b.log.last().term == a.term
                &&& b == (Core {
                    log: b.log,
                    match_index: a.match_index.insert(at, b.log.len() as LogIndex),
                    ..a
                })
            }),
        ensures
            self.appended(at, nodes[at as int].term, after[at as int].log).nodes_ok(after),
            self.grows(
                nodes,
                self.appended(at, nodes[at as int].term, after[at as int].log),
                after,
            ),
    {
        let a = nodes[at as int];
        let b = after[at as int];
        let next = self.appended(at, a.term, b.log);
        assert(self.node_ok(nodes, at));
        assert(self.led(a.term));
        assert(self.term_ok(nodes, a.term));
        assert forall|term: Term, v: NodeId| !(term == a.term && v == at) implies #[trigger] next.ack(
            term,
            v,
        ) == self.ack(term, v) by {}
        assert(next.ack(a.term, at) == b.log.len());
        assert(self.grows(nodes, next, after)) by {
            assert forall|term: Term, v: NodeId| #[trigger]
                next.ack(term, v) >= self.ack(term, v) && (next.ack(term, v) != self.ack(term, v)
                    ==> v < nodes.len() && nodes[v as int].term <= term) by {}
        }
        assert(next.good_log(b.log)) by {
            self.good_log_stays(nodes, next, after, a.log);
            assert forall|j: int, k: int| 0 <= j <= k < b.log.len() implies (
            #[trigger] b.log[j]).term <= (#[trigger] b.log[k]).term by {
                if j < a.log.len() {
                    assert(b.log[j] == a.log[j]);
                    assert(a.log[j].term <= a.term);
                }
                if k < a.log.len() {
                    assert(b.log[k] == a.log[k]);
                }
            }
            assert forall|j: int| 0 <= j < b.log.len() implies next.led((#[trigger] b.log[j]).term)
                && crate::safety::history::agree(b.log, next.logs[b.log[j].term], j + 1) by {
                if j < a.log.len() {
                    assert(b.log[j] == a.log[j]);
                    assert(next.led(a.log[j].term));
                }
            }
        }
        self.growing_extends(nodes, next, after);
        self.committed_stays(
            next,
            a.log,
            a.commit as int,
            a.term,
            a.term,
            nodes.len(),
        );
        next.committed_elsewhere(a.log, b.log, a.commit as int, a.term, nodes.len());
        assert(next.keeps_acked(b.log, at, a.term + 1)) by {
            assert forall|term: Term, n: int|
                term < a.term + 1 && n <= next.ack(term, at) && #[trigger] next.own_entry(
                    term,
                    n,
                ) implies next.kept(b.log, term, n) by {
                if term != a.term {
                    assert(self.ack(term, at) == next.ack(term, at));
                    assert(self.own_entry(term, n));
                    self.kept_stays(nodes, next, after, a.log, term, n);
                    if crate::safety::history::agree(a.log, next.logs[term], n) {
                        assert(crate::safety::history::agree(b.log, next.logs[term], n));
                    }
                }
            }
        }
        assert(next.leader_ok(b, at, nodes.len())) by {
            assert forall|u: NodeId| #[trigger] b.match_index.contains_key(u) implies u < nodes.len()
                && b.match_index[u] <= next.ack(b.term, u) by {
                if u != at {
                    assert(a.match_index.contains_key(u));
                    assert(next.ack(b.term, u) == self.ack(b.term, u));
                }
            }
        }
        assert(crate::safety::history::terms_up_to(b.log, b.term as int)) by {
            assert forall|j: int| 0 <= j < b.log.len() implies (#[trigger] b.log[j]).term <= b.term by {
                if j < a.log.len() {
                    assert(b.log[j] == a.log[j]);
                }
            }
        }
        assert(next.node_ok(after, at));
        assert forall|v: NodeId| v < after.len() implies #[trigger] next.node_ok(after, v) by {
            if v != at {
                self.bystander_stays(nodes, next, after, at, v);
            }
        }
        assert forall|term: Term| #[trigger] next.led(term) implies next.term_ok(after, term) by {
            assert(self.led(term));
            assert(self.term_ok(nodes, term));
            if term != a.term {
                self.good_log_stays(nodes, next, after, self.logs[term]);
                assert(next.ack(term, self.leaders[term]) == self.ack(term, self.leaders[term]));
            }
        }
        assert forall|term: Term, v: NodeId| #[trigger]
            next.votes.contains_key((term, v)) implies next.vote_ok(after, term, v) by {
            assert(self.vote_ok(nodes, term, v));
            self.vote_stays(nodes, next, after, at, term, v);
        }
        assert forall|term: Term, v: NodeId| #[trigger]
            next.acks.contains_key((term, v)) implies next.ack_ok(after, term, v) by {
            if !(term == a.term && v == at) {
                assert(self.acks.contains_key((term, v)));
                assert(self.ack_ok(nodes, term, v));
            }
        }
        assert forall|term: Term, later: Term| #[trigger]
            next.led(term) && #[trigger] next.led(later) && term < later implies next.complete(
            term,
            later,
        ) by {
            assert(self.led(term) && self.led(later));
            assert(self.complete(term, later));
            assert forall|n: int| #[trigger] next.own_entry(term, n) implies next.kept(
                next.logs[later],
                term,
                n,
            ) by {
                if term == a.term && n == b.log.len() {
                    assert(self.term_ok(nodes, later));
                    assert forall|v: NodeId| #[trigger] next.voters[later].contains(v) implies next.ack(
                    term, v) < n by {
                        assert(self.voters[later].contains(v));
                        assert(self.votes.contains_key((later, v)));
                        assert(self.vote_ok(nodes, later, v));
                        assert(next.ack(term, v) == self.ack(term, v));
                        if self.acks.contains_key((term, v)) {
                            assert(self.ack_ok(nodes, term, v));
                        }
                    }
                    assert(next.lacking(later, term, n));
                } else {
                    if term == a.term {
                        assert(b.log[n - 1] == a.log[n - 1]);
                    }
                    assert(self.own_entry(term, n));
                    self.kept_stays(nodes, next, after, self.logs[later], term, n);
                    if crate::safety::history::agree(self.logs[later], next.logs[term], n) {
                        assert(crate::safety::history::agree(next.logs[later], next.logs[term], n));
                    }
                }
            }
        }
    }

    /// The history after a candidate was elected by several voters.
    pub open spec fn elected(
        self,
        at: NodeId,
        term: Term,
        voters: Set<NodeId>,
        log: Seq<LogEntry>,
    ) -> History {
        History {
            leaders: self.leaders.insert(term, at),
            voters: self.voters.insert(term, voters),
            logs: self.logs.insert(term, log),
            acks: self.acks.insert((term, at), log.len()),
            ..self
        }
    }

    /// A term is led only once.
    pub proof fn term_is_open(self, nodes: Seq<Core>, at: NodeId, voters: Set<NodeId>)
        requires
            self.nodes_ok(nodes),
            at < nodes.len(),
            nodes[at as int].role == Role::Candidate,
            crate::safety::history::quorum(voters, nodes.len()),
            forall|v: NodeId| #[trigger]
                voters.contains(v) ==> self.votes.contains_key((nodes[at as int].term, v))
                    && self.votes[(nodes[at as int].term, v)].candidate == at,
        ensures
            !self.led(nodes[at as int].term),
    {
        let term = nodes[at as int].term;
        if self.led(term) {
            assert(self.term_ok(nodes, term));
            let v = crate::safety::history::quorums_meet(voters, self.voters[term], nodes.len());
            assert(self.votes[(term, v)].candidate == at);
            assert(self.votes[(term, v)].candidate == self.leaders[term]);
        }
    }

    /// What an earlier leader's voters acknowledged, a candidate that a majority
    /// voted for holds, as far as it can still be committed.
    proof fn winner_is_complete(
        self,
        nodes: Seq<Core>,
        at: NodeId,
        v: NodeId,
        term: Term,
        n: int,
    )
        requires
            self.nodes_ok(nodes),
            at < nodes.len(),
            nodes[at as int].role == Role::Candidate,
            self.votes.contains_key((nodes[at as int].term, v)),
            self.votes[(nodes[at as int].term, v)].candidate == at,
            term < nodes[at as int].term,
            self.own_entry(term, n),
            n <= self.ack(term, v),
        ensures
            self.kept(nodes[at as int].log, term, n),
    {
        let a = nodes[at as int];
        let log = a.log;
        assert(self.node_ok(nodes, at));
        assert(self.vote_ok(nodes, a.term, v));
        let voter_log = self.votes[(a.term, v)].log;
        assert(self.kept(voter_log, term, n));
        if !self.dead(term, n) {
            assert(crate::safety::history::agree(voter_log, self.logs[term], n));
            assert(voter_log[n - 1].term == term);
            assert(voter_log[n - 1].term <= voter_log[voter_log.len() - 1].term);
            assert(self.term_ok(nodes, term));
            assert(crate::safety::history::last_term(log) >= crate::safety::history::last_term(
                voter_log,
            ));
            assert(log.len() > 0);
            let t = log.last().term;
            let last = log.len() - 1;
            assert(log[last].term == t);
            assert(crate::safety::history::agree(log, self.logs[t], log.len() as int));
            if t == voter_log.last().term {
                assert(voter_log[voter_log.len() - 1].term == t);
                assert(crate::safety::history::agree(
                    voter_log,
                    self.logs[t],
                    voter_log.len() as int,
                ));
                assert(crate::safety::history::agree(log, self.logs[term], n));
            } else {
                assert(self.led(term) && self.led(t));
                assert(self.complete(term, t));
                assert(self.kept(self.logs[t], term, n));
                assert(crate::safety::history::agree(self.logs[t], self.logs[term], n));
                assert(self.term_ok(nodes, t));
                if last < n - 1 {
                    assert(self.logs[t][last].term <= self.logs[t][n - 1].term);
                }
                assert(crate::safety::history::agree(log, self.logs[term], n));
            }
        }
    }

    /// An election keeps the nodes in order.
    pub proof fn election_keeps(
        self,
        nodes: Seq<Core>,
        at: NodeId,
        voters: Set<NodeId>,
        after: Seq<Core>,
    )
        requires
            self.nodes_ok(nodes),
            at < nodes.len(),
            after == nodes.update(at as int, after[at as int]),
            nodes[at as int].role == Role::Candidate,
            crate::safety::history::quorum(voters, nodes.len()),
            forall|v: NodeId| #[trigger]
                voters.contains(v) ==> self.votes.contains_key((nodes[at as int].term, v))
                    && self.votes[(nodes[at as int].term, v)].candidate == at,
            ({
                let a = nodes[at as int];
                let b = after[at as int];
                &&& b.role == Role::Leader
                &&& b.term == a.term
                &&& b.voted_for == a.voted_for
                &&& b.commit == a.commit
                &&& b.log.len() == a.log.len() + 1
                &&& b.log == a.log.push(b.log.last())
                &&& b.log.last().term == a.term
                &&& b.match_index.dom().finite()
                &&& forall|u: NodeId| #[trigger]
                    b.match_index.contains_key(u) ==> u < nodes.len() && b.match_index[u] <= if u
                        == at {
                        b.log.len()
                    } else {
                        0
                    }
                &&& forall|u: NodeId| #[trigger]
                    b.next_index.contains_key(u) ==> b.next_index[u] <= b.log.len() + 1
            }),
        ensures
            self.elected(at, nodes[at as int].term, voters, after[at as int].log).nodes_ok(after),
            self.grows(
                nodes,
                self.elected(at, nodes[at as int].term, voters, after[at as int].log),
                after,
            ),
    {
        let a = nodes[at as int];
        let b = after[at as int];
        let next = self.elected(at, a.term, voters, b.log);
        self.term_is_open(nodes, at, voters);
        assert(self.node_ok(nodes, at));
        assert forall|v: NodeId| self.ack(a.term, v) == 0 by {
            if self.acks.contains_key((a.term, v)) {
                assert(self.ack_ok(nodes, a.term, v));
            }
        }
        assert forall|term: Term, v: NodeId| !(term == a.term && v == at) implies #[trigger] next.ack(
            term,
            v,
        ) == self.ack(term, v) by {}
        assert(next.ack(a.term, at) == b.log.len());
        assert(self.grows(nodes, next, after)) by {
            assert forall|term: Term, v: NodeId| #[trigger]
                next.ack(term, v) >= self.ack(term, v) && (next.ack(term, v) != self.ack(term, v)
                    ==> v < nodes.len() && nodes[v as int].term <= term) by {
                if term == a.term && v == at {
                    assert(self.ack(a.term, v) == 0);
                }
            }
        }
        assert(next.good_log(b.log)) by {
            self.good_log_stays(nodes, next, after, a.log);
            assert forall|j: int, k: int| 0 <= j <= k < b.log.len() implies (
            #[trigger] b.log[j]).term <= (#[trigger] b.log[k]).term by {
                if j < a.log.len() {
                    assert(b.log[j] == a.log[j]);
                    assert(a.log[j].term <= a.term);
                }
                if k < a.log.len() {
                    assert(b.log[k] == a.log[k]);
                }
            }
            assert forall|j: int| 0 <= j < b.log.len() implies next.led((#[trigger] b.log[j]).term)
                && crate::safety::history::agree(b.log, next.logs[b.log[j].term], j + 1) by {
                if j < a.log.len() {
                    assert(b.log[j] == a.log[j]);
                    assert(next.led(a.log[j].term));
                }
            }
        }
        self.growing_extends(nodes, next, after);
        self.committed_stays(
            next,
            a.log,
            a.commit as int,
            a.term,
            a.term,
            nodes.len(),
        );
        next.committed_elsewhere(a.log, b.log, a.commit as int, a.term, nodes.len());
        assert(next.keeps_acked(b.log, at, a.term + 1)) by {
            assert forall|term: Term, n: int|
                term < a.term + 1 && n <= next.ack(term, at) && #[trigger] next.own_entry(
                    term,
                    n,
                ) implies next.kept(b.log, term, n) by {
                if term != a.term {
                    assert(self.ack(term, at) == next.ack(term, at));
                    assert(self.own_entry(term, n));
                    self.kept_stays(nodes, next, after, a.log, term, n);
                    if crate::safety::history::agree(a.log, next.logs[term], n) {
                        assert(crate::safety::history::agree(b.log, next.logs[term], n));
                    }
                }
            }
        }
        assert(crate::safety::history::terms_up_to(b.log, b.term as int)) by {
            assert forall|j: int| 0 <= j < b.log.len() implies (#[trigger] b.log[j]).term <= b.term by {
                if j < a.log.len() {
                    assert(b.log[j] == a.log[j]);
                }
            }
        }
        assert(next.node_ok(after, at));
        assert forall|v: NodeId| v < after.len() implies #[trigger] next.node_ok(after, v) by {
            if v != at {
                self.bystander_stays(nodes, next, after, at, v);
            }
        }
        assert forall|term: Term| #[trigger] next.led(term) implies next.term_ok(after, term) by {
            if term != a.term {
                assert(self.led(term));
                assert(self.term_ok(nodes, term));
                self.good_log_stays(nodes, next, after, self.logs[term]);
                assert(next.ack(term, self.leaders[term]) == self.ack(term, self.leaders[term]));
            }
        }
        assert forall|term: Term, v: NodeId| #[trigger]
            next.votes.contains_key((term, v)) implies next.vote_ok(after, term, v) by {
            assert(self.vote_ok(nodes, term, v));
            self.vote_stays(nodes, next, after, at, term, v);
        }
        assert forall|term: Term, v: NodeId| #[trigger]
            next.acks.contains_key((term, v)) implies next.ack_ok(after, term, v) by {
            if !(term == a.term && v == at) {
                assert(self.acks.contains_key((term, v)));
                assert(self.ack_ok(nodes, term, v));
            }
        }
        assert forall|term: Term, later: Term| #[trigger]
            next.led(term) && #[trigger] next.led(later) && term < later implies next.complete(
            term,
            later,
        ) by {
            self.election_completes(nodes, at, voters, after, next, term, later);
        }
    }

    /// After an election, every leader holds all of the earlier ones that can
    /// still be committed.
    proof fn election_completes(
        self,
        nodes: Seq<Core>,
        at: NodeId,
        voters: Set<NodeId>,
        after: Seq<Core>,
        next: History,
        term: Term,
        later: Term,
    )
        requires
            self.nodes_ok(nodes),
            at < nodes.len(),
            nodes[at as int].role == Role::Candidate,
            !self.led(nodes[at as int].term),
            forall|v: NodeId| #[trigger]
                voters.contains(v) ==> self.votes.contains_key((nodes[at as int].term, v))
                    && self.votes[(nodes[at as int].term, v)].candidate == at,
            after[at as int].log == nodes[at as int].log.push(after[at as int].log.last()),
            after[at as int].log.len() == nodes[at as int].log.len() + 1,
            next == self.elected(at, nodes[at as int].term, voters, after[at as int].log),
            self.grows(nodes, next, after),
            next.led(term),
            next.led(later),
            term < later,
        ensures
            next.complete(term, later),
    {
        let a = nodes[at as int];
        let b = after[at as int];
        assert(self.node_ok(nodes, at));
        assert forall|n: int| #[trigger] next.own_entry(term, n) implies next.kept(
            next.logs[later],
            term,
            n,
        ) by {
            if term == a.term {
                assert(self.led(later));
                assert(self.term_ok(nodes, later));
                if n <= a.log.len() {
                    assert(b.log[n - 1] == a.log[n - 1]);
                    assert(self.candidate_ok(nodes, at));
                }
                assert forall|v: NodeId| #[trigger] next.voters[later].contains(v) implies next.ack(
                term, v) < n by {
                    assert(self.voters[later].contains(v));
                    assert(self.votes.contains_key((later, v)));
                    assert(self.vote_ok(nodes, later, v));
                    if self.acks.contains_key((term, v)) {
                        assert(self.ack_ok(nodes, term, v));
                    }
                }
                assert(next.lacking(later, term, n));
            } else {
                assert(self.led(term));
                assert(self.own_entry(term, n));
                if later == a.term {
                    if exists|v: NodeId| #[trigger] voters.contains(v) && n <= self.ack(term, v) {
                        let v = choose|v: NodeId| #[trigger]
                            voters.contains(v) && n <= self.ack(term, v);
                        self.winner_is_complete(nodes, at, v, term, n);
                        self.kept_stays(nodes, next, after, a.log, term, n);
                        if crate::safety::history::agree(a.log, next.logs[term], n) {
                            assert(crate::safety::history::agree(b.log, next.logs[term], n));
                        }
                    } else {
                        assert forall|v: NodeId| #[trigger]
                            next.voters[later].contains(v) implies next.ack(term, v) < n by {
                            assert(voters.contains(v));
                            assert(next.ack(term, v) == self.ack(term, v));
                        }
                        assert(next.lacking(later, term, n));
                    }
                } else {
                    assert(self.led(later));
                    assert(self.complete(term, later));
                    self.kept_stays(nodes, next, after, self.logs[later], term, n);
                }
            }
        }
    }

    /// A leader's bookkeeping keeps the nodes in order, and so does committing an
    /// entry of its term that a majority is known to hold.
    pub proof fn bookkeeping_keeps(
        self,
        nodes: Seq<Core>,
        at: NodeId,
        holders: Set<NodeId>,
        after: Seq<Core>,
    )
        requires
            self.nodes_ok(nodes),
            at < nodes.len(),
            after == nodes.update(at as int, after[at as int]),
            nodes[at as int].role == Role::Leader,
            ({
                let a = nodes[at as int];
                let b = after[at as int];
                &&& b == (Core {
                    commit: b.commit,
                    match_index: b.match_index,
                    next_index: b.next_index,
                    ..a
                })
                &&& self.leader_ok(b, at, nodes.len())
                &&& b.commit == a.commit || ({
                    &&& 1 <= b.commit <= b.log.len()
                    &&& b.log[b.commit - 1].term == b.term
                    &&& crate::safety::history::quorum(holders, nodes.len())
                    &&& forall|v: NodeId| #[trigger]
                        holders.contains(v) ==> b.match_index.contains_key(v) && b.match_index[v]
                            >= b.commit
                })
            }),
        ensures
            self.nodes_ok(after),
            self.grows(nodes, self, after),
    {
        let a = nodes[at as int];
        let b = after[at as int];
        assert(self.node_ok(nodes, at));
        assert(self.is_quiet(nodes, self, after, at));
        self.quiet_grows(nodes, self, after, at);
        if b.commit != a.commit {
            let n = b.commit as int;
            assert(self.acked_by(holders, b.term, n)) by {
                assert forall|v: NodeId| #[trigger] holders.contains(v) implies self.ack(b.term, v)
                    >= n by {
                    assert(b.match_index.contains_key(v));
                }
            }
            assert(self.own_entry(b.term, n));
            assert(self.chosen(b.term, n, nodes.len()));
            assert(crate::safety::history::agree(b.log, self.logs[b.term], n));
        }
        assert(self.votes.contains_key((b.term, at)));
        assert(self.vote_ok(nodes, b.term, at));
        self.vote_stays(nodes, self, after, at, b.term, at);
        self.quiet_keeps(nodes, self, after, at);
    }

    /// The history after a node acknowledged `n` entries of a leader.
    pub open spec fn acknowledged(self, at: NodeId, term: Term, n: nat) -> History {
        History {
            acks: self.acks.insert(
                (term, at),
                if n > self.ack(term, at) {
                    n
                } else {
                    self.ack(term, at)
                },
            ),
            ..self
        }
    }

    /// Taking entries of a term's leader into a log keeps the nodes in order.
    pub proof fn accepting_keeps(
        self,
        nodes: Seq<Core>,
        at: NodeId,
        n: nat,
        leader_commit: LogIndex,
        after: Seq<Core>,
    )
        requires
            self.nodes_ok(nodes),
            at < nodes.len(),
            after == nodes.update(at as int, after[at as int]),
            nodes[at as int].role == Role::Follower,
            self.led(nodes[at as int].term),
            self.leaders[nodes[at as int].term] != at,
            n <= self.logs[nodes[at as int].term].len(),
            leader_commit <= n,
            self.committed(
                self.logs[nodes[at as int].term],
                leader_commit as int,
                nodes[at as int].term,
                nodes.len(),
            ),
            ({
                let a = nodes[at as int];
                let b = after[at as int];
                let log = self.logs[a.term];
                &&& b == (Core { log: b.log, commit: b.commit, ..a })
                &&& b.commit == if leader_commit > a.commit {
                    leader_commit
                } else {
                    a.commit
                }
                &&& crate::safety::history::agree(b.log, log, n as int)
                &&& b.log == a.log || (b.log.len() == n && forall|m: int| #[trigger]
                    crate::safety::history::agree(a.log, log, m) ==> m < n)
            }),
        ensures
            self.acknowledged(at, nodes[at as int].term, n).nodes_ok(after),
            self.grows(nodes, self.acknowledged(at, nodes[at as int].term, n), after),
    {
        let a = nodes[at as int];
        let b = after[at as int];
        let log = self.logs[a.term];
        let next = self.acknowledged(at, a.term, n);
        assert(self.node_ok(nodes, at));
        assert(self.term_ok(nodes, a.term));
        assert forall|term: Term, v: NodeId| !(term == a.term && v == at) implies #[trigger] next.ack(
            term,
            v,
        ) == self.ack(term, v) by {}
        assert(self.grows(nodes, next, after)) by {
            assert forall|term: Term, v: NodeId| #[trigger]
                next.ack(term, v) >= self.ack(term, v) && (next.ack(term, v) != self.ack(term, v)
                    ==> v < nodes.len() && nodes[v as int].term <= term) by {}
        }
        // What the old log held of the leader's, the new one holds too.
        assert forall|m: int|
            crate::safety::history::agree(a.log, log, m) implies #[trigger] crate::safety::history::agree(
            b.log, log, m) by {}
        self.committed_is_kept(nodes, a.log, a.commit as int, a.term, a.term);
        assert(crate::safety::history::agree(b.log, log, a.commit as int));
        crate::safety::history::agree_through(b.log, log, a.log, a.commit as int);
        self.committed_elsewhere(a.log, b.log, a.commit as int, a.term, nodes.len());
        crate::safety::history::agree_on_less(b.log, log, n as int, leader_commit as int);
        self.committed_elsewhere(log, b.log, leader_commit as int, a.term, nodes.len());
        self.growing_extends(nodes, next, after);
        self.committed_stays(
            next,
            b.log,
            b.commit as int,
            a.term,
            a.term,
            nodes.len(),
        );
        assert(self.good_log(b.log) && crate::safety::history::terms_up_to(b.log, a.term as int))
            by {
            if b.log != a.log {
                assert forall|j: int, k: int| 0 <= j <= k < b.log.len() implies (
                #[trigger] b.log[j]).term <= (#[trigger] b.log[k]).term by {
                    assert(b.log[j] == log[j] && b.log[k] == log[k]);
                }
                assert forall|j: int| 0 <= j < b.log.len() implies self.led(
                    (#[trigger] b.log[j]).term,
                ) && crate::safety::history::agree(b.log, self.logs[b.log[j].term], j + 1)
                    && b.log[j].term <= a.term by {
                    assert(b.log[j] == log[j]);
                    assert(crate::safety::history::agree(log, self.logs[log[j].term], j + 1));
                }
            }
        }
        self.good_log_stays(nodes, next, after, b.log);
        assert(next.keeps_acked(b.log, at, a.term + 1)) by {
            assert forall|term: Term, m: int|
                term < a.term + 1 && m <= next.ack(term, at) && #[trigger] next.own_entry(
                    term,
                    m,
                ) implies next.kept(b.log, term, m) by {
                assert(self.own_entry(term, m));
                if term == a.term && m <= n {
                    crate::safety::history::agree_on_less(b.log, log, n as int, m);
                } else {
                    assert(m <= self.ack(term, at));
                    assert(self.kept(a.log, term, m));
                    self.acked_survives(nodes, at, b.log, n, term, m);
                    self.kept_stays(nodes, next, after, b.log, term, m);
                }
            }
        }
        assert(next.node_ok(after, at));
        assert forall|v: NodeId| v < after.len() implies #[trigger] next.node_ok(after, v) by {
            if v != at {
                self.bystander_stays(nodes, next, after, at, v);
            }
        }
        assert forall|term: Term| #[trigger] next.led(term) implies next.term_ok(after, term) by {
            assert(self.led(term));
            assert(self.term_ok(nodes, term));
            self.good_log_stays(nodes, next, after, self.logs[term]);
            assert(next.ack(term, self.leaders[term]) == self.ack(term, self.leaders[term]));
        }
        assert forall|term: Term, v: NodeId| #[trigger]
            next.votes.contains_key((term, v)) implies next.vote_ok(after, term, v) by {
            assert(self.vote_ok(nodes, term, v));
            self.vote_stays(nodes, next, after, at, term, v);
        }
        assert forall|term: Term, v: NodeId| #[trigger]
            next.acks.contains_key((term, v)) implies next.ack_ok(after, term, v) by {
            if self.acks.contains_key((term, v)) {
                assert(self.ack_ok(nodes, term, v));
            }
        }
        assert forall|term: Term, later: Term| #[trigger]
            next.led(term) && #[trigger] next.led(later) && term < later implies next.complete(
            term,
            later,
        ) by {
            assert(self.led(term) && self.led(later));
            assert(self.complete(term, later));
            assert forall|m: int| #[trigger] next.own_entry(term, m) implies next.kept(
                next.logs[later],
                term,
                m,
            ) by {
                assert(self.own_entry(term, m));
                self.kept_stays(nodes, next, after, self.logs[later], term, m);
            }
        }
    }

    /// What a node acknowledged before is in its log after it took entries of a
    /// leader, as far as it can still be committed.
    proof fn acked_survives(
        self,
        nodes: Seq<Core>,
        at: NodeId,
        new_log: Seq<LogEntry>,
        n: nat,
        term: Term,
        m: int,
    )
        requires
            self.nodes_ok(nodes),
            at < nodes.len(),
            self.led(nodes[at as int].term),
            term <= nodes[at as int].term,
            self.own_entry(term, m),
            self.kept(nodes[at as int].log, term, m),
            crate::safety::history::agree(new_log, self.logs[nodes[at as int].term], n as int),
            new_log == nodes[at as int].log || (new_log.len() == n && forall|k: int| #[trigger]
                crate::safety::history::agree(
                    nodes[at as int].log,
                    self.logs[nodes[at as int].term],
                    k,
                ) ==> k < n),
        ensures
            self.kept(new_log, term, m),
    {
        let a = nodes[at as int];
        let log = self.logs[a.term];
        if !self.dead(term, m) && new_log != a.log {
            assert(crate::safety::history::agree(a.log, self.logs[term], m));
            if term < a.term {
                assert(self.led(term) && self.led(a.term));
                assert(self.complete(term, a.term));
                assert(self.kept(log, term, m));
            }
            assert(crate::safety::history::agree(log, self.logs[term], m));
            assert(crate::safety::history::agree(a.log, log, m));
            assert(crate::safety::history::agree(new_log, self.logs[term], m));
        }
    }
}

} // verus!
