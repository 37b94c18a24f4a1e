//! The mathematical model of a node: its state and the transitions it makes.
use crate::state_machine::{KvState, StateMachine, StateMachineError};
use crate::types::{
    AppendEntriesReply, AppendEntriesView, ClientReplyView, ClientRequest, Command, LogEntry, LogIndex,
    MessageView, NodeId, RequestVote, RequestVoteReply, Role, RpcView, Term,
};
use vstd::prelude::*;

verus! {

/// Milliseconds between two heartbeats of a leader.
pub const HEARTBEAT_MS: u64 = 50;

/// The shortest election timeout in milliseconds.
pub const ELECTION_MIN_MS: u64 = 150;

/// The number of different election timeouts.
pub const ELECTION_SPAN_MS: u64 = 151;

/// The longest election timeout in milliseconds.
pub const ELECTION_MAX_MS: u64 = 300;

/// The state of a node, over a state machine described by `D`.
#[verifier::ext_equal]
#[verifier::reject_recursive_types(D)]
pub struct NodeState<D> {
    pub id: NodeId,
    pub peers: Seq<NodeId>,
    pub role: Role,
    pub current_term: Term,
    pub voted_for: Option<NodeId>,
    pub log: Seq<LogEntry>,
    pub commit_index: LogIndex,
    pub last_applied: LogIndex,
    pub data: D,
    pub leader_id: Option<NodeId>,
    pub election_deadline: u64,
    pub last_heartbeat_at: u64,
    pub rng_state: u64,
    pub votes_granted: usize,
    pub next_index: Map<NodeId, LogIndex>,
    pub match_index: Map<NodeId, LogIndex>,
    pub term_start_index: LogIndex,
}

/// The smaller of two indices.
pub open spec fn least(a: LogIndex, b: LogIndex) -> LogIndex {
    if a <= b {
        a
    } else {
        b
    }
}

/// How many leading `entries` the log already holds after its first `prev`
/// entries, judged by their terms.
pub open spec fn shared_len(log: Seq<LogEntry>, prev: int, entries: Seq<LogEntry>) -> nat
    decreases entries.len(),
{
    if entries.len() > 0 && 0 <= prev < log.len() && log[prev].term == entries[0].term {
        1 + shared_len(log, prev + 1, entries.drop_first())
    } else {
        0
    }
}

/// The log after receiving `entries` behind its first `prev` entries: what it
/// holds already stays, and everything from the first entry that is missing or
/// of another term is replaced.
pub open spec fn merged(log: Seq<LogEntry>, prev: int, entries: Seq<LogEntry>) -> Seq<LogEntry> {
    let shared = shared_len(log, prev, entries);
    if shared == entries.len() {
        log
    } else {
        log.take(prev + shared) + entries.skip(shared as int)
    }
}

impl<D> NodeState<D> {
    /// What every operation keeps.
    pub open spec fn wf(self) -> bool {
        &&& self.peers.len() < usize::MAX
        &&& self.log.len() <= usize::MAX
        &&& self.can_apply()
        &&& self.role == Role::Candidate ==> self.votes_granted < self.majority()
            || self.votes_granted == 1
        &&& forall|peer: NodeId| #[trigger]
            self.next_index.contains_key(peer) ==> self.next_index[peer] >= 1
    }

    /// Every committed entry that is still to be applied is in the log.
    pub open spec fn can_apply(self) -> bool {
        self.last_applied < self.commit_index ==> self.commit_index <= self.log.len()
    }

    /// The number of nodes that make a majority of the cluster.
    pub open spec fn majority(self) -> nat {
        (self.peers.len() + 1) / 2 + 1
    }

    pub open spec fn last_log_index(self) -> LogIndex {
        self.log.len() as LogIndex
    }

    pub open spec fn last_log_term(self) -> Term {
        if self.log.len() == 0 {
            0
        } else {
            self.log.last().term
        }
    }

    /// The term of the entry at a one-based index; zero stands before the log.
    pub open spec fn term_at(self, index: LogIndex) -> Option<Term> {
        if index == 0 {
            Some(0)
        } else if index <= self.log.len() {
            Some(self.log[index - 1].term)
        } else {
            None
        }
    }

    /// Whether the entry that opened the leader's term is committed.
    pub open spec fn can_serve_reads(self) -> bool {
        self.commit_index >= self.term_start_index
    }

    /// The next state of the linear congruential generator behind the timeouts.
    pub open spec fn next_random(self) -> u64 {
        self.rng_state.wrapping_mul(6364136223846793005).wrapping_add(1)
    }

    /// A fresh election timeout, counted from `now_ms`.
    pub open spec fn timer_reset(self, now_ms: u64) -> NodeState<D> {
        NodeState {
            rng_state: self.next_random(),
            election_deadline: (now_ms + ELECTION_MIN_MS + self.next_random()
                % ELECTION_SPAN_MS) as u64,
            ..self
        }
    }

    /// A follower of `term` that has not voted in it.
    pub open spec fn stepped_down(self, term: Term, now_ms: u64) -> NodeState<D> {
        NodeState {
            role: Role::Follower,
            current_term: term,
            voted_for: None,
            votes_granted: 0,
            ..self
        }.timer_reset(now_ms)
    }

    /// A candidate of the following term that has voted for itself.
    pub open spec fn campaigning(self, now_ms: u64) -> NodeState<D> {
        NodeState {
            role: Role::Candidate,
            current_term: (self.current_term + 1) as Term,
            voted_for: Some(self.id),
            leader_id: None,
            votes_granted: 1,
            ..self
        }.timer_reset(now_ms)
    }

    /// The request for votes that a candidate sends.
    pub open spec fn vote_request(self) -> RequestVote {
        RequestVote {
            term: self.current_term,
            candidate_id: self.id,
            last_log_index: self.last_log_index(),
            last_log_term: self.last_log_term(),
        }
    }

    /// One vote request for each peer, in the order of the peers.
    pub open spec fn vote_requests(self) -> Seq<MessageView> {
        Seq::new(
            self.peers.len(),
            |i: int|
                MessageView {
                    from: self.id,
                    to: self.peers[i],
                    rpc: RpcView::RequestVote(self.vote_request()),
                },
        )
    }

    /// The index of the next entry to send to a peer.
    pub open spec fn next_for(self, peer: NodeId) -> LogIndex {
        if self.next_index.contains_key(peer) {
            self.next_index[peer]
        } else {
            self.last_log_index().saturating_add(1)
        }
    }

    /// The replication request for a peer: everything the log holds from the
    /// peer's next entry on.
    pub open spec fn append_for(self, peer: NodeId) -> MessageView {
        let prev = self.next_for(peer).saturating_sub(1);
        MessageView {
            from: self.id,
            to: peer,
            rpc: RpcView::AppendEntries(
                AppendEntriesView {
                    term: self.current_term,
                    leader_id: self.id,
                    prev_log_index: prev,
                    prev_log_term: match self.term_at(prev) {
                        Some(term) => term,
                        None => 0,
                    },
                    entries: if prev <= self.log.len() {
                        self.log.skip(prev as int)
                    } else {
                        Seq::empty()
                    },
                    leader_commit: self.commit_index,
                },
            ),
        }
    }

    /// One replication request for each peer, in the order of the peers.
    pub open spec fn appends(self) -> Seq<MessageView> {
        Seq::new(self.peers.len(), |i: int| self.append_for(self.peers[i]))
    }

    /// The leader of the current term, with the entry that opens the term.
    pub open spec fn leading(self, now_ms: u64) -> NodeState<D> {
        let log = self.log.push(LogEntry { term: self.current_term, command: Command::Noop });
        let last = log.len() as LogIndex;
        NodeState {
            role: Role::Leader,
            leader_id: Some(self.id),
            last_heartbeat_at: now_ms,
            log,
            term_start_index: last,
            next_index: Map::new(
                |peer: NodeId| self.peers.contains(peer),
                |peer: NodeId| last.saturating_add(1),
            ),
            match_index: Map::new(
                |peer: NodeId| self.peers.contains(peer),
                |peer: NodeId| 0usize,
            ).insert(self.id, last),
            ..self
        }
    }

    /// Whether a tick at `now_ms` starts an election.
    pub open spec fn campaigns(self, now_ms: u64) -> bool {
        self.role != Role::Leader && now_ms >= self.election_deadline
    }

    /// Whether a tick at `now_ms` sends heartbeats.
    pub open spec fn beats(self, now_ms: u64) -> bool {
        self.role == Role::Leader && now_ms - self.last_heartbeat_at >= HEARTBEAT_MS
    }

    /// A tick: a leader that is due beats, anyone else whose deadline has
    /// passed campaigns.
    pub open spec fn tick(self, now_ms: u64) -> (NodeState<D>, Seq<MessageView>) {
        if self.beats(now_ms) {
            let next = NodeState { last_heartbeat_at: now_ms, ..self };
            (next, next.appends())
        } else if self.campaigns(now_ms) {
            let next = self.campaigning(now_ms);
            (next, next.vote_requests())
        } else {
            (self, Seq::empty())
        }
    }

    /// Whether a candidate's log, described by its last entry, is at least as
    /// up to date as this one.
    pub open spec fn up_to_date(self, request: RequestVote) -> bool {
        ||| request.last_log_term > self.last_log_term()
        ||| request.last_log_term == self.last_log_term() && request.last_log_index
            >= self.last_log_index()
    }

    /// Following the term of a request that is ahead.
    pub open spec fn caught_up(self, term: Term, now_ms: u64) -> NodeState<D> {
        if term > self.current_term {
            self.stepped_down(term, now_ms)
        } else {
            self
        }
    }

    /// Whether a vote request is granted.
    pub open spec fn grants(self, request: RequestVote, now_ms: u64) -> bool {
        let voter = self.caught_up(request.term, now_ms);
        &&& request.term >= self.current_term
        &&& voter.voted_for is None || voter.voted_for == Some(request.candidate_id)
        &&& voter.up_to_date(request)
    }

    /// The answer to a vote request.
    pub open spec fn on_request_vote(self, request: RequestVote, now_ms: u64) -> (
        NodeState<D>,
        RequestVoteReply,
    ) {
        let voter = self.caught_up(request.term, now_ms);
        let next = if self.grants(request, now_ms) {
            NodeState { voted_for: Some(request.candidate_id), ..voter }.timer_reset(now_ms)
        } else {
            voter
        };
        (
            next,
            RequestVoteReply {
                term: next.current_term,
                vote_granted: self.grants(request, now_ms),
            },
        )
    }

    /// Whether a vote reply counts in the current election.
    pub open spec fn counts(self, reply: RequestVoteReply) -> bool {
        self.role == Role::Candidate && reply.term == self.current_term && reply.vote_granted
    }

    /// The effect of a vote reply: a newer term ends the candidacy, and the
    /// vote that completes a majority makes a leader.
    pub open spec fn on_vote_reply(self, reply: RequestVoteReply, now_ms: u64) -> (
        NodeState<D>,
        Seq<MessageView>,
    ) {
        if reply.term > self.current_term {
            (self.stepped_down(reply.term, now_ms), Seq::empty())
        } else if self.counts(reply) {
            let counted = NodeState { votes_granted: (self.votes_granted + 1) as usize, ..self };
            if counted.votes_granted >= self.majority() {
                let next = counted.leading(now_ms);
                (next, next.appends())
            } else {
                (counted, Seq::empty())
            }
        } else {
            (self, Seq::empty())
        }
    }

    /// The follower that a current replication request makes of the node.
    pub open spec fn following(self, request: AppendEntriesView, now_ms: u64) -> NodeState<D> {
        let follower = if request.term > self.current_term || self.role != Role::Follower {
            self.stepped_down(request.term, now_ms)
        } else {
            self
        };
        NodeState { leader_id: Some(request.leader_id), ..follower }.timer_reset(now_ms)
    }

    /// Whether the log holds the entry that a replication request builds on.
    pub open spec fn matches_prev(self, request: AppendEntriesView) -> bool {
        self.term_at(request.prev_log_index) == Some(request.prev_log_term)
    }

    /// Whether a replication request is taken into the log.
    pub open spec fn accepts(self, request: AppendEntriesView) -> bool {
        request.term >= self.current_term && self.matches_prev(request)
    }

    /// The answer to a replication request, before committed entries are
    /// applied.
    pub open spec fn on_append_entries(self, request: AppendEntriesView, now_ms: u64) -> (
        NodeState<D>,
        AppendEntriesReply,
    ) {
        if request.term < self.current_term {
            (
                self,
                AppendEntriesReply {
                    term: self.current_term,
                    success: false,
                    match_index: self.last_log_index(),
                },
            )
        } else if !self.matches_prev(request) {
            (
                self.following(request, now_ms),
                AppendEntriesReply {
                    term: request.term,
                    success: false,
                    match_index: self.last_log_index(),
                },
            )
        } else {
            let log = merged(self.log, request.prev_log_index as int, request.entries);
            let next = NodeState {
                log,
                commit_index: if request.leader_commit > self.commit_index {
                    least(request.leader_commit, log.len() as LogIndex)
                } else {
                    self.commit_index
                },
                ..self.following(request, now_ms)
            };
            (
                next,
                AppendEntriesReply {
                    term: request.term,
                    success: true,
                    match_index: (request.prev_log_index + request.entries.len()) as LogIndex,
                },
            )
        }
    }

    /// The nodes known to hold the log up to `index`.
    pub open spec fn holders(self, index: int) -> Set<NodeId> {
        self.match_index.dom().filter(|id: NodeId| self.match_index[id] >= index)
    }

    /// Whether the leader may commit up to `index`: the entry there is of the
    /// current term and a majority holds it.
    pub open spec fn committable(self, index: int) -> bool {
        &&& 1 <= index <= self.log.len()
        &&& self.log[index - 1].term == self.current_term
        &&& self.holders(index).len() >= self.majority()
    }

    /// The greatest committable index above the commit index and not above
    /// `bound`, or else the commit index.
    pub open spec fn commit_up_to(self, bound: int) -> LogIndex
        decreases bound - self.commit_index,
    {
        if bound <= self.commit_index {
            self.commit_index
        } else if self.committable(bound) {
            bound as LogIndex
        } else {
            self.commit_up_to(bound - 1)
        }
    }

    /// The leader after committing all that may be committed.
    pub open spec fn committed(self) -> NodeState<D> {
        NodeState { commit_index: self.commit_up_to(self.log.len() as int), ..self }
    }

    /// Whether a replication reply belongs to the leader's current term.
    pub open spec fn heeds(self, reply: AppendEntriesReply) -> bool {
        self.role == Role::Leader && reply.term == self.current_term
    }

    /// The effect of a replication reply, before committed entries are
    /// applied: success moves the follower's marks and may commit; refusal
    /// steps the follower's next entry back by one and tries again.
    pub open spec fn on_append_reply(self, from: NodeId, reply: AppendEntriesReply) -> (
        NodeState<D>,
        Seq<MessageView>,
    ) {
        if reply.term > self.current_term {
            (self.stepped_down(reply.term, 0), Seq::empty())
        } else if !self.heeds(reply) {
            (self, Seq::empty())
        } else if reply.success {
            let marked = NodeState {
                match_index: self.match_index.insert(from, reply.match_index),
                next_index: self.next_index.insert(from, reply.match_index.saturating_add(1)),
                ..self
            };
            (marked.committed(), Seq::empty())
        } else {
            let back = self.next_for(from).saturating_sub(1);
            let next = NodeState {
                next_index: self.next_index.insert(
                    from,
                    if back >= 1 {
                        back
                    } else {
                        1
                    },
                ),
                ..self
            };
            (next, seq![next.append_for(from)])
        }
    }

    /// The effect of a peer's message, before committed entries are applied.
    pub open spec fn on_message(self, from: NodeId, rpc: RpcView, now_ms: u64) -> (
        NodeState<D>,
        Seq<MessageView>,
    ) {
        match rpc {
            RpcView::RequestVote(request) => {
                let (next, reply) = self.on_request_vote(request, now_ms);
                (
                    next,
                    seq![
                        MessageView {
                            from: self.id,
                            to: from,
                            rpc: RpcView::RequestVoteReply(reply),
                        },
                    ],
                )
            },
            RpcView::RequestVoteReply(reply) => self.on_vote_reply(reply, now_ms),
            RpcView::AppendEntries(request) => {
                let (next, reply) = self.on_append_entries(request, now_ms);
                (
                    next,
                    seq![
                        MessageView {
                            from: self.id,
                            to: from,
                            rpc: RpcView::AppendEntriesReply(reply),
                        },
                    ],
                )
            },
            RpcView::AppendEntriesReply(reply) => self.on_append_reply(from, reply),
        }
    }

    /// Whether a peer's message ends with applying what is committed.
    pub open spec fn applies_after(self, rpc: RpcView) -> bool {
        match rpc {
            RpcView::AppendEntries(request) => self.accepts(request),
            RpcView::AppendEntriesReply(reply) => reply.success && self.heeds(reply),
            _ => false,
        }
    }

    /// Whether a message leaves every committed entry that is still to be
    /// applied in the log.
    pub open spec fn tolerates(self, rpc: RpcView) -> bool {
        match rpc {
            RpcView::AppendEntries(request) => self.on_append_entries(request, 0).0.can_apply(),
            _ => true,
        }
    }

    /// The leader with one more entry of its term in the log.
    pub open spec fn proposed(self, command: Command) -> NodeState<D> {
        let log = self.log.push(LogEntry { term: self.current_term, command });
        NodeState {
            log,
            match_index: self.match_index.insert(self.id, log.len() as LogIndex),
            ..self
        }
    }

    /// Whether a write is committed and applied as it was proposed.
    pub open spec fn write_is_done(self, write: crate::node::PendingWrite) -> bool {
        self.commit_index >= write.index && self.last_applied >= write.index && self.term_at(
            write.index,
        ) == Some(write.term)
    }

    /// The answer to a request that this node does not serve.
    pub open spec fn refusal(self) -> ClientReplyView {
        ClientReplyView {
            success: false,
            leader_id: if self.role == Role::Leader {
                Some(self.id)
            } else {
                self.leader_id
            },
            response: None,
        }
    }
}

impl<S: StateMachine> NodeState<S> {
    /// Whether applying the committed entries one by one, up to the first that
    /// the machine refuses, may take a node from `self` to `post`.
    pub open spec fn settles(self, post: NodeState<S>) -> bool
        decreases self.commit_index - self.last_applied,
    {
        if self.last_applied >= self.commit_index {
            post == self
        } else {
            exists|data: S, outcome: Result<(), StateMachineError>|
                {
                    &&& #[trigger] S::applies(
                        self.data,
                        (self.last_applied + 1) as LogIndex,
                        self.log[self.last_applied as int].command,
                        data,
                        outcome,
                    )
                    &&& match outcome {
                        Err(_) => post == (NodeState { data, ..self }),
                        Ok(_) => NodeState {
                            data,
                            last_applied: (self.last_applied + 1) as LogIndex,
                            ..self
                        }.settles(post),
                    }
                }
        }
    }

    /// Whether a read of `key` may give `reply`.
    pub open spec fn may_answer(self, key: Seq<char>, leader: Option<NodeId>, reply: ClientReplyView)
        -> bool {
        exists|outcome: Result<Option<Seq<char>>, StateMachineError>|
            {
                &&& #[trigger] self.data.reads(key, outcome)
                &&& reply == match outcome {
                    Ok(value) => ClientReplyView {
                        success: true,
                        leader_id: leader,
                        response: value,
                    },
                    Err(_) => ClientReplyView { success: false, leader_id: leader, response: None },
                }
            }
    }
}

impl NodeState<KvState> {
    /// The node after applying its committed entries to a key-value machine.
    pub open spec fn settled(self) -> NodeState<KvState>
        decreases self.commit_index - self.last_applied,
    {
        if self.last_applied >= self.commit_index {
            self
        } else {
            let (data, outcome) = self.data.apply(
                (self.last_applied + 1) as LogIndex,
                self.log[self.last_applied as int].command,
            );
            match outcome {
                Err(_) => NodeState { data, ..self },
                Ok(_) => NodeState {
                    data,
                    last_applied: (self.last_applied + 1) as LogIndex,
                    ..self
                }.settled(),
            }
        }
    }

    /// The answer to a client over a key-value machine, and the messages to
    /// send.
    pub open spec fn served(self, request: ClientRequest) -> (
        NodeState<KvState>,
        ClientReplyView,
        Seq<MessageView>,
    ) {
        match request {
            ClientRequest::Put { key, value } => self.written(Command::Put { key, value }),
            ClientRequest::Delete { key } => self.written(Command::Delete { key }),
            ClientRequest::Get { key } => if self.role == Role::Leader && self.can_serve_reads() {
                (self, self.answer(key@, Some(self.id)), Seq::empty())
            } else {
                (self, self.refusal(), Seq::empty())
            },
            ClientRequest::LocalGet { key } => (
                self,
                self.answer(key@, self.leader_id),
                Seq::empty(),
            ),
        }
    }

    /// The answer to a write.
    pub open spec fn written(self, command: Command) -> (
        NodeState<KvState>,
        ClientReplyView,
        Seq<MessageView>,
    ) {
        if self.role == Role::Leader {
            let next = self.proposed(command);
            (
                next,
                ClientReplyView {
                    success: true,
                    leader_id: Some(self.id),
                    response: Some("accepted"@),
                },
                next.appends(),
            )
        } else {
            (self, self.refusal(), Seq::empty())
        }
    }

    /// The answer to a read that is served.
    pub open spec fn answer(self, key: Seq<char>, leader: Option<NodeId>) -> ClientReplyView {
        ClientReplyView { success: true, leader_id: leader, response: self.data.lookup(key) }
    }

    /// The effect of a peer's message on a node over a key-value machine.
    pub open spec fn handled(self, from: NodeId, rpc: RpcView, now_ms: u64) -> (
        NodeState<KvState>,
        Seq<MessageView>,
    ) {
        let (next, sent) = self.on_message(from, rpc, now_ms);
        (
            if self.applies_after(rpc) {
                next.settled()
            } else {
                next
            },
            sent,
        )
    }
}

} // verus!
