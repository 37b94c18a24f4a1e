//! A Raft node: elections, replication and client requests, over any state
//! machine.
use crate::node_state::{
    NodeState, ELECTION_MAX_MS, ELECTION_MIN_MS, ELECTION_SPAN_MS, HEARTBEAT_MS,
};
use crate::state_machine::{KvState, MemoryStateMachine, StateMachine, StateMachineError};
use crate::types::{
    AppendEntries, AppendEntriesReply, ClientReply, ClientReplyView, ClientRequest, Command,
    LogEntry, LogIndex, Message, NodeId, RequestVote, RequestVoteReply, Role, Rpc, Term,
};
use std::collections::HashMap;
use vstd::prelude::*;

verus! {

broadcast use vstd::std_specs::hash::group_hash_axioms;

/// A write that the leader has put in its log.
#[derive(Clone, Copy, Debug, PartialEq, Eq)]
pub struct PendingWrite {
    pub index: LogIndex,
    pub term: Term,
}

/// A member of the cluster.
#[derive(Debug)]
pub struct Node<S: StateMachine = MemoryStateMachine> {
    id: NodeId,
    peers: Vec<NodeId>,
    role: Role,
    current_term: Term,
    voted_for: Option<NodeId>,
    log: Vec<LogEntry>,
    commit_index: LogIndex,
    last_applied: LogIndex,
    state_machine: S,
    leader_id: Option<NodeId>,
    election_deadline: u64,
    last_heartbeat_at: u64,
    rng_state: u64,
    votes_granted: usize,
    next_index: HashMap<NodeId, LogIndex>,
    match_index: HashMap<NodeId, LogIndex>,
    /// Index of the entry that opened the current term. Once it is committed the
    /// leader has proved that it still leads and can serve reads.
    term_start_index: LogIndex,
}

impl<S: StateMachine> View for Node<S> {
    type V = NodeState<S>;

    closed spec fn view(&self) -> NodeState<S> {
        NodeState {
            id: self.id,
            peers: self.peers@,
            role: self.role,
            current_term: self.current_term,
            voted_for: self.voted_for,
            log: self.log@,
            commit_index: self.commit_index,
            last_applied: self.last_applied,
            data: self.state_machine,
            leader_id: self.leader_id,
            election_deadline: self.election_deadline,
            last_heartbeat_at: self.last_heartbeat_at,
            rng_state: self.rng_state,
            votes_granted: self.votes_granted,
            next_index: self.next_index@,
            match_index: self.match_index@,
            term_start_index: self.term_start_index,
        }
    }
}

/// A node that has just joined, over a machine that has applied `applied`
/// entries.
pub open spec fn fresh<S: StateMachine>(id: NodeId, peers: Seq<NodeId>, data: S) -> NodeState<S> {
    NodeState {
        id,
        peers,
        role: Role::Follower,
        current_term: 0,
        voted_for: None,
        log: Seq::empty(),
        commit_index: 0,
        last_applied: data.applied(),
        data,
        leader_id: None,
        election_deadline: 0,
        last_heartbeat_at: 0,
        rng_state: ((id + 1) as u64).wrapping_mul(0x9e37_79b9_7f4a_7c15),
        votes_granted: 0,
        next_index: Map::empty(),
        match_index: Map::empty(),
        term_start_index: 0,
    }.timer_reset(0)
}

/// A node with its durable state restored, before committed entries are
/// applied.
pub open spec fn restored<S: StateMachine>(
    id: NodeId,
    peers: Seq<NodeId>,
    current_term: Term,
    voted_for: Option<NodeId>,
    log: Seq<LogEntry>,
    commit_index: LogIndex,
    data: S,
) -> NodeState<S> {
    NodeState {
        current_term,
        voted_for,
        log,
        commit_index: crate::node_state::least(commit_index, log.len() as LogIndex),
        ..fresh(id, peers, data)
    }
}

impl Node<MemoryStateMachine> {
    /// The node's state with its machine described by its content.
    pub open spec fn kv(self) -> NodeState<KvState> {
        kv_state(self@)
    }

    pub fn new(id: NodeId, peers: Vec<NodeId>) -> (node: Self)
        requires
            id < u64::MAX,
            peers@.len() < usize::MAX,
        ensures
            node@.wf(),
            node.kv() == fresh_kv(id, peers@),
    {
        Self::new_with_state_machine(id, peers, MemoryStateMachine::new())
    }

    pub fn from_parts(
        id: NodeId,
        peers: Vec<NodeId>,
        current_term: Term,
        voted_for: Option<NodeId>,
        log: Vec<LogEntry>,
        commit_index: LogIndex,
    ) -> (node: Self)
        requires
            id < u64::MAX,
            peers@.len() < usize::MAX,
        ensures
            node@.wf(),
            node.kv() == (NodeState {
                current_term,
                voted_for,
                log: log@,
                commit_index: crate::node_state::least(commit_index, log@.len() as LogIndex),
                ..fresh_kv(id, peers@)
            }.settled()),
    {
        let machine = MemoryStateMachine::new();
        let ghost start = restored(
            id,
            peers@,
            current_term,
            voted_for,
            log@,
            commit_index,
            machine,
        );
        let node = Self::from_parts_with_state_machine(
            id,
            peers,
            current_term,
            voted_for,
            log,
            commit_index,
            machine,
        );
        proof {
            settles_as_settled(start, node@);
        }
        node
    }
}

/// A node's state with its in-memory machine described by its content.
pub open spec fn kv_state(state: NodeState<MemoryStateMachine>) -> NodeState<KvState> {
    NodeState {
        id: state.id,
        peers: state.peers,
        role: state.role,
        current_term: state.current_term,
        voted_for: state.voted_for,
        log: state.log,
        commit_index: state.commit_index,
        last_applied: state.last_applied,
        data: state.data@,
        leader_id: state.leader_id,
        election_deadline: state.election_deadline,
        last_heartbeat_at: state.last_heartbeat_at,
        rng_state: state.rng_state,
        votes_granted: state.votes_granted,
        next_index: state.next_index,
        match_index: state.match_index,
        term_start_index: state.term_start_index,
    }
}

/// A node that has just joined with an empty key-value machine.
pub open spec fn fresh_kv(id: NodeId, peers: Seq<NodeId>) -> NodeState<KvState> {
    NodeState {
        id,
        peers,
        role: Role::Follower,
        current_term: 0,
        voted_for: None,
        log: Seq::empty(),
        commit_index: 0,
        last_applied: 0,
        data: KvState::initial(),
        leader_id: None,
        election_deadline: 0,
        last_heartbeat_at: 0,
        rng_state: ((id + 1) as u64).wrapping_mul(0x9e37_79b9_7f4a_7c15),
        votes_granted: 0,
        next_index: Map::empty(),
        match_index: Map::empty(),
        term_start_index: 0,
    }.timer_reset(0)
}

/// Over the in-memory machine, applying the committed entries has one outcome.
pub proof fn settles_as_settled(
    pre: NodeState<MemoryStateMachine>,
    post: NodeState<MemoryStateMachine>,
)
    requires
        pre.settles(post),
    ensures
        kv_state(post) == kv_state(pre).settled(),
    decreases pre.commit_index - pre.last_applied,
{
    if pre.last_applied < pre.commit_index {
        let index = (pre.last_applied + 1) as LogIndex;
        let command = pre.log[pre.last_applied as int].command;
        let (data, outcome) = choose|data: MemoryStateMachine, outcome: Result<(), StateMachineError>|
            {
                &&& #[trigger] MemoryStateMachine::applies(pre.data, index, command, data, outcome)
                &&& match outcome {
                    Err(_) => post == (NodeState { data, ..pre }),
                    Ok(_) => NodeState { data, last_applied: index, ..pre }.settles(post),
                }
            };
        match outcome {
            Err(_) => {},
            Ok(_) => {
                settles_as_settled(NodeState { data, last_applied: index, ..pre }, post);
            },
        }
    }
}

/// Committing looks only at what a node and its content share.
proof fn commit_as_kv(state: NodeState<MemoryStateMachine>, bound: int)
    ensures
        state.commit_up_to(bound) == kv_state(state).commit_up_to(bound),
    decreases bound - state.commit_index,
{
    if bound > state.commit_index {
        assert(state.holders(bound) =~= kv_state(state).holders(bound));
        commit_as_kv(state, bound - 1);
    }
}

/// A tick does to the described node what it does to the node.
pub proof fn tick_as_kv(state: NodeState<MemoryStateMachine>, now_ms: u64)
    ensures
        kv_state(state.tick(now_ms).0) == kv_state(state).tick(now_ms).0,
        state.tick(now_ms).1 == kv_state(state).tick(now_ms).1,
{
    let kv = kv_state(state);
    let beat = NodeState { last_heartbeat_at: now_ms, ..state };
    let kv_beat = NodeState { last_heartbeat_at: now_ms, ..kv };
    assert(beat.appends() =~= kv_beat.appends());
    assert(state.campaigning(now_ms).vote_requests() =~= kv.campaigning(now_ms).vote_requests());
}

/// A peer's message does to the described node what it does to the node.
pub proof fn message_as_kv(
    pre: NodeState<MemoryStateMachine>,
    from: NodeId,
    rpc: crate::types::RpcView,
    now_ms: u64,
    post: NodeState<MemoryStateMachine>,
)
    requires
        if pre.applies_after(rpc) {
            pre.on_message(from, rpc, now_ms).0.settles(post)
        } else {
            post == pre.on_message(from, rpc, now_ms).0
        },
    ensures
        kv_state(post) == kv_state(pre).handled(from, rpc, now_ms).0,
        pre.on_message(from, rpc, now_ms).1 == kv_state(pre).handled(from, rpc, now_ms).1,
{
    let kv = kv_state(pre);
    let next = pre.on_message(from, rpc, now_ms).0;
    let kv_next = kv.on_message(from, rpc, now_ms).0;
    assert(kv_state(next) == kv_next && pre.on_message(from, rpc, now_ms).1 == kv.on_message(
        from,
        rpc,
        now_ms,
    ).1) by {
        match rpc {
            crate::types::RpcView::RequestVoteReply(reply) => {
                let counted = NodeState {
                    votes_granted: (pre.votes_granted + 1) as usize,
                    ..pre
                };
                let kv_counted = NodeState {
                    votes_granted: (kv.votes_granted + 1) as usize,
                    ..kv
                };
                assert(kv_state(counted.leading(now_ms)) =~= kv_counted.leading(now_ms));
                assert(counted.leading(now_ms).appends() =~= kv_counted.leading(now_ms).appends());
            },
            crate::types::RpcView::AppendEntriesReply(reply) => {
                let marked = NodeState {
                    match_index: pre.match_index.insert(from, reply.match_index),
                    next_index: pre.next_index.insert(from, reply.match_index.saturating_add(1)),
                    ..pre
                };
                commit_as_kv(marked, marked.log.len() as int);
            },
            _ => {},
        }
    }
    if pre.applies_after(rpc) {
        settles_as_settled(next, post);
    }
}

/// A client's request does to the described node what it does to the node.
pub proof fn request_as_kv(
    pre: NodeState<MemoryStateMachine>,
    request: ClientRequest,
    post: NodeState<MemoryStateMachine>,
    reply: ClientReplyView,
    sent: Seq<crate::types::MessageView>,
)
    requires
        serves(pre, request, post, reply, sent),
    ensures
        (kv_state(post), reply, sent) == kv_state(pre).served(request),
{
    match command_of(request) {
        Some(command) => {
            assert(pre.proposed(command).appends() =~= kv_state(pre).proposed(command).appends());
        },
        None => {},
    }
}

impl<S: StateMachine> Node<S> {
    pub fn new_with_state_machine(id: NodeId, peers: Vec<NodeId>, state_machine: S) -> (node: Self)
        requires
            id < u64::MAX,
            peers@.len() < usize::MAX,
        ensures
            node@.wf(),
            node@ == fresh(id, peers@, state_machine),
    {
        let mut node = Self {
            id,
            peers,
            role: Role::Follower,
            current_term: 0,
            voted_for: None,
            log: Vec::new(),
            commit_index: 0,
            last_applied: state_machine.last_applied(),
            state_machine,
            leader_id: None,
            election_deadline: 0,
            last_heartbeat_at: 0,
            rng_state: (id as u64 + 1).wrapping_mul(0x9e37_79b9_7f4a_7c15),
            votes_granted: 0,
            next_index: HashMap::new(),
            match_index: HashMap::new(),
            term_start_index: 0,
        };
        node.reset_election_timer(0);
        node
    }

    pub fn from_parts_with_state_machine(
        id: NodeId,
        peers: Vec<NodeId>,
        current_term: Term,
        voted_for: Option<NodeId>,
        log: Vec<LogEntry>,
        commit_index: LogIndex,
        state_machine: S,
    ) -> (node: Self)
        requires
            id < u64::MAX,
            peers@.len() < usize::MAX,
        ensures
            node@.wf(),
            restored(
                id,
                peers@,
                current_term,
                voted_for,
                log@,
                commit_index,
                state_machine,
            ).settles(node@),
    {
        let mut node = Self::new_with_state_machine(id, peers, state_machine);
        node.current_term = current_term;
        node.voted_for = voted_for;
        node.log = log;
        node.commit_index = if commit_index <= node.log.len() {
            commit_index
        } else {
            node.log.len()
        };
        let _ = node.apply_committed();
        node
    }

    pub fn id(&self) -> (id: NodeId)
        ensures
            id == self@.id,
    {
        self.id
    }

    pub fn leader_id(&self) -> (leader: Option<NodeId>)
        ensures
            leader == self@.leader_id,
    {
        self.leader_id
    }

    pub fn role(&self) -> (role: Role)
        ensures
            role == self@.role,
    {
        self.role
    }

    pub fn current_term(&self) -> (term: Term)
        ensures
            term == self@.current_term,
    {
        self.current_term
    }

    pub fn voted_for(&self) -> (candidate: Option<NodeId>)
        ensures
            candidate == self@.voted_for,
    {
        self.voted_for
    }

    pub fn log(&self) -> (log: &[LogEntry])
        ensures
            log@ == self@.log,
    {
        self.log.as_slice()
    }

    pub fn commit_index(&self) -> (index: LogIndex)
        ensures
            index == self@.commit_index,
    {
        self.commit_index
    }

    pub fn last_applied(&self) -> (index: LogIndex)
        ensures
            index == self@.last_applied,
    {
        self.last_applied
    }

    pub fn can_serve_reads(&self) -> (ready: bool)
        ensures
            ready == self@.can_serve_reads(),
    {
        self.commit_index >= self.term_start_index
    }

    /// The value under a key in the node's own applied state; a read that the
    /// machine fails gives nothing.
    pub fn get(&self, key: &str) -> (value: Option<String>)
        ensures
            exists|outcome: Result<Option<Seq<char>>, StateMachineError>|
                {
                    &&& #[trigger] self@.data.reads(key@, outcome)
                    &&& text_of(value) == match outcome {
                        Ok(found) => found,
                        Err(_) => None,
                    }
                },
    {
        let outcome = self.state_machine.get(key);
        assert(self@.data.reads(key@, crate::state_machine::read_outcome(outcome)));
        match outcome {
            Ok(value) => value,
            Err(_) => None,
        }
    }

    pub fn peers(&self) -> (peers: &[NodeId])
        ensures
            peers@ == self@.peers,
    {
        self.peers.as_slice()
    }

    pub fn state_machine(&self) -> (machine: &S)
        ensures
            *machine == self@.data,
    {
        &self.state_machine
    }

    /// Whether a tick at `now_ms` starts an election.
    pub fn campaigns(&self, now_ms: u64) -> (campaigns: bool)
        ensures
            campaigns == self@.campaigns(now_ms),
    {
        self.role != Role::Leader && now_ms >= self.election_deadline
    }

    /// Lets time pass. A leader that is due sends heartbeats; any other node
    /// whose election deadline has passed campaigns.
    pub fn tick(&mut self, now_ms: u64) -> (messages: Vec<Message>)
        requires
            old(self)@.wf(),
            now_ms <= u64::MAX - ELECTION_MAX_MS,
            old(self)@.campaigns(now_ms) ==> old(self)@.current_term < u64::MAX,
        ensures
            final(self)@.wf(),
            (final(self)@, messages.deep_view()) == old(self)@.tick(now_ms),
    {
        match self.role {
            Role::Leader => {
                if now_ms.saturating_sub(self.last_heartbeat_at) >= HEARTBEAT_MS {
                    self.last_heartbeat_at = now_ms;
                    self.appends_for_peers()
                } else {
                    let none: Vec<Message> = Vec::new();
                    assert(none.deep_view() =~= Seq::empty());
                    none
                }
            },
            _ => {
                if now_ms >= self.election_deadline {
                    self.start_election(now_ms)
                } else {
                    let none: Vec<Message> = Vec::new();
                    assert(none.deep_view() =~= Seq::empty());
                    none
                }
            },
        }
    }

    /// Whether handling a peer's message leaves every committed entry that is
    /// still to be applied in the log. A message that does not must not be
    /// handed to [`Node::handle_message`].
    pub fn tolerates(&self, rpc: &Rpc) -> (tolerated: bool)
        requires
            self@.wf(),
        ensures
            tolerated == self@.tolerates(rpc@),
    {
        match rpc {
            Rpc::AppendEntries(request) => {
                if request.term < self.current_term || self.term_at(request.prev_log_index) != Some(
                    request.prev_log_term,
                ) {
                    return true;
                }
                let prev: usize = request.prev_log_index;
                let shared: usize = self.shared_entries(prev, &request.entries);
                if shared == request.entries.len() || request.leader_commit > self.commit_index {
                    proof {
                        if request.leader_commit > self.commit_index && shared
                            < request.entries@.len() {
                            shared_len_bound(self.log@, prev as int, request.entries@);
                        }
                    }
                    true
                } else {
                    proof {
                        shared_len_bound(self.log@, prev as int, request.entries@);
                    }
                    self.last_applied >= self.commit_index || self.commit_index <= prev || {
                        request.entries.len() >= self.commit_index - prev
                    }
                }
            },
            _ => true,
        }
    }

    /// Handles a peer's message and gives the messages to send in return.
    pub fn handle_message(&mut self, from: NodeId, rpc: Rpc, now_ms: u64) -> (messages: Vec<
        Message,
    >)
        requires
            old(self)@.wf(),
            now_ms <= u64::MAX - ELECTION_MAX_MS,
            old(self)@.tolerates(rpc@),
        ensures
            final(self)@.wf(),
            handles(old(self)@, from, rpc@, now_ms, final(self)@, messages.deep_view()),
    {
        let id: NodeId = self.id;
        match rpc {
            Rpc::RequestVote(request) => {
                let reply = self.handle_request_vote(request, now_ms);
                let mut messages: Vec<Message> = Vec::new();
                messages.push(Message { from: id, to: from, rpc: Rpc::RequestVoteReply(reply) });
                assert(messages.deep_view() =~= old(self)@.on_message(from, rpc@, now_ms).1);
                messages
            },
            Rpc::RequestVoteReply(reply) => self.handle_request_vote_reply(from, reply, now_ms),
            Rpc::AppendEntries(request) => {
                let reply = self.handle_append_entries(request, now_ms);
                let mut messages: Vec<Message> = Vec::new();
                messages.push(Message { from: id, to: from, rpc: Rpc::AppendEntriesReply(reply) });
                assert(messages.deep_view() =~= old(self)@.on_message(from, rpc@, now_ms).1);
                messages
            },
            Rpc::AppendEntriesReply(reply) => self.handle_append_entries_reply(from, reply),
        }
    }

    /// Serves a client. Writes go into the leader's log and out to the peers;
    /// reads are served by a leader that has committed an entry of its term, or
    /// from the node's own state where the client asks for that.
    pub fn handle_client_request(&mut self, request: ClientRequest) -> (outcome: (
        ClientReply,
        Vec<Message>,
    ))
        requires
            old(self)@.wf(),
        ensures
            final(self)@.wf(),
            serves(old(self)@, request, final(self)@, outcome.0@, outcome.1.deep_view()),
    {
        let none: Vec<Message> = Vec::new();
        assert(none.deep_view() =~= Seq::empty());
        match request {
            ClientRequest::LocalGet { key } => {
                (self.answer_read(key.as_str(), self.leader_id), none)
            },
            ClientRequest::Get { key } => {
                if !matches!(self.role, Role::Leader) || !self.can_serve_reads() {
                    (self.refuse(), none)
                } else {
                    (self.answer_read(key.as_str(), Some(self.id)), none)
                }
            },
            ClientRequest::Put { key, value } => self.accept_write(Command::Put { key, value }),
            ClientRequest::Delete { key } => self.accept_write(Command::Delete { key }),
        }
    }

    fn refuse(&self) -> (reply: ClientReply)
        ensures
            reply@ == self@.refusal(),
    {
        ClientReply {
            success: false,
            leader_id: match self.role {
                Role::Leader => Some(self.id),
                _ => self.leader_id,
            },
            response: None,
        }
    }

    fn answer_read(&self, key: &str, leader: Option<NodeId>) -> (reply: ClientReply)
        ensures
            self@.may_answer(key@, leader, reply@),
    {
        let outcome = self.state_machine.get(key);
        assert(self@.data.reads(key@, crate::state_machine::read_outcome(outcome)));
        match outcome {
            Ok(value) => ClientReply { success: true, leader_id: leader, response: value },
            Err(_) => ClientReply { success: false, leader_id: leader, response: None },
        }
    }

    fn accept_write(&mut self, command: Command) -> (outcome: (ClientReply, Vec<Message>))
        requires
            old(self)@.wf(),
        ensures
            final(self)@.wf(),
            writes(old(self)@, command, final(self)@, outcome.0@, outcome.1.deep_view()),
    {
        if !matches!(self.role, Role::Leader) {
            let none: Vec<Message> = Vec::new();
            assert(none.deep_view() =~= Seq::empty());
            return (self.refuse(), none);
        }
        let messages = self.propose(command);
        (
            ClientReply {
                success: true,
                leader_id: Some(self.id),
                response: Some("accepted".to_string()),
            },
            messages,
        )
    }

    /// Puts a command in the leader's log and sends it out.
    fn propose(&mut self, command: Command) -> (messages: Vec<Message>)
        requires
            old(self)@.wf(),
            old(self)@.role == Role::Leader,
        ensures
            final(self)@.wf(),
            final(self)@ == old(self)@.proposed(command),
            messages.deep_view() == final(self)@.appends(),
    {
        self.log.push(LogEntry { term: self.current_term, command });
        let last: LogIndex = self.last_log_index();
        self.match_index.insert(self.id, last);
        self.appends_for_peers()
    }

    /// Starts a client's write: on the leader it gives the place of the new
    /// entry and the messages to send; any other node, and any read, gets a
    /// refusal.
    pub fn start_client_write(&mut self, request: ClientRequest) -> (outcome: Result<
        (PendingWrite, Vec<Message>),
        ClientReply,
    >)
        requires
            old(self)@.wf(),
        ensures
            final(self)@.wf(),
            begins_write(
                old(self)@,
                request,
                final(self)@,
                match outcome {
                    Ok((write, messages)) => Ok((write, messages.deep_view())),
                    Err(reply) => Err(reply@),
                },
            ),
    {
        if !matches!(self.role, Role::Leader) {
            return Err(self.refuse());
        }
        let command = match request {
            ClientRequest::Put { key, value } => Command::Put { key, value },
            ClientRequest::Delete { key } => Command::Delete { key },
            _ => {
                return Err(self.refuse());
            },
        };
        let messages = self.propose(command);
        Ok((PendingWrite { index: self.last_log_index(), term: self.current_term }, messages))
    }

    /// Whether a write has been committed and applied as it was proposed.
    pub fn write_committed_and_applied(&self, write: PendingWrite) -> (done: bool)
        ensures
            done == self@.write_is_done(write),
    {
        self.commit_index >= write.index && self.last_applied >= write.index && self.term_at(
            write.index,
        ) == Some(write.term)
    }

    /// The name of the node's role.
    pub fn role_label(&self) -> (label: &'static str)
        ensures
            label@ == role_name(self@.role),
    {
        match self.role {
            Role::Follower => "follower",
            Role::Candidate => "candidate",
            Role::Leader => "leader",
        }
    }

    /// How many committed entries each peer is not known to hold, in the order
    /// of the peers; only a leader knows.
    pub fn replication_lag_by_peer(&self) -> (lags: Vec<(NodeId, usize)>)
        ensures
            self@.role != Role::Leader ==> lags@.len() == 0,
            self@.role == Role::Leader ==> {
                &&& lags@.len() == self@.peers.len()
                &&& forall|i: int|
                    0 <= i < lags@.len() ==> #[trigger] lags@[i] == (
                        self@.peers[i],
                        lag_of(self@, self@.peers[i]),
                    )
            },
    {
        let mut lags: Vec<(NodeId, usize)> = Vec::new();
        if matches!(self.role, Role::Leader) {
            let mut i: usize = 0;
            while i < self.peers.len()
                invariant
                    i <= self@.peers.len(),
                    lags@.len() == i,
                    forall|j: int|
                        0 <= j < i ==> #[trigger] lags@[j] == (
                            self@.peers[j],
                            lag_of(self@, self@.peers[j]),
                        ),
                decreases self@.peers.len() - i,
            {
                let peer: NodeId = self.peers[i];
                let matched: LogIndex = match self.match_index.get(&peer) {
                    Some(matched) => *matched,
                    None => 0,
                };
                lags.push((peer, self.commit_index.saturating_sub(matched)));
                i = i + 1;
            }
        }
        lags
    }

    fn appends_for_peers(&self) -> (messages: Vec<Message>)
        requires
            self@.wf(),
        ensures
            messages.deep_view() == self@.appends(),
    {
        let mut messages: Vec<Message> = Vec::new();
        let mut i: usize = 0;
        while i < self.peers.len()
            invariant
                self@.wf(),
                i <= self@.peers.len(),
                messages@.len() == i,
                forall|j: int| 0 <= j < i ==> (#[trigger] messages@[j])@ == self@.append_for(
                    self@.peers[j],
                ),
            decreases self@.peers.len() - i,
        {
            messages.push(self.append_entries_for(self.peers[i]));
            i = i + 1;
        }
        assert(messages.deep_view() =~= self@.appends());
        messages
    }

    fn start_election(&mut self, now_ms: u64) -> (messages: Vec<Message>)
        requires
            old(self)@.wf(),
            now_ms <= u64::MAX - ELECTION_MAX_MS,
            old(self)@.current_term < u64::MAX,
        ensures
            final(self)@.wf(),
            final(self)@ == old(self)@.campaigning(now_ms),
            messages.deep_view() == final(self)@.vote_requests(),
    {
        self.role = Role::Candidate;
        self.current_term = self.current_term + 1;
        self.voted_for = Some(self.id);
        self.leader_id = None;
        self.votes_granted = 1;
        self.reset_election_timer(now_ms);
        let request = RequestVote {
            term: self.current_term,
            candidate_id: self.id,
            last_log_index: self.last_log_index(),
            last_log_term: self.last_log_term(),
        };
        let mut messages: Vec<Message> = Vec::new();
        let mut i: usize = 0;
        while i < self.peers.len()
            invariant
                i <= self@.peers.len(),
                request == self@.vote_request(),
                messages@.len() == i,
                forall|j: int|
                    0 <= j < i ==> (#[trigger] messages@[j])@ == self@.vote_requests()[j],
            decreases self@.peers.len() - i,
        {
            messages.push(
                Message { from: self.id, to: self.peers[i], rpc: Rpc::RequestVote(request) },
            );
            i = i + 1;
        }
        assert(messages.deep_view() =~= self@.vote_requests());
        messages
    }

    fn handle_request_vote(&mut self, request: RequestVote, now_ms: u64) -> (reply:
        RequestVoteReply)
        requires
            old(self)@.wf(),
            now_ms <= u64::MAX - ELECTION_MAX_MS,
        ensures
            final(self)@.wf(),
            (final(self)@, reply) == old(self)@.on_request_vote(request, now_ms),
    {
        if request.term < self.current_term {
            return RequestVoteReply { term: self.current_term, vote_granted: false };
        }
        if request.term > self.current_term {
            self.step_down(request.term, now_ms);
        }
        let can_vote = match self.voted_for {
            None => true,
            Some(candidate) => candidate == request.candidate_id,
        };
        let up_to_date = request.last_log_term > self.last_log_term() || (request.last_log_term
            == self.last_log_term() && request.last_log_index >= self.last_log_index());
        let vote_granted = can_vote && up_to_date;
        if vote_granted {
            self.voted_for = Some(request.candidate_id);
            self.reset_election_timer(now_ms);
        }
        RequestVoteReply { term: self.current_term, vote_granted }
    }

    fn handle_request_vote_reply(
        &mut self,
        _from: NodeId,
        reply: RequestVoteReply,
        now_ms: u64,
    ) -> (messages: Vec<Message>)
        requires
            old(self)@.wf(),
            now_ms <= u64::MAX - ELECTION_MAX_MS,
        ensures
            final(self)@.wf(),
            (final(self)@, messages.deep_view()) == old(self)@.on_vote_reply(reply, now_ms),
    {
        let none: Vec<Message> = Vec::new();
        assert(none.deep_view() =~= Seq::empty());
        if reply.term > self.current_term {
            self.step_down(reply.term, now_ms);
            return none;
        }
        if !matches!(self.role, Role::Candidate) || reply.term != self.current_term
            || !reply.vote_granted {
            return none;
        }
        self.votes_granted = self.votes_granted + 1;
        if self.votes_granted >= self.majority() {
            self.become_leader(now_ms)
        } else {
            none
        }
    }

    fn become_leader(&mut self, now_ms: u64) -> (messages: Vec<Message>)
        requires
            old(self)@.peers.len() < usize::MAX,
            old(self)@.log.len() <= usize::MAX,
            old(self)@.can_apply(),
        ensures
            final(self)@.wf(),
            final(self)@ == old(self)@.leading(now_ms),
            messages.deep_view() == final(self)@.appends(),
    {
        self.role = Role::Leader;
        self.leader_id = Some(self.id);
        self.last_heartbeat_at = now_ms;
        self.log.push(LogEntry { term: self.current_term, command: Command::Noop });
        let last: LogIndex = self.last_log_index();
        self.term_start_index = last;
        let next: LogIndex = last.saturating_add(1);
        self.next_index = map_to(&self.peers, next);
        self.match_index = map_to(&self.peers, 0);
        self.match_index.insert(self.id, last);
        assert(self@ =~= old(self)@.leading(now_ms));
        self.appends_for_peers()
    }

    /// How many leading entries the log already holds behind its first `prev`.
    fn shared_entries(&self, prev: usize, entries: &Vec<LogEntry>) -> (shared: usize)
        requires
            prev <= self@.log.len(),
        ensures
            shared == crate::node_state::shared_len(self@.log, prev as int, entries@),
            shared <= entries@.len(),
            prev + shared <= self@.log.len() <= usize::MAX,
    {
        let mut shared: usize = 0;
        let room: usize = self.log.len() - prev;
        assert(entries@.skip(0) =~= entries@);
        while shared < entries.len() && shared < room && self.log[prev + shared].term
            == entries[shared].term
            invariant
                room == self@.log.len() - prev,
                self.log@.len() == self.log.len(),
                shared <= entries@.len(),
                prev + shared <= self@.log.len(),
                self@.log == self.log@,
                crate::node_state::shared_len(self@.log, prev as int, entries@) == shared
                    + crate::node_state::shared_len(
                    self@.log,
                    prev + shared,
                    entries@.skip(shared as int),
                ),
            decreases entries@.len() - shared,
        {
            assert(entries@.skip(shared as int).drop_first() =~= entries@.skip(shared + 1));
            shared = shared + 1;
        }
        shared
    }

    /// Takes `entries` into the log behind its first `prev`.
    fn merge_entries(&mut self, prev: usize, entries: Vec<LogEntry>)
        requires
            prev <= old(self)@.log.len(),
        ensures
            final(self)@ == (NodeState {
                log: crate::node_state::merged(old(self)@.log, prev as int, entries@),
                ..old(self)@
            }),
            prev + entries@.len() <= final(self)@.log.len() <= usize::MAX,
    {
        let ghost log = self.log@;
        let shared: usize = self.shared_entries(prev, &entries);
        if shared < entries.len() {
            self.log.truncate(prev + shared);
            let mut i: usize = shared;
            while i < entries.len()
                invariant
                    shared <= i <= entries@.len(),
                    prev + shared <= log.len(),
                    self.log@ == log.take(prev + shared) + entries@.subrange(
                        shared as int,
                        i as int,
                    ),
                    self@ == (NodeState { log: self.log@, ..old(self)@ }),
                decreases entries@.len() - i,
            {
                self.log.push(entries[i].clone());
                i = i + 1;
                assert(self.log@ =~= log.take(prev + shared) + entries@.subrange(
                    shared as int,
                    i as int,
                ));
            }
            assert(entries@.subrange(shared as int, entries@.len() as int) =~= entries@.skip(
                shared as int,
            ));
        }
        assert(self.log@.len() == self.log.len());
    }

    fn handle_append_entries(&mut self, request: AppendEntries, now_ms: u64) -> (reply:
        AppendEntriesReply)
        requires
            old(self)@.wf(),
            now_ms <= u64::MAX - ELECTION_MAX_MS,
            old(self)@.on_append_entries(request@, 0).0.can_apply(),
        ensures
            final(self)@.wf(),
            reply == old(self)@.on_append_entries(request@, now_ms).1,
            if old(self)@.accepts(request@) {
                old(self)@.on_append_entries(request@, now_ms).0.settles(final(self)@)
            } else {
                final(self)@ == old(self)@.on_append_entries(request@, now_ms).0
            },
    {
        if request.term < self.current_term {
            return AppendEntriesReply {
                term: self.current_term,
                success: false,
                match_index: self.last_log_index(),
            };
        }
        if request.term > self.current_term || !matches!(self.role, Role::Follower) {
            self.step_down(request.term, now_ms);
        }
        self.leader_id = Some(request.leader_id);
        self.reset_election_timer(now_ms);
        if self.term_at(request.prev_log_index) != Some(request.prev_log_term) {
            return AppendEntriesReply {
                term: self.current_term,
                success: false,
                match_index: self.last_log_index(),
            };
        }
        let prev: usize = request.prev_log_index;
        let count: usize = request.entries.len();
        self.merge_entries(prev, request.entries);
        if request.leader_commit > self.commit_index {
            let last: LogIndex = self.last_log_index();
            self.commit_index = if request.leader_commit <= last {
                request.leader_commit
            } else {
                last
            };
        }
        let term: Term = self.current_term;
        let _ = self.apply_committed();
        AppendEntriesReply { term, success: true, match_index: prev + count }
    }

    fn handle_append_entries_reply(&mut self, from: NodeId, reply: AppendEntriesReply) -> (messages:
        Vec<Message>)
        requires
            old(self)@.wf(),
        ensures
            final(self)@.wf(),
            messages.deep_view() == old(self)@.on_append_reply(from, reply).1,
            if reply.success && old(self)@.heeds(reply) {
                old(self)@.on_append_reply(from, reply).0.settles(final(self)@)
            } else {
                final(self)@ == old(self)@.on_append_reply(from, reply).0
            },
    {
        let mut messages: Vec<Message> = Vec::new();
        assert(messages.deep_view() =~= Seq::empty());
        if reply.term > self.current_term {
            self.step_down(reply.term, 0);
            return messages;
        }
        if !matches!(self.role, Role::Leader) || reply.term != self.current_term {
            return messages;
        }
        if reply.success {
            self.match_index.insert(from, reply.match_index);
            self.next_index.insert(from, reply.match_index.saturating_add(1));
            self.advance_commit_index();
            messages
        } else {
            let back: LogIndex = self.next_for(from).saturating_sub(1);
            let next: LogIndex = if back >= 1 {
                back
            } else {
                1
            };
            self.next_index.insert(from, next);
            messages.push(self.append_entries_for(from));
            assert(messages.deep_view() =~= old(self)@.on_append_reply(from, reply).1);
            messages
        }
    }

    fn next_for(&self, peer: NodeId) -> (next: LogIndex)
        ensures
            next == self@.next_for(peer),
    {
        match self.next_index.get(&peer) {
            Some(next) => *next,
            None => self.last_log_index().saturating_add(1),
        }
    }

    fn append_entries_for(&self, peer: NodeId) -> (message: Message)
        requires
            self@.wf(),
        ensures
            message@ == self@.append_for(peer),
    {
        let next: LogIndex = self.next_for(peer);
        let prev_log_index: LogIndex = next.saturating_sub(1);
        let mut entries: Vec<LogEntry> = Vec::new();
        let mut i: usize = prev_log_index;
        while i < self.log.len()
            invariant
                prev_log_index <= self.log@.len() ==> prev_log_index <= i <= self.log@.len(),
                prev_log_index > self.log@.len() ==> i == prev_log_index,
                entries@ == if prev_log_index <= self.log@.len() {
                    self.log@.subrange(prev_log_index as int, i as int)
                } else {
                    Seq::empty()
                },
            decreases self.log@.len() - i,
        {
            entries.push(self.log[i].clone());
            i = i + 1;
            assert(entries@ =~= self.log@.subrange(prev_log_index as int, i as int));
        }
        assert(prev_log_index <= self.log@.len() ==> self.log@.subrange(
            prev_log_index as int,
            self.log@.len() as int,
        ) =~= self.log@.skip(prev_log_index as int));
        Message {
            from: self.id,
            to: peer,
            rpc: Rpc::AppendEntries(
                AppendEntries {
                    term: self.current_term,
                    leader_id: self.id,
                    prev_log_index,
                    prev_log_term: match self.term_at(prev_log_index) {
                        Some(term) => term,
                        None => 0,
                    },
                    entries,
                    leader_commit: self.commit_index,
                },
            ),
        }
    }

    /// The number of nodes known to hold the log up to `index`.
    fn holder_count(&self, index: LogIndex) -> (count: usize)
        ensures
            count == self@.holders(index as int).len(),
    {
        let mut count: usize = 0;
        let total: usize = self.match_index.len();
        let ghost mut counted: Set<NodeId> = Set::empty();
        let ghost mut seen: int = 0;
        for entry in it: self.match_index.iter()
            invariant
                seen == it.index(),
                it.seq().no_duplicates(),
                it.seq().len() == total,
                forall|i: int|
                    0 <= i < it.seq().len() ==> self.match_index@.contains_key(*it.seq()[i].0)
                        && self.match_index@[*it.seq()[i].0] == *(#[trigger] it.seq()[i]).1,
                forall|id: NodeId| #[trigger]
                    self.match_index@.contains_key(id) ==> it.seq().contains(
                        (&id, &self.match_index@[id]),
                    ),
                counted.finite(),
                count == counted.len(),
                count <= seen,
                forall|id: NodeId| #[trigger]
                    counted.contains(id) <==> exists|i: int|
                        0 <= i < seen && *(#[trigger] it.seq()[i]).0 == id && *it.seq()[i].1
                            >= index,
        {
            if *entry.1 >= index {
                count = count + 1;
                proof {
                    counted = counted.insert(*entry.0);
                }
            }
            proof {
                seen = seen + 1;
            }
        }
        assert(counted =~= self@.holders(index as int));
        count
    }

    fn advance_commit_index(&mut self)
        requires
            old(self)@.wf(),
            old(self)@.role == Role::Leader,
        ensures
            final(self)@.wf(),
            old(self)@.committed().settles(final(self)@),
    {
        let last: LogIndex = self.last_log_index();
        let majority: usize = self.majority();
        let mut index: LogIndex = last;
        while index > self.commit_index && !(self.log[index - 1].term == self.current_term
            && self.holder_count(index) >= majority)
            invariant
                self == old(self),
                self@.wf(),
                majority == self@.majority(),
                last == self@.log.len(),
                index <= last,
                self@.commit_up_to(last as int) == self@.commit_up_to(index as int),
            decreases index,
        {
            index = index - 1;
        }
        if index > self.commit_index {
            self.commit_index = index;
        }
        let _ = self.apply_committed();
    }

    /// Applies the committed entries in order, up to the first that the
    /// machine refuses.
    fn apply_committed(&mut self) -> (outcome: Result<(), StateMachineError>)
        requires
            old(self)@.can_apply(),
        ensures
            old(self)@.settles(final(self)@),
            final(self)@.can_apply(),
            final(self)@ == (NodeState {
                data: final(self)@.data,
                last_applied: final(self)@.last_applied,
                ..old(self)@
            }),
    {
        while self.last_applied < self.commit_index
            invariant
                self@.can_apply(),
                forall|post: NodeState<S>| #[trigger]
                    self@.settles(post) ==> old(self)@.settles(post),
                self@ == (NodeState {
                    data: self@.data,
                    last_applied: self@.last_applied,
                    ..old(self)@
                }),
            decreases self.commit_index - self.last_applied,
        {
            let ghost pre = self@;
            let next: LogIndex = self.last_applied + 1;
            let outcome = self.state_machine.apply(next, &self.log[next - 1].command);
            match outcome {
                Ok(()) => {
                    self.last_applied = next;
                    proof {
                        assert forall|post: NodeState<S>| #[trigger]
                            self@.settles(post) implies old(self)@.settles(post) by {
                            assert(S::applies(
                                pre.data,
                                next,
                                pre.log[pre.last_applied as int].command,
                                self@.data,
                                outcome,
                            ));
                            assert(pre.settles(post));
                        }
                    }
                },
                Err(error) => {
                    assert(S::applies(
                        pre.data,
                        next,
                        pre.log[pre.last_applied as int].command,
                        self@.data,
                        outcome,
                    ));
                    assert(pre.settles(self@));
                    return Err(error);
                },
            }
        }
        assert(self@.settles(self@));
        Ok(())
    }

    fn step_down(&mut self, term: Term, now_ms: u64)
        requires
            now_ms <= u64::MAX - ELECTION_MAX_MS,
        ensures
            final(self)@ == old(self)@.stepped_down(term, now_ms),
    {
        self.role = Role::Follower;
        self.current_term = term;
        self.voted_for = None;
        self.votes_granted = 0;
        self.reset_election_timer(now_ms);
    }

    fn reset_election_timer(&mut self, now_ms: u64)
        requires
            now_ms <= u64::MAX - ELECTION_MAX_MS,
        ensures
            final(self)@ == old(self)@.timer_reset(now_ms),
    {
        let timeout: u64 = self.next_election_timeout();
        self.election_deadline = now_ms + timeout;
    }

    fn next_election_timeout(&mut self) -> (timeout: u64)
        ensures
            final(self)@ == (NodeState { rng_state: old(self)@.next_random(), ..old(self)@ }),
            timeout == ELECTION_MIN_MS + old(self)@.next_random() % ELECTION_SPAN_MS,
            ELECTION_MIN_MS <= timeout <= ELECTION_MAX_MS,
    {
        self.rng_state = self.rng_state.wrapping_mul(6364136223846793005).wrapping_add(1);
        ELECTION_MIN_MS + self.rng_state % ELECTION_SPAN_MS
    }

    fn majority(&self) -> (majority: usize)
        requires
            self@.peers.len() < usize::MAX,
        ensures
            majority == self@.majority(),
    {
        let cluster_size: usize = self.peers.len() + 1;
        cluster_size / 2 + 1
    }

    pub fn last_log_index(&self) -> (index: LogIndex)
        ensures
            index == self@.last_log_index(),
            index == self@.log.len(),
    {
        self.log.len()
    }

    fn last_log_term(&self) -> (term: Term)
        ensures
            term == self@.last_log_term(),
    {
        if self.log.len() == 0 {
            0
        } else {
            self.log[self.log.len() - 1].term
        }
    }

    pub fn term_at(&self, index: LogIndex) -> (term: Option<Term>)
        ensures
            term == self@.term_at(index),
    {
        if index == 0 {
            Some(0)
        } else if index <= self.log.len() {
            Some(self.log[index - 1].term)
        } else {
            None
        }
    }
}

/// Whether a write may take a node from `pre` to `post`, with this reply and
/// these messages: only a leader takes it, into its log and out to the peers.
pub open spec fn writes<D>(
    pre: NodeState<D>,
    command: Command,
    post: NodeState<D>,
    reply: ClientReplyView,
    sent: Seq<crate::types::MessageView>,
) -> bool {
    if pre.role == Role::Leader {
        &&& post == pre.proposed(command)
        &&& sent == post.appends()
        &&& reply == (ClientReplyView {
            success: true,
            leader_id: Some(pre.id),
            response: Some("accepted"@),
        })
    } else {
        &&& post == pre
        &&& sent == Seq::<crate::types::MessageView>::empty()
        &&& reply == pre.refusal()
    }
}

/// Whether a client's request may take a node from `pre` to `post`, with this
/// reply and these messages. Reads change nothing and send nothing; they are
/// answered by a leader that has proved its leadership, or by any node where
/// the client asks for the node's own state.
pub open spec fn serves<S: StateMachine>(
    pre: NodeState<S>,
    request: ClientRequest,
    post: NodeState<S>,
    reply: ClientReplyView,
    sent: Seq<crate::types::MessageView>,
) -> bool {
    match request {
        ClientRequest::Put { key, value } => writes(
            pre,
            Command::Put { key, value },
            post,
            reply,
            sent,
        ),
        ClientRequest::Delete { key } => writes(pre, Command::Delete { key }, post, reply, sent),
        ClientRequest::Get { key } => {
            &&& post == pre
            &&& sent == Seq::<crate::types::MessageView>::empty()
            &&& if pre.role == Role::Leader && pre.can_serve_reads() {
                pre.may_answer(key@, Some(pre.id), reply)
            } else {
                reply == pre.refusal()
            }
        },
        ClientRequest::LocalGet { key } => {
            &&& post == pre
            &&& sent == Seq::<crate::types::MessageView>::empty()
            &&& pre.may_answer(key@, pre.leader_id, reply)
        },
    }
}

/// Whether a peer's message may take a node from `pre` to `post`, with these messages
/// in return.
pub open spec fn handles<S: StateMachine>(
    pre: NodeState<S>,
    from: NodeId,
    rpc: crate::types::RpcView,
    now_ms: u64,
    post: NodeState<S>,
    sent: Seq<crate::types::MessageView>,
) -> bool {
    let (next, answers) = pre.on_message(from, rpc, now_ms);
    &&& sent == answers
    &&& if pre.applies_after(rpc) {
        next.settles(post)
    } else {
        post == next
    }
}

/// Whether a client's write may take a node from `pre` to `post` with this outcome:
/// the place of the new entry and the messages to send, or a refusal.
pub open spec fn begins_write<S>(
    pre: NodeState<S>,
    request: ClientRequest,
    post: NodeState<S>,
    outcome: Result<(PendingWrite, Seq<crate::types::MessageView>), ClientReplyView>,
) -> bool {
    match outcome {
        Ok((write, sent)) => {
            &&& pre.role == Role::Leader
            &&& command_of(request) matches Some(command)
            &&& post == pre.proposed(command)
            &&& write.index == post.log.len()
            &&& write.term == pre.current_term
            &&& sent == post.appends()
        },
        Err(reply) => {
            &&& pre.role != Role::Leader || command_of(request) is None
            &&& post == pre
            &&& reply == pre.refusal()
        },
    }
}

/// The command that a client's write stands for; a read stands for none.
pub open spec fn command_of(request: ClientRequest) -> Option<Command> {
    match request {
        ClientRequest::Put { key, value } => Some(Command::Put { key, value }),
        ClientRequest::Delete { key } => Some(Command::Delete { key }),
        _ => None,
    }
}

/// The name of a role.
pub open spec fn role_name(role: Role) -> Seq<char> {
    match role {
        Role::Follower => "follower"@,
        Role::Candidate => "candidate"@,
        Role::Leader => "leader"@,
    }
}

/// How many committed entries a peer is not known to hold.
pub open spec fn lag_of<D>(state: NodeState<D>, peer: NodeId) -> usize {
    state.commit_index.saturating_sub(
        if state.match_index.contains_key(peer) {
            state.match_index[peer]
        } else {
            0
        },
    )
}

/// The text of an optional string.
pub open spec fn text_of(value: Option<String>) -> Option<Seq<char>> {
    match value {
        Some(text) => Some(text@),
        None => None,
    }
}

/// A map that takes every given key to one value.
fn map_to(keys: &Vec<NodeId>, value: LogIndex) -> (map: HashMap<NodeId, LogIndex>)
    ensures
        map@ == Map::new(|key: NodeId| keys@.contains(key), |key: NodeId| value),
{
    let mut map: HashMap<NodeId, LogIndex> = HashMap::new();
    let mut i: usize = 0;
    while i < keys.len()
        invariant
            i <= keys@.len(),
            forall|key: NodeId| #[trigger]
                map@.contains_key(key) <==> exists|j: int| 0 <= j < i && keys@[j] == key,
            forall|key: NodeId| #[trigger] map@.contains_key(key) ==> map@[key] == value,
        decreases keys@.len() - i,
    {
        map.insert(keys[i], value);
        i = i + 1;
    }
    assert(map@ =~= Map::new(|key: NodeId| keys@.contains(key), |key: NodeId| value));
    map
}

proof fn shared_len_bound(log: Seq<LogEntry>, prev: int, entries: Seq<LogEntry>)
    requires
        0 <= prev <= log.len(),
    ensures
        crate::node_state::shared_len(log, prev, entries) <= entries.len(),
        prev + crate::node_state::shared_len(log, prev, entries) <= log.len(),
    decreases entries.len(),
{
    if entries.len() > 0 && prev < log.len() && log[prev].term == entries[0].term {
        shared_len_bound(log, prev + 1, entries.drop_first());
    }
}

} // verus!
