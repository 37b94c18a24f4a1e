//! What a node does with what reaches it.
//!
//! A [`Runtime`] is a node with what was saved of it and its metrics. A tick, a
//! peer's message or a client's request starts an [`Exchange`], which says what
//! to do next: save, send, wait or reply. Whoever runs it does that and resumes
//! the exchange with the outcome.
use crate::net::WireMessage;
use crate::node::{Node, PendingWrite};
use crate::node_state::{NodeState, ELECTION_MAX_MS};
use crate::observability::{MetricsState, NodeMetrics};
use crate::state_machine::StateMachine;
use crate::storage::{needs_save, DurableState};
use crate::types::{
    ClientReply, ClientReplyView, ClientRequest, LogEntry, LogIndex, Message, MessageView, NodeId,
    Role, Term,
};
use vstd::prelude::*;
use vstd::string::*;

verus! {

/// How long a client's write may take.
pub const CLIENT_WRITE_TIMEOUT_MS: u64 = 800;

/// How long to wait before looking after a write again.
pub const WRITE_POLL_MS: u64 = 10;

/// The sizes of a node's tree.
#[derive(Clone, Copy, Debug, PartialEq, Eq, Structural)]
pub struct TreeSizes {
    pub memtable_bytes: usize,
    pub sstable_count: usize,
    pub compactions: usize,
}

/// What was saved of a node.
#[verifier::ext_equal]
pub struct SavedView {
    pub current_term: Term,
    pub voted_for: Option<NodeId>,
    pub log: Seq<LogEntry>,
    pub commit_index: LogIndex,
}

/// What there is to save of a node.
pub open spec fn to_save<S>(node: NodeState<S>) -> SavedView {
    SavedView {
        current_term: node.current_term,
        voted_for: node.voted_for,
        log: node.log,
        commit_index: node.commit_index,
    }
}

/// The content of a durable state.
pub open spec fn saved_view(state: DurableState) -> SavedView {
    SavedView {
        current_term: state.current_term,
        voted_for: state.voted_for,
        log: state.log@,
        commit_index: state.commit_index,
    }
}

/// A node differs from what was saved of it.
pub open spec fn is_stale<S>(saved: SavedView, node: NodeState<S>) -> bool {
    ||| node.current_term != saved.current_term
    ||| node.voted_for != saved.voted_for
    ||| node.commit_index != saved.commit_index
    ||| !crate::storage::same_entries(node.log, saved.log)
}

/// How far each peer is behind, as far as the node knows.
pub open spec fn lags_of<S>(node: NodeState<S>) -> Seq<(NodeId, usize)> {
    if node.role == Role::Leader {
        Seq::new(
            node.peers.len(),
            |i: int| (node.peers[i], crate::node::lag_of(node, node.peers[i])),
        )
    } else {
        Seq::empty()
    }
}

/// Metrics that show lags.
pub open spec fn with_lags(metrics: MetricsState, lags: Seq<(NodeId, usize)>) -> MetricsState
    decreases lags.len(),
{
    if lags.len() == 0 {
        metrics
    } else {
        with_lags(metrics, lags.drop_last()).with_replication_lag(lags.last().0, lags.last().1)
    }
}

/// The state of a [`Runtime`].
#[verifier::ext_equal]
#[verifier::reject_recursive_types(S)]
pub struct RuntimeState<S> {
    pub node: NodeState<S>,
    pub saved: SavedView,
    pub metrics: MetricsState,
    pub last_role: Role,
    pub last_term: Term,
    pub last_leader_id: Option<NodeId>,
}

impl<S> RuntimeState<S> {
    /// The runtime of a node that has just been loaded.
    pub open spec fn started(node: NodeState<S>, metrics: MetricsState) -> RuntimeState<S> {
        RuntimeState {
            node,
            saved: to_save(node),
            metrics,
            last_role: node.role,
            last_term: node.current_term,
            last_leader_id: node.leader_id,
        }
    }

    /// What has to be saved, if anything.
    pub open spec fn unsaved(self) -> Option<SavedView> {
        if is_stale(self.saved, self.node) {
            Some(to_save(self.node))
        } else {
            None
        }
    }

    /// The runtime after what had to be saved was saved, or was not.
    pub open spec fn persisted(self, saved: bool) -> RuntimeState<S> {
        if saved && is_stale(self.saved, self.node) {
            RuntimeState { saved: to_save(self.node), ..self }
        } else {
            self
        }
    }

    /// The runtime with its metrics brought up to date.
    pub open spec fn refreshed(self, sizes: TreeSizes) -> RuntimeState<S> {
        let node = self.node;
        let elections = if node.role == Role::Candidate && (self.last_role != Role::Candidate
            || node.current_term != self.last_term) {
            self.metrics.with_election()
        } else {
            self.metrics
        };
        let changes = if node.leader_id != self.last_leader_id && node.leader_id is Some {
            elections.with_leader_change()
        } else {
            elections
        };
        let raft = changes.with_raft_state(
            node.current_term,
            crate::node::role_name(node.role),
            node.commit_index,
            node.last_applied,
        );
        RuntimeState {
            metrics: with_lags(raft, lags_of(node)).with_lsm_state(
                sizes.memtable_bytes,
                sizes.sstable_count,
            ).with_compactions(sizes.compactions),
            last_role: node.role,
            last_term: node.current_term,
            last_leader_id: node.leader_id,
            ..self
        }
    }

    /// The runtime after a write was served.
    pub open spec fn counted(self) -> RuntimeState<S> {
        RuntimeState { metrics: self.metrics.with_write(), ..self }
    }

    /// Whether a write is committed and applied as it was proposed.
    pub open spec fn write_is_done(self, write: PendingWrite) -> bool {
        self.node.write_is_done(write)
    }

    /// Whether the node no longer leads the term of a write.
    pub open spec fn write_is_lost(self, write: PendingWrite) -> bool {
        self.node.role != Role::Leader || self.node.current_term != write.term
    }

    /// The answer to a write that came to nothing.
    pub open spec fn failed(self) -> ClientReplyView {
        ClientReplyView { success: false, leader_id: self.node.leader_id, response: None }
    }

    /// The answer to a write that is committed.
    pub open spec fn committed(self) -> ClientReplyView {
        ClientReplyView {
            success: true,
            leader_id: Some(self.node.id),
            response: Some("committed"@),
        }
    }

    /// The answer to a write that could not be saved.
    pub open spec fn unsaved_write(self) -> ClientReplyView {
        ClientReplyView { success: false, leader_id: Some(self.node.id), response: None }
    }

    /// What comes next when time passes.
    pub open spec fn ticked(self, now_ms: u64) -> (RuntimeState<S>, ExchangeView, ActionView) {
        let (node, sent) = self.node.tick(now_ms);
        let after = RuntimeState { node, ..self };
        (after, ExchangeView::Answering(sent), ActionView::Persist(after.unsaved()))
    }

    /// What comes next for a write after some time.
    pub open spec fn awaited(self, write: PendingWrite, elapsed_ms: u64, sizes: TreeSizes) -> (
        RuntimeState<S>,
        ExchangeView,
        ActionView,
    ) {
        if elapsed_ms >= CLIENT_WRITE_TIMEOUT_MS {
            (
                self.refreshed(sizes),
                ExchangeView::Over,
                ActionView::Reply { reply: self.failed(), written: false },
            )
        } else if self.write_is_done(write) {
            (
                self.counted().refreshed(sizes),
                ExchangeView::Over,
                ActionView::Reply { reply: self.committed(), written: true },
            )
        } else if self.write_is_lost(write) {
            (self, ExchangeView::Over, ActionView::Reply { reply: self.failed(), written: false })
        } else {
            (
                self.refreshed(sizes),
                ExchangeView::Waiting(write),
                ActionView::Pause(WRITE_POLL_MS),
            )
        }
    }

    /// What comes next after saving was tried.
    pub open spec fn after_saving(self, exchange: ExchangeView, saved: bool, sizes: TreeSizes) -> (
        RuntimeState<S>,
        ExchangeView,
        ActionView,
    ) {
        let kept = self.persisted(saved);
        match exchange {
            ExchangeView::Answering(messages) => (
                kept.refreshed(sizes),
                ExchangeView::Ending,
                ActionView::Send(messages),
            ),
            ExchangeView::WriteSaving(write, messages) => if saved {
                (kept.refreshed(sizes), ExchangeView::Waiting(write), ActionView::Send(messages))
            } else {
                (
                    kept,
                    ExchangeView::Over,
                    ActionView::Reply { reply: self.unsaved_write(), written: false },
                )
            },
            ExchangeView::ReadSaving(reply, messages) => (
                kept.refreshed(sizes),
                ExchangeView::Replying(
                    if saved {
                        reply
                    } else {
                        ClientReplyView { success: false, response: None, ..reply }
                    },
                ),
                ActionView::Send(messages),
            ),
            _ => (self, ExchangeView::Over, ActionView::Finish),
        }
    }

    /// What comes next after sending or waiting.
    pub open spec fn after_going_on(
        self,
        exchange: ExchangeView,
        elapsed_ms: u64,
        sizes: TreeSizes,
    ) -> (RuntimeState<S>, ExchangeView, ActionView) {
        match exchange {
            ExchangeView::Waiting(write) => self.awaited(write, elapsed_ms, sizes),
            ExchangeView::Replying(reply) => (
                self,
                ExchangeView::Over,
                ActionView::Reply { reply, written: false },
            ),
            _ => (self, ExchangeView::Over, ActionView::Finish),
        }
    }
}

/// How far the handling of something that reached the node has come.
#[derive(Debug)]
pub enum Exchange {
    /// The node answered a tick or a peer; its state is to be saved first.
    Answering(Vec<Message>),
    /// The leader took a write; its state is to be saved first.
    WriteSaving(PendingWrite, Vec<Message>),
    /// A read was served; the node's state is to be saved first.
    ReadSaving(ClientReply, Vec<Message>),
    /// A write waits to be committed.
    Waiting(PendingWrite),
    /// A reply goes out once the messages are sent.
    Replying(ClientReply),
    /// All is done once the messages are sent.
    Ending,
    /// All is done.
    Over,
}

/// What to do next.
#[derive(Debug)]
pub enum Action {
    /// Save the state, if there is one, and tell whether that went well.
    Persist(Option<DurableState>),
    /// Send the messages and go on.
    Send(Vec<Message>),
    /// Wait so many milliseconds and go on.
    Pause(u64),
    /// Reply to the client; `written` if a write was served whose latency counts.
    Reply { reply: ClientReply, written: bool },
    /// Nothing.
    Finish,
    /// Give up: a server is sent no replies.
    Reject,
}

/// The content of an [`Exchange`].
#[verifier::ext_equal]
pub enum ExchangeView {
    Answering(Seq<MessageView>),
    WriteSaving(PendingWrite, Seq<MessageView>),
    ReadSaving(ClientReplyView, Seq<MessageView>),
    Waiting(PendingWrite),
    Replying(ClientReplyView),
    Ending,
    Over,
}

/// The content of an [`Action`].
#[verifier::ext_equal]
pub enum ActionView {
    Persist(Option<SavedView>),
    Send(Seq<MessageView>),
    Pause(u64),
    Reply { reply: ClientReplyView, written: bool },
    Finish,
    Reject,
}

impl View for Exchange {
    type V = ExchangeView;

    open spec fn view(&self) -> ExchangeView {
        match *self {
            Exchange::Answering(messages) => ExchangeView::Answering(messages.deep_view()),
            Exchange::WriteSaving(write, messages) => ExchangeView::WriteSaving(
                write,
                messages.deep_view(),
            ),
            Exchange::ReadSaving(reply, messages) => ExchangeView::ReadSaving(
                reply@,
                messages.deep_view(),
            ),
            Exchange::Waiting(write) => ExchangeView::Waiting(write),
            Exchange::Replying(reply) => ExchangeView::Replying(reply@),
            Exchange::Ending => ExchangeView::Ending,
            Exchange::Over => ExchangeView::Over,
        }
    }
}

impl View for Action {
    type V = ActionView;

    open spec fn view(&self) -> ActionView {
        match *self {
            Action::Persist(state) => ActionView::Persist(
                match state {
                    Some(state) => Some(saved_view(state)),
                    None => None,
                },
            ),
            Action::Send(messages) => ActionView::Send(messages.deep_view()),
            Action::Pause(ms) => ActionView::Pause(ms),
            Action::Reply { reply, written } => ActionView::Reply { reply: reply@, written },
            Action::Finish => ActionView::Finish,
            Action::Reject => ActionView::Reject,
        }
    }
}

/// Whether something that came over a connection may take a runtime from `before`
/// to `after`, into this exchange with this first action.
pub open spec fn receives<S: StateMachine>(
    before: RuntimeState<S>,
    message: WireMessage,
    now_ms: u64,
    after: RuntimeState<S>,
    exchange: ExchangeView,
    action: ActionView,
) -> bool {
    &&& after == (RuntimeState { node: after.node, ..before })
    &&& match message {
        WireMessage::Peer(message) => {
            &&& exchange matches ExchangeView::Answering(sent)
            &&& crate::node::handles(
                before.node,
                message.from,
                message.rpc@,
                now_ms,
                after.node,
                sent,
            )
            &&& action == ActionView::Persist(after.unsaved())
        },
        WireMessage::ClientRequest(request) => match crate::node::command_of(request) {
            Some(command) => if before.node.role == Role::Leader {
                &&& after.node == before.node.proposed(command)
                &&& exchange == ExchangeView::WriteSaving(
                    PendingWrite {
                        index: after.node.log.len() as LogIndex,
                        term: before.node.current_term,
                    },
                    after.node.appends(),
                )
                &&& action == ActionView::Persist(after.unsaved())
            } else {
                &&& after == before
                &&& exchange == ExchangeView::Over
                &&& action == (ActionView::Reply {
                    reply: before.node.refusal(),
                    written: false,
                })
            },
            None => {
                &&& exchange matches ExchangeView::ReadSaving(reply, sent)
                &&& crate::node::serves(before.node, request, after.node, reply, sent)
                &&& action == ActionView::Persist(after.unsaved())
            },
        },
        WireMessage::ClientReply(_) => {
            &&& after == before
            &&& exchange == ExchangeView::Over
            &&& action == ActionView::Reject
        },
    }
}

/// A node with what was saved of it and its metrics.
#[derive(Debug)]
pub struct Runtime<S: StateMachine> {
    node: Node<S>,
    last_saved: DurableState,
    metrics: NodeMetrics,
    last_role: Role,
    last_term: Term,
    last_leader_id: Option<NodeId>,
}

impl<S: StateMachine> View for Runtime<S> {
    type V = RuntimeState<S>;

    closed spec fn view(&self) -> RuntimeState<S> {
        RuntimeState {
            node: self.node@,
            saved: saved_view(self.last_saved),
            metrics: self.metrics@,
            last_role: self.last_role,
            last_term: self.last_term,
            last_leader_id: self.last_leader_id,
        }
    }
}

impl<S: StateMachine> Runtime<S> {
    /// A node that has just been loaded.
    pub fn new(node: Node<S>, metrics: NodeMetrics) -> (runtime: Self)
        ensures
            runtime@ == RuntimeState::started(node@, metrics@),
    {
        let last_saved = DurableState::from_node(&node);
        let last_role = node.role();
        let last_term: Term = node.current_term();
        let last_leader_id: Option<NodeId> = node.leader_id();
        Runtime { node, last_saved, metrics, last_role, last_term, last_leader_id }
    }

    pub fn node(&self) -> (node: &Node<S>)
        ensures
            node@ == self@.node,
    {
        &self.node
    }

    pub fn metrics(&self) -> (metrics: &NodeMetrics)
        ensures
            metrics@ == self@.metrics,
    {
        &self.metrics
    }

    /// What has to be saved, if anything.
    fn unsaved(&self) -> (state: Option<DurableState>)
        ensures
            self@.unsaved() == match state {
                Some(state) => Some(saved_view(state)),
                None => None,
            },
    {
        if needs_save(&self.node, &self.last_saved) {
            Some(DurableState::from_node(&self.node))
        } else {
            None
        }
    }

    /// Remembers what was saved.
    fn persist_if_changed(&mut self, saved: bool)
        ensures
            final(self)@ == old(self)@.persisted(saved),
    {
        if saved && needs_save(&self.node, &self.last_saved) {
            self.last_saved = DurableState::from_node(&self.node);
        }
    }

    /// Brings the metrics up to date.
    pub fn refresh_metrics(&mut self, sizes: TreeSizes)
        ensures
            final(self)@ == old(self)@.refreshed(sizes),
    {
        let role = self.node.role();
        let leader: Option<NodeId> = self.node.leader_id();
        let term: Term = self.node.current_term();
        if role == Role::Candidate && (self.last_role != Role::Candidate || term
            != self.last_term) {
            self.metrics.inc_elections();
        }
        if leader != self.last_leader_id && leader.is_some() {
            self.metrics.inc_leader_changes();
        }
        self.last_role = role;
        self.last_term = term;
        self.last_leader_id = leader;
        self.metrics.set_raft_state(
            term,
            self.node.role_label(),
            self.node.commit_index(),
            self.node.last_applied(),
        );
        let ghost raft = self.metrics@;
        let ghost middle = self@;
        let lags = self.node.replication_lag_by_peer();
        assert(lags@ =~= lags_of(self.node@));
        let mut i: usize = 0;
        assert(lags@.take(0) =~= Seq::empty());
        while i < lags.len()
            invariant
                i <= lags@.len(),
                self@ == (RuntimeState { metrics: self.metrics@, ..middle }),
                self.metrics@ == with_lags(raft, lags@.take(i as int)),
            decreases lags@.len() - i,
        {
            assert(lags@.take(i + 1).drop_last() =~= lags@.take(i as int));
            self.metrics.set_replication_lag(lags[i].0, lags[i].1);
            i = i + 1;
        }
        assert(lags@.take(lags@.len() as int) =~= lags@);
        self.metrics.set_lsm_state(sizes.memtable_bytes, sizes.sstable_count);
        self.metrics.set_lsm_compactions_total(sizes.compactions);
    }

    /// Lets time pass.
    pub fn on_tick(&mut self, now_ms: u64) -> (next: (Exchange, Action))
        requires
            old(self)@.node.wf(),
            now_ms <= u64::MAX - ELECTION_MAX_MS,
            old(self)@.node.campaigns(now_ms) ==> old(self)@.node.current_term < u64::MAX,
        ensures
            final(self)@.node.wf(),
            (final(self)@, next.0@, next.1@) == old(self)@.ticked(now_ms),
    {
        let messages = self.node.tick(now_ms);
        (Exchange::Answering(messages), Action::Persist(self.unsaved()))
    }

    /// Handles what came over a connection.
    pub fn on_message(&mut self, message: WireMessage, now_ms: u64) -> (next: (Exchange, Action))
        requires
            old(self)@.node.wf(),
            now_ms <= u64::MAX - ELECTION_MAX_MS,
            message matches WireMessage::Peer(message) ==> old(self)@.node.tolerates(message.rpc@),
        ensures
            final(self)@.node.wf(),
            receives(old(self)@, message, now_ms, final(self)@, next.0@, next.1@),
    {
        match message {
            WireMessage::Peer(message) => {
                let messages = self.node.handle_message(message.from, message.rpc, now_ms);
                (Exchange::Answering(messages), Action::Persist(self.unsaved()))
            },
            WireMessage::ClientRequest(request) => {
                let is_write = match &request {
                    ClientRequest::Put { .. } => true,
                    ClientRequest::Delete { .. } => true,
                    _ => false,
                };
                if is_write {
                    match self.node.start_client_write(request) {
                        Ok((write, messages)) => {
                            (Exchange::WriteSaving(write, messages), Action::Persist(self.unsaved()))
                        },
                        Err(reply) => (Exchange::Over, Action::Reply { reply, written: false }),
                    }
                } else {
                    let (reply, messages) = self.node.handle_client_request(request);
                    (Exchange::ReadSaving(reply, messages), Action::Persist(self.unsaved()))
                }
            },
            WireMessage::ClientReply(_) => (Exchange::Over, Action::Reject),
        }
    }

    /// Goes on after saving was tried.
    pub fn resume_saved(&mut self, exchange: Exchange, saved: bool, sizes: TreeSizes) -> (next: (
        Exchange,
        Action,
    ))
        ensures
            (final(self)@, next.0@, next.1@) == old(self)@.after_saving(exchange@, saved, sizes),
    {
        match exchange {
            Exchange::Answering(messages) => {
                self.persist_if_changed(saved);
                self.refresh_metrics(sizes);
                (Exchange::Ending, Action::Send(messages))
            },
            Exchange::WriteSaving(write, messages) => {
                self.persist_if_changed(saved);
                if saved {
                    self.refresh_metrics(sizes);
                    (Exchange::Waiting(write), Action::Send(messages))
                } else {
                    let reply = ClientReply {
                        success: false,
                        leader_id: Some(self.node.id()),
                        response: None,
                    };
                    (Exchange::Over, Action::Reply { reply, written: false })
                }
            },
            Exchange::ReadSaving(reply, messages) => {
                self.persist_if_changed(saved);
                let reply = if saved {
                    reply
                } else {
                    ClientReply { success: false, leader_id: reply.leader_id, response: None }
                };
                self.refresh_metrics(sizes);
                (Exchange::Replying(reply), Action::Send(messages))
            },
            _ => (Exchange::Over, Action::Finish),
        }
    }

    /// Goes on after messages were sent or some time has passed since the exchange
    /// began.
    pub fn resume(&mut self, exchange: Exchange, elapsed_ms: u64, sizes: TreeSizes) -> (next: (
        Exchange,
        Action,
    ))
        ensures
            (final(self)@, next.0@, next.1@) == old(self)@.after_going_on(
                exchange@,
                elapsed_ms,
                sizes,
            ),
    {
        match exchange {
            Exchange::Waiting(write) => self.await_write(write, elapsed_ms, sizes),
            Exchange::Replying(reply) => (
                Exchange::Over,
                Action::Reply { reply, written: false },
            ),
            _ => (Exchange::Over, Action::Finish),
        }
    }

    /// Looks after a write.
    fn await_write(&mut self, write: PendingWrite, elapsed_ms: u64, sizes: TreeSizes) -> (next: (
        Exchange,
        Action,
    ))
        ensures
            (final(self)@, next.0@, next.1@) == old(self)@.awaited(write, elapsed_ms, sizes),
    {
        let failed = ClientReply {
            success: false,
            leader_id: self.node.leader_id(),
            response: None,
        };
        if elapsed_ms >= CLIENT_WRITE_TIMEOUT_MS {
            self.refresh_metrics(sizes);
            return (Exchange::Over, Action::Reply { reply: failed, written: false });
        }
        if self.node.write_committed_and_applied(write) {
            let reply = ClientReply {
                success: true,
                leader_id: Some(self.node.id()),
                response: Some(String::from_str("committed")),
            };
            self.metrics.observe_write();
            self.refresh_metrics(sizes);
            return (Exchange::Over, Action::Reply { reply, written: true });
        }
        if self.node.role() != Role::Leader || self.node.current_term() != write.term {
            return (Exchange::Over, Action::Reply { reply: failed, written: false });
        }
        self.refresh_metrics(sizes);
        (Exchange::Waiting(write), Action::Pause(WRITE_POLL_MS))
    }
}

/// A write is reported as committed only if it is in the log in its place, in its
/// term, committed and applied.
pub proof fn success_means_committed<S>(
    runtime: RuntimeState<S>,
    write: PendingWrite,
    elapsed_ms: u64,
    sizes: TreeSizes,
)
    ensures
        runtime.awaited(write, elapsed_ms, sizes).2 matches ActionView::Reply { reply, .. }
            && reply.success ==> runtime.write_is_done(write),
{
}

/// A write is answered in the end: after the timeout there is no more waiting.
pub proof fn waiting_ends<S>(
    runtime: RuntimeState<S>,
    write: PendingWrite,
    elapsed_ms: u64,
    sizes: TreeSizes,
)
    requires
        elapsed_ms >= CLIENT_WRITE_TIMEOUT_MS,
    ensures
        runtime.awaited(write, elapsed_ms, sizes).2 is Reply,
{
}

/// No write is promised, and none of its messages is sent, before the node's
/// state is saved: a write whose state could not be saved is refused, and its
/// messages are never sent.
pub proof fn unsaved_writes_are_refused<S>(
    runtime: RuntimeState<S>,
    write: PendingWrite,
    messages: Seq<MessageView>,
    sizes: TreeSizes,
)
    ensures
        ({
            let (after, exchange, action) = runtime.after_saving(
                ExchangeView::WriteSaving(write, messages),
                false,
                sizes,
            );
            &&& exchange == ExchangeView::Over
            &&& action matches ActionView::Reply { reply, .. } && !reply.success
            &&& after == runtime
        }),
{
}

/// Every election that a tick starts is counted when the metrics are next brought
/// up to date, those of a node that was a candidate before too.
pub proof fn elections_are_counted<S>(runtime: RuntimeState<S>, now_ms: u64, sizes: TreeSizes)
    requires
        runtime.last_role == runtime.node.role,
        runtime.last_term == runtime.node.current_term,
        runtime.node.current_term < u64::MAX,
    ensures
        ({
            let ticked = RuntimeState { node: runtime.node.tick(now_ms).0, ..runtime };
            ticked.refreshed(sizes).metrics.elections == if runtime.node.campaigns(now_ms) {
                runtime.metrics.with_election().elections
            } else {
                runtime.metrics.elections
            }
        }),
{
    let ticked = RuntimeState { node: runtime.node.tick(now_ms).0, ..runtime };
    let node = ticked.node;
    let counted = if runtime.node.campaigns(now_ms) {
        runtime.metrics.with_election()
    } else {
        runtime.metrics
    };
    let changes = if node.leader_id != runtime.last_leader_id && node.leader_id is Some {
        counted.with_leader_change()
    } else {
        counted
    };
    lags_keep_elections(
        changes.with_raft_state(
            node.current_term,
            crate::node::role_name(node.role),
            node.commit_index,
            node.last_applied,
        ),
        lags_of(node),
    );
}

proof fn lags_keep_elections(metrics: MetricsState, lags: Seq<(NodeId, usize)>)
    ensures
        with_lags(metrics, lags).elections == metrics.elections,
    decreases lags.len(),
{
    if lags.len() > 0 {
        lags_keep_elections(metrics, lags.drop_last());
    }
}

/// After a successful saving nothing is left to save.
pub proof fn saving_saves<S>(runtime: RuntimeState<S>)
    ensures
        runtime.persisted(true).unsaved() is None,
        runtime.persisted(true).node == runtime.node,
{
    let log = runtime.node.log;
    assert(crate::storage::same_entries(log, log));
}

/// Messages for one peer, in their order.
pub open spec fn for_peer(messages: Seq<MessageView>, peer: NodeId) -> Seq<MessageView> {
    messages.filter(|message: MessageView| message.to == peer)
}

/// The content of grouped messages.
pub open spec fn group_view(groups: Seq<(NodeId, Vec<Message>)>) -> Seq<(
    NodeId,
    Seq<MessageView>,
)> {
    groups.map_values(|group: (NodeId, Vec<Message>)| (group.0, group.1.deep_view()))
}

/// Groups that hold all messages: one group for each peer that is written to, with
/// the peer's messages in their order.
pub open spec fn groups_of(
    groups: Seq<(NodeId, Seq<MessageView>)>,
    messages: Seq<MessageView>,
) -> bool {
    &&& forall|i: int, j: int|
        0 <= i < j < groups.len() ==> (#[trigger] groups[i]).0 != (#[trigger] groups[j]).0
    &&& forall|i: int|
        0 <= i < groups.len() ==> (#[trigger] groups[i]).1 == for_peer(messages, groups[i].0)
            && groups[i].1.len() > 0
    &&& forall|k: int|
        0 <= k < messages.len() ==> exists|i: int|
            0 <= i < groups.len() && (#[trigger] groups[i]).0 == (#[trigger] messages[k]).to
}

/// Groups messages by the peers they go to.
pub fn group_messages(messages: Vec<Message>) -> (groups: Vec<(NodeId, Vec<Message>)>)
    ensures
        groups_of(group_view(groups@), messages.deep_view()),
{
    let ghost all = messages.deep_view();
    let mut groups: Vec<(NodeId, Vec<Message>)> = Vec::new();
    let ghost mut done: int = 0;
    for message in it: messages
        invariant
            done == it.index(),
            it.seq() == messages@,
            all == messages.deep_view(),
            groups_of(group_view(groups@), all.take(done)),
    {
        let ghost before = group_view(groups@);
        let ghost view = message@;
        let peer: NodeId = message.to;
        let mut i: usize = 0;
        while i < groups.len() && groups[i].0 != peer
            invariant
                i <= groups@.len(),
                forall|j: int| 0 <= j < i ==> (#[trigger] groups@[j]).0 != peer,
            decreases groups@.len() - i,
        {
            i = i + 1;
        }
        if i < groups.len() {
            let (_, mut group) = groups.remove(i);
            let ghost short = group.deep_view();
            group.push(message);
            assert(group.deep_view() =~= short.push(view));
            groups.insert(i, (peer, group));
            assert(group_view(groups@) =~= before.update(i as int, (peer, short.push(view))));
        } else {
            let mut group: Vec<Message> = Vec::new();
            group.push(message);
            assert(group.deep_view() =~= seq![view]);
            groups.push((peer, group));
            assert(group_view(groups@) =~= before.push((peer, seq![view])));
        }
        proof {
            assert(all[done] == view);
            assert(all.take(done + 1) =~= all.take(done).push(view));
            grouping_grows(before, group_view(groups@), all.take(done), view, i as int);
            done = done + 1;
        }
    }
    assert(all.take(all.len() as int) =~= all);
    groups
}

proof fn for_peer_push(messages: Seq<MessageView>, message: MessageView, peer: NodeId)
    ensures
        for_peer(messages.push(message), peer) == if message.to == peer {
            for_peer(messages, peer).push(message)
        } else {
            for_peer(messages, peer)
        },
{
    reveal(Seq::filter);
    assert(messages.push(message).drop_last() =~= messages);
}

proof fn grouping_grows(
    before: Seq<(NodeId, Seq<MessageView>)>,
    after: Seq<(NodeId, Seq<MessageView>)>,
    messages: Seq<MessageView>,
    message: MessageView,
    place: int,
)
    requires
        groups_of(before, messages),
        0 <= place <= before.len(),
        forall|j: int| 0 <= j < place ==> (#[trigger] before[j]).0 != message.to,
        place < before.len() ==> before[place].0 == message.to && after == before.update(
            place,
            (message.to, before[place].1.push(message)),
        ),
        place == before.len() ==> after == before.push((message.to, seq![message])),
    ensures
        groups_of(after, messages.push(message)),
{
    let all = messages.push(message);
    assert forall|i: int| 0 <= i < after.len() implies (#[trigger] after[i]).1 == for_peer(
        all,
        after[i].0,
    ) && after[i].1.len() > 0 by {
        for_peer_push(messages, message, after[i].0);
        if i < before.len() {
            assert(before[i].1 == for_peer(messages, before[i].0));
        } else {
            nothing_for_peer(messages, message.to);
            assert forall|k: int| 0 <= k < messages.len() implies (#[trigger] messages[k]).to
                != message.to by {
                let g = choose|g: int|
                    0 <= g < before.len() && (#[trigger] before[g]).0 == messages[k].to;
            }
            assert(for_peer(messages, message.to) =~= Seq::empty());
            assert(for_peer(all, message.to) =~= seq![message]);
        }
        if i < before.len() && i != place {
            assert(before[i].0 != message.to) by {
                if i > place {
                    assert(before[place].0 != before[i].0);
                }
            }
        }
    }
    assert forall|i: int, j: int| 0 <= i < j < after.len() implies (#[trigger] after[i]).0 != (
    #[trigger] after[j]).0 by {
        if j < before.len() {
            assert(before[i].0 != before[j].0);
        }
    }
    assert forall|k: int| 0 <= k < all.len() implies exists|i: int|
        0 <= i < after.len() && (#[trigger] after[i]).0 == (#[trigger] all[k]).to by {
        if k < messages.len() {
            assert(all[k] == messages[k]);
            let g = choose|g: int|
                0 <= g < before.len() && (#[trigger] before[g]).0 == messages[k].to;
            assert(after[g].0 == all[k].to);
        } else {
            assert(after[place].0 == message.to);
        }
    }
}

proof fn nothing_for_peer(messages: Seq<MessageView>, peer: NodeId)
    ensures
        (forall|k: int| 0 <= k < messages.len() ==> (#[trigger] messages[k]).to != peer)
            ==> for_peer(messages, peer).len() == 0,
    decreases messages.len(),
{
    reveal(Seq::filter);
    if messages.len() > 0 {
        nothing_for_peer(messages.drop_last(), peer);
        if forall|k: int| 0 <= k < messages.len() ==> (#[trigger] messages[k]).to != peer {
            assert(messages[messages.len() - 1].to != peer);
            assert forall|k: int| 0 <= k < messages.drop_last().len() implies (
            #[trigger] messages.drop_last()[k]).to != peer by {
                assert(messages.drop_last()[k] == messages[k]);
            }
        }
    }
}

/// The start of a request for the metrics.
pub open spec fn asks_for_metrics(request: Seq<u8>) -> bool {
    let wanted = vstd::utf8::encode_utf8("GET /metrics "@);
    request.len() >= wanted.len() && request.take(wanted.len() as int) == wanted
}

/// Whether a request asks for the metrics.
pub fn is_metrics_request(request: &[u8]) -> (asked: bool)
    ensures
        asked == asks_for_metrics(request@),
{
    let wanted = "GET /metrics ".as_bytes();
    if request.len() < wanted.len() {
        return false;
    }
    let mut i: usize = 0;
    while i < wanted.len()
        invariant
            i <= wanted@.len() <= request@.len(),
            wanted@ == vstd::utf8::encode_utf8("GET /metrics "@),
            forall|j: int| 0 <= j < i ==> request@[j] == wanted@[j],
        decreases wanted@.len() - i,
    {
        if request[i] != wanted[i] {
            assert(request@.take(wanted@.len() as int)[i as int] != wanted@[i as int]);
            return false;
        }
        i = i + 1;
    }
    assert(request@.take(wanted@.len() as int) =~= wanted@);
    true
}

/// An answer over HTTP.
pub open spec fn http_text(status: Seq<char>, content_type: Seq<char>, body: Seq<char>) -> Seq<
    char,
> {
    "HTTP/1.1 "@ + status + "\r\nContent-Type: "@ + content_type + "\r\nContent-Length: "@
        + crate::numbers::decimal(vstd::utf8::encode_utf8(body).len())
        + "\r\nConnection: close\r\n\r\n"@ + body
}

/// The answer to a request on the metrics port; the body is the rendered metrics
/// where they were asked for.
pub open spec fn metrics_answer(metrics: Option<Seq<char>>) -> Seq<char> {
    match metrics {
        Some(body) => http_text("200 OK"@, "text/plain; version=0.0.4; charset=utf-8"@, body),
        None => http_text("404 Not Found"@, "text/plain; charset=utf-8"@, "not found\n"@),
    }
}

fn http_response(status: &str, content_type: &str, body: &str) -> (text: String)
    ensures
        text@ == http_text(status@, content_type@, body@),
{
    let len: usize = body.as_bytes().len();
    let mut text = String::new();
    text.append("HTTP/1.1 ");
    text.append(status);
    text.append("\r\nContent-Type: ");
    text.append(content_type);
    text.append("\r\nContent-Length: ");
    crate::numbers::push_decimal(&mut text, len as u64);
    text.append("\r\nConnection: close\r\n\r\n");
    text.append(body);
    assert(text@ =~= http_text(status@, content_type@, body@));
    text
}

/// The answer to a request on the metrics port.
pub fn metrics_response(metrics: Option<&str>) -> (text: String)
    ensures
        text@ == metrics_answer(
            match metrics {
                Some(body) => Some(body@),
                None => None,
            },
        ),
{
    match metrics {
        Some(body) => http_response("200 OK", "text/plain; version=0.0.4; charset=utf-8", body),
        None => http_response("404 Not Found", "text/plain; charset=utf-8", "not found\n"),
    }
}

} // verus!
