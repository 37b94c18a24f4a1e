//! The vocabulary of the protocol: identifiers, log entries, messages and
//! client requests.
use vstd::prelude::*;

verus! {

/// Identifies a member of the cluster.
pub type NodeId = usize;

/// A Raft term.
pub type Term = u64;

/// A one-based position in the replicated log; zero stands before the log.
pub type LogIndex = usize;

/// The part a node plays in its current term.
#[derive(Clone, Copy, Debug, PartialEq, Eq, Structural)]
pub enum Role {
    Follower,
    Candidate,
    Leader,
}

/// What a log entry asks of the state machine.
#[derive(Debug, PartialEq, Eq)]
pub enum Command {
    Noop,
    Put { key: String, value: String },
    Delete { key: String },
}

impl Clone for Command {
    fn clone(&self) -> (copy: Self)
        ensures
            copy == *self,
    {
        match self {
            Command::Noop => Command::Noop,
            Command::Put { key, value } => Command::Put { key: key.clone(), value: value.clone() },
            Command::Delete { key } => Command::Delete { key: key.clone() },
        }
    }
}

/// A command together with the term of the leader that proposed it.
#[derive(Debug, PartialEq, Eq)]
pub struct LogEntry {
    pub term: Term,
    pub command: Command,
}

impl Clone for LogEntry {
    fn clone(&self) -> (copy: Self)
        ensures
            copy == *self,
    {
        LogEntry { term: self.term, command: self.command.clone() }
    }
}

/// A candidate's request for a vote.
#[derive(Clone, Copy, Debug, PartialEq, Eq)]
pub struct RequestVote {
    pub term: Term,
    pub candidate_id: NodeId,
    pub last_log_index: LogIndex,
    pub last_log_term: Term,
}

/// The answer to a [`RequestVote`].
#[derive(Clone, Copy, Debug, PartialEq, Eq)]
pub struct RequestVoteReply {
    pub term: Term,
    pub vote_granted: bool,
}

/// A leader's replication request; without entries it is a heartbeat.
#[derive(Clone, Debug, PartialEq, Eq)]
pub struct AppendEntries {
    pub term: Term,
    pub leader_id: NodeId,
    pub prev_log_index: LogIndex,
    pub prev_log_term: Term,
    pub entries: Vec<LogEntry>,
    pub leader_commit: LogIndex,
}

/// The answer to an [`AppendEntries`].
#[derive(Clone, Copy, Debug, PartialEq, Eq)]
pub struct AppendEntriesReply {
    pub term: Term,
    pub success: bool,
    pub match_index: LogIndex,
}

/// What peers say to one another.
#[derive(Clone, Debug, PartialEq, Eq)]
pub enum Rpc {
    RequestVote(RequestVote),
    RequestVoteReply(RequestVoteReply),
    AppendEntries(AppendEntries),
    AppendEntriesReply(AppendEntriesReply),
}

/// An [`Rpc`] on its way from one node to another.
#[derive(Clone, Debug, PartialEq, Eq)]
pub struct Message {
    pub from: NodeId,
    pub to: NodeId,
    pub rpc: Rpc,
}

/// What a client asks of a node.
#[derive(Debug, PartialEq, Eq)]
pub enum ClientRequest {
    Put { key: String, value: String },
    Delete { key: String },
    /// A read that only a leader which has proved its leadership may serve.
    Get { key: String },
    /// A read of the node's own applied state, whatever its role.
    LocalGet { key: String },
}

impl Clone for ClientRequest {
    fn clone(&self) -> (copy: Self)
        ensures
            copy == *self,
    {
        match self {
            ClientRequest::Put { key, value } => ClientRequest::Put {
                key: key.clone(),
                value: value.clone(),
            },
            ClientRequest::Delete { key } => ClientRequest::Delete { key: key.clone() },
            ClientRequest::Get { key } => ClientRequest::Get { key: key.clone() },
            ClientRequest::LocalGet { key } => ClientRequest::LocalGet { key: key.clone() },
        }
    }
}

/// What a node answers a client.
#[derive(Clone, Debug, PartialEq, Eq)]
pub struct ClientReply {
    pub success: bool,
    pub leader_id: Option<NodeId>,
    pub response: Option<String>,
}

/// The mathematical content of an [`AppendEntries`].
#[verifier::ext_equal]
pub struct AppendEntriesView {
    pub term: Term,
    pub leader_id: NodeId,
    pub prev_log_index: LogIndex,
    pub prev_log_term: Term,
    pub entries: Seq<LogEntry>,
    pub leader_commit: LogIndex,
}

/// The mathematical content of an [`Rpc`].
#[verifier::ext_equal]
pub enum RpcView {
    RequestVote(RequestVote),
    RequestVoteReply(RequestVoteReply),
    AppendEntries(AppendEntriesView),
    AppendEntriesReply(AppendEntriesReply),
}

/// The mathematical content of a [`Message`].
#[verifier::ext_equal]
pub struct MessageView {
    pub from: NodeId,
    pub to: NodeId,
    pub rpc: RpcView,
}

/// The mathematical content of a [`ClientReply`].
#[verifier::ext_equal]
pub struct ClientReplyView {
    pub success: bool,
    pub leader_id: Option<NodeId>,
    pub response: Option<Seq<char>>,
}

impl View for AppendEntries {
    type V = AppendEntriesView;

    open spec fn view(&self) -> AppendEntriesView {
        AppendEntriesView {
            term: self.term,
            leader_id: self.leader_id,
            prev_log_index: self.prev_log_index,
            prev_log_term: self.prev_log_term,
            entries: self.entries@,
            leader_commit: self.leader_commit,
        }
    }
}

impl View for Rpc {
    type V = RpcView;

    open spec fn view(&self) -> RpcView {
        match *self {
            Rpc::RequestVote(request) => RpcView::RequestVote(request),
            Rpc::RequestVoteReply(reply) => RpcView::RequestVoteReply(reply),
            Rpc::AppendEntries(request) => RpcView::AppendEntries(request@),
            Rpc::AppendEntriesReply(reply) => RpcView::AppendEntriesReply(reply),
        }
    }
}

impl View for Message {
    type V = MessageView;

    open spec fn view(&self) -> MessageView {
        MessageView { from: self.from, to: self.to, rpc: self.rpc@ }
    }
}

impl DeepView for Message {
    type V = MessageView;

    open spec fn deep_view(&self) -> MessageView {
        self@
    }
}

impl View for ClientReply {
    type V = ClientReplyView;

    open spec fn view(&self) -> ClientReplyView {
        ClientReplyView {
            success: self.success,
            leader_id: self.leader_id,
            response: match self.response {
                Some(text) => Some(text@),
                None => None,
            },
        }
    }
}

} // verus!
