//! What a node keeps on disk.
use crate::node::Node;
use crate::node_state::NodeState;
use crate::state_machine::{KvState, StateMachine};
use crate::text::same_text;
use crate::types::{Command, LogEntry, LogIndex, NodeId, Term};
use vstd::prelude::*;
use vstd::string::*;

verus! {

/// The state that must survive a restart.
#[derive(Clone, Debug, PartialEq, Eq)]
pub struct DurableState {
    pub current_term: Term,
    pub voted_for: Option<NodeId>,
    pub log: Vec<LogEntry>,
    pub commit_index: LogIndex,
}

/// The content of a command.
pub enum CommandView {
    Noop,
    Put(Seq<char>, Seq<char>),
    Delete(Seq<char>),
}

/// The content of a command.
pub open spec fn command_view(command: Command) -> CommandView {
    match command {
        Command::Noop => CommandView::Noop,
        Command::Put { key, value } => CommandView::Put(key@, value@),
        Command::Delete { key } => CommandView::Delete(key@),
    }
}

/// Entries with the same terms and the same commands.
pub open spec fn same_entries(a: Seq<LogEntry>, b: Seq<LogEntry>) -> bool {
    a.len() == b.len() && forall|i: int|
        0 <= i < a.len() ==> (#[trigger] a[i]).term == b[i].term && command_view(a[i].command)
            == command_view(b[i].command)
}

impl DurableState {
    /// The state holds exactly what a node must not forget.
    pub open spec fn is_of<D>(&self, node: NodeState<D>) -> bool {
        &&& self.current_term == node.current_term
        &&& self.voted_for == node.voted_for
        &&& self.log@ == node.log
        &&& self.commit_index == node.commit_index
    }

    /// A node differs from what was saved of it.
    pub open spec fn is_stale<D>(&self, node: NodeState<D>) -> bool {
        ||| node.current_term != self.current_term
        ||| node.voted_for != self.voted_for
        ||| node.commit_index != self.commit_index
        ||| !same_entries(node.log, self.log@)
    }

    pub fn from_node<S: StateMachine>(node: &Node<S>) -> (state: Self)
        ensures
            state.is_of(node@),
    {
        let entries = node.log();
        let mut log: Vec<LogEntry> = Vec::new();
        let mut i: usize = 0;
        while i < entries.len()
            invariant
                i <= entries@.len(),
                log@ == entries@.take(i as int),
            decreases entries@.len() - i,
        {
            log.push(entries[i].clone());
            assert(entries@.take(i + 1) =~= entries@.take(i as int).push(entries@[i as int]));
            i = i + 1;
        }
        assert(entries@.take(entries@.len() as int) =~= entries@);
        DurableState {
            current_term: node.current_term(),
            voted_for: node.voted_for(),
            log,
            commit_index: node.commit_index(),
        }
    }
}

fn same_command(a: &Command, b: &Command) -> (same: bool)
    ensures
        same == (command_view(*a) == command_view(*b)),
{
    match (a, b) {
        (Command::Noop, Command::Noop) => true,
        (Command::Put { key, value }, Command::Put { key: other, value: given }) => same_text(
            key.as_str(),
            other.as_str(),
        ) && same_text(value.as_str(), given.as_str()),
        (Command::Delete { key }, Command::Delete { key: other }) => same_text(
            key.as_str(),
            other.as_str(),
        ),
        _ => false,
    }
}

fn same_log(a: &[LogEntry], b: &[LogEntry]) -> (same: bool)
    ensures
        same == same_entries(a@, b@),
{
    if a.len() != b.len() {
        return false;
    }
    let mut i: usize = 0;
    while i < a.len()
        invariant
            i <= a@.len(),
            a@.len() == b@.len(),
            forall|j: int|
                0 <= j < i ==> (#[trigger] a@[j]).term == b@[j].term && command_view(a@[j].command)
                    == command_view(b@[j].command),
        decreases a@.len() - i,
    {
        if a[i].term != b[i].term || !same_command(&a[i].command, &b[i].command) {
            return false;
        }
        i = i + 1;
    }
    true
}

/// Whether a node has to be saved, given what was saved of it last.
pub fn needs_save<S: StateMachine>(node: &Node<S>, saved: &DurableState) -> (needed: bool)
    ensures
        needed == saved.is_stale(node@),
{
    node.current_term() != saved.current_term || node.voted_for() != saved.voted_for
        || node.commit_index() != saved.commit_index || !same_log(
        node.log(),
        saved.log.as_slice(),
    )
}

/// A node over a key-value machine as it starts: from what was saved of it, or new
/// where nothing was.
pub open spec fn loaded_kv(
    state: Option<DurableState>,
    id: NodeId,
    peers: Seq<NodeId>,
) -> NodeState<KvState> {
    match state {
        Some(state) => NodeState {
            current_term: state.current_term,
            voted_for: state.voted_for,
            log: state.log@,
            commit_index: crate::node_state::least(
                state.commit_index,
                state.log@.len() as LogIndex,
            ),
            ..crate::node::fresh_kv(id, peers)
        }.settled(),
        None => crate::node::fresh_kv(id, peers),
    }
}

/// Whether a node may start so over a given machine.
pub open spec fn loads<S: StateMachine>(
    state: Option<DurableState>,
    id: NodeId,
    peers: Seq<NodeId>,
    state_machine: S,
    node: NodeState<S>,
) -> bool {
    match state {
        Some(state) => crate::node::restored(
            id,
            peers,
            state.current_term,
            state.voted_for,
            state.log@,
            state.commit_index,
            state_machine,
        ).settles(node),
        None => node == crate::node::fresh(id, peers, state_machine),
    }
}

/// A node as it starts: from what was saved of it, or new where nothing was.
pub fn load_node(state: Option<DurableState>, id: NodeId, peers: Vec<NodeId>) -> (node: Node)
    requires
        id < u64::MAX,
        peers@.len() < usize::MAX,
    ensures
        node@.wf(),
        node.kv() == loaded_kv(state, id, peers@),
{
    match state {
        Some(state) => Node::from_parts(
            id,
            peers,
            state.current_term,
            state.voted_for,
            state.log,
            state.commit_index,
        ),
        None => Node::new(id, peers),
    }
}

/// A node as it starts over a given state machine.
pub fn load_node_with_state_machine<S: StateMachine>(
    state: Option<DurableState>,
    id: NodeId,
    peers: Vec<NodeId>,
    state_machine: S,
) -> (node: Node<S>)
    requires
        id < u64::MAX,
        peers@.len() < usize::MAX,
    ensures
        node@.wf(),
        loads(state, id, peers@, state_machine, node@),
{
    match state {
        Some(state) => Node::from_parts_with_state_machine(
            id,
            peers,
            state.current_term,
            state.voted_for,
            state.log,
            state.commit_index,
            state_machine,
        ),
        None => Node::new_with_state_machine(id, peers, state_machine),
    }
}

/// What is written of a node when it is saved.
pub fn save_node<S: StateMachine>(node: &Node<S>) -> (state: DurableState)
    ensures
        state.is_of(node@),
{
    DurableState::from_node(node)
}

/// The name of the file that is written before it is renamed to a state file.
pub open spec fn draft_name(name: Option<Seq<char>>) -> Seq<char> {
    "."@ + match name {
        Some(name) => name,
        None => "state.bin"@,
    } + ".tmp"@
}

/// The name of the file that is written before it is renamed to a state file; a
/// path without a name stands for one to `state.bin`.
pub fn draft_file_name(name: Option<&str>) -> (draft: String)
    ensures
        draft@ == draft_name(
            match name {
                Some(name) => Some(name@),
                None => None,
            },
        ),
{
    let mut draft = String::new();
    draft.append(".");
    match name {
        Some(name) => {
            draft.append(name);
        },
        None => {
            draft.append("state.bin");
        },
    }
    draft.append(".tmp");
    assert(draft@ =~= draft_name(
        match name {
            Some(name) => Some(name@),
            None => None,
        },
    ));
    draft
}

/// A node that is saved and loaded again forgets nothing it must not forget, and
/// its machine ends up with the same data.
pub proof fn loading_restarts(node: NodeState<KvState>)
    requires
        crate::safety::laws::in_line(node),
        node.log.len() <= usize::MAX,
    ensures
        crate::safety::laws::restarted(
            node,
            NodeState {
                current_term: node.current_term,
                voted_for: node.voted_for,
                log: node.log,
                commit_index: crate::node_state::least(
                    node.commit_index,
                    node.log.len() as LogIndex,
                ),
                ..crate::node::fresh_kv(node.id, node.peers)
            }.settled(),
        ),
{
    let start = NodeState {
        current_term: node.current_term,
        voted_for: node.voted_for,
        log: node.log,
        commit_index: crate::node_state::least(node.commit_index, node.log.len() as LogIndex),
        ..crate::node::fresh_kv(node.id, node.peers)
    };
    assert(crate::safety::laws::commands(node.log, 0) =~= Seq::empty());
    assert(start.data =~= crate::safety::laws::replayed(node.log, 0));
    crate::safety::laws::settling_replays(start);
    crate::node_laws::settled_keeps(start);
}

} // verus!
