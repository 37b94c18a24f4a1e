//! Serving clients: what is answered, when, and with what.
use crate::net::WireMessage;
use crate::node::PendingWrite;
use crate::node_state::NodeState;
use crate::observability::MetricsState;
use crate::server::{ActionView, ExchangeView, RuntimeState, SavedView, TreeSizes};
use crate::state_machine::{KvState, StateMachine, StateMachineError};
use crate::types::{
    ClientReplyView, ClientRequest, Command, LogEntry, LogIndex, MessageView, NodeId, Role, RpcView,
    Term,
};
use vstd::prelude::*;

verus! {

/// A command does to a key what a request asks for.
pub open spec fn carries_out(command: Command, request: ClientRequest) -> bool {
    match request {
        ClientRequest::Put { key, value } => command matches Command::Put { key: named, value: given }
            && named == key && given == value,
        ClientRequest::Delete { key } => command matches Command::Delete { key: named } && named
            == key,
        _ => false,
    }
}

/// A request asks for a write.
pub open spec fn is_write(request: ClientRequest) -> bool {
    request is Put || request is Delete
}

/// A leader's log has one more entry, at its end, of its term, that carries out a
/// request. The leader holds it itself, and every peer is sent what it lacks.
pub open spec fn is_logged<S>(
    before: NodeState<S>,
    request: ClientRequest,
    after: NodeState<S>,
    sent: Seq<MessageView>,
) -> bool {
    &&& after.log.len() == before.log.len() + 1
    &&& after.log.take(before.log.len() as int) == before.log
    &&& after.log.last().term == before.current_term
    &&& carries_out(after.log.last().command, request)
    &&& after.match_index.contains_key(before.id)
    &&& after.log.len() <= usize::MAX ==> after.match_index[before.id] == after.log.len()
    &&& forall|peer: NodeId|
        peer != before.id ==> {
            &&& #[trigger] after.match_index.contains_key(peer) == before.match_index.contains_key(
                peer,
            )
            &&& after.match_index[peer] == before.match_index[peer]
        }
    &&& after == (NodeState { log: after.log, match_index: after.match_index, ..before })
    &&& sent.len() == before.peers.len()
    &&& forall|i: int|
        0 <= i < sent.len() ==> crate::conduct::replication::brings_up_to_date(
            after,
            before.peers[i],
            #[trigger] sent[i],
        )
}

proof fn proposing_logs<S>(node: NodeState<S>, command: Command, request: ClientRequest)
    requires
        carries_out(command, request),
    ensures
        is_logged(node, request, node.proposed(command), node.proposed(command).appends()),
{
    let after = node.proposed(command);
    assert(after.log.take(node.log.len() as int) =~= node.log);
    assert forall|i: int|
        0 <= i < after.appends().len() implies crate::conduct::replication::brings_up_to_date(
        after,
        node.peers[i],
        #[trigger] after.appends()[i],
    ) by {
        crate::conduct::replication::append_brings_up_to_date(after, node.peers[i]);
    }
}

/// Only a leader takes writes: it logs the command and says that it is accepted. Any
/// other node refuses, names the leader that it knows, and does nothing.
pub proof fn only_leaders_take_writes<S: StateMachine>(
    before: NodeState<S>,
    request: ClientRequest,
    after: NodeState<S>,
    reply: ClientReplyView,
    sent: Seq<MessageView>,
)
    requires
        crate::node::serves(before, request, after, reply, sent),
        is_write(request),
    ensures
        reply.success == (before.role == Role::Leader),
        before.role == Role::Leader ==> {
            &&& is_logged(before, request, after, sent)
            &&& reply.leader_id == Some(before.id)
            &&& reply.response == Some("accepted"@)
        },
        before.role != Role::Leader ==> {
            &&& after == before
            &&& sent.len() == 0
            &&& reply.leader_id == before.leader_id
            &&& reply.response is None
        },
{
    if before.role == Role::Leader {
        match request {
            ClientRequest::Put { key, value } => {
                proposing_logs(before, Command::Put { key, value }, request);
            },
            ClientRequest::Delete { key } => {
                proposing_logs(before, Command::Delete { key }, request);
            },
            _ => {},
        }
    }
}

/// A write that is started is logged, and told by the place and term of its entry;
/// whoever does not lead refuses it, and names the leader that it knows.
pub proof fn started_writes_are_told_by_their_place<S>(
    before: NodeState<S>,
    request: ClientRequest,
    after: NodeState<S>,
    outcome: Result<(PendingWrite, Seq<MessageView>), ClientReplyView>,
)
    requires
        crate::node::begins_write(before, request, after, outcome),
    ensures
        outcome is Ok <==> before.role == Role::Leader && is_write(request),
        outcome matches Ok((write, sent)) ==> {
            &&& is_logged(before, request, after, sent)
            &&& write.index == before.log.len() + 1
            &&& write.term == before.current_term
        },
        outcome matches Err(reply) ==> {
            &&& after == before
            &&& !reply.success
            &&& reply.response is None
            &&& reply.leader_id == if before.role == Role::Leader {
                Some(before.id)
            } else {
                before.leader_id
            }
        },
{
    if outcome is Ok {
        match request {
            ClientRequest::Put { key, value } => {
                proposing_logs(before, Command::Put { key, value }, request);
            },
            ClientRequest::Delete { key } => {
                proposing_logs(before, Command::Delete { key }, request);
            },
            _ => {},
        }
    }
}

/// What a machine says of a key is what the client is told: its value, or that
/// there is none; a read that the machine fails is no success.
pub open spec fn tells<S: StateMachine>(machine: S, key: Seq<char>, reply: ClientReplyView) -> bool {
    exists|outcome: Result<Option<Seq<char>>, StateMachineError>|
        {
            &&& #[trigger] machine.reads(key, outcome)
            &&& reply.success == (outcome is Ok)
            &&& reply.response == match outcome {
                Ok(value) => value,
                Err(_) => None,
            }
        }
}

/// A read changes nothing and sends nothing. A leader that has committed the entry
/// that opened its term tells what its machine holds under the key; any other node,
/// and a leader before that, refuses and names the leader that it knows.
pub proof fn only_proven_leaders_serve_reads<S: StateMachine>(
    before: NodeState<S>,
    key: String,
    after: NodeState<S>,
    reply: ClientReplyView,
    sent: Seq<MessageView>,
)
    requires
        crate::node::serves(before, ClientRequest::Get { key }, after, reply, sent),
    ensures
        after == before,
        sent.len() == 0,
        before.role == Role::Leader ==> reply.leader_id == Some(before.id),
        before.role != Role::Leader ==> reply.leader_id == before.leader_id,
        if before.role == Role::Leader && before.commit_index >= before.term_start_index {
            tells(before.data, key@, reply)
        } else {
            !reply.success && reply.response is None
        },
{
    if before.role == Role::Leader && before.commit_index >= before.term_start_index {
        told_by_its_machine(before, key@, Some(before.id), reply);
    }
}

proof fn told_by_its_machine<S: StateMachine>(
    node: NodeState<S>,
    key: Seq<char>,
    leader: Option<NodeId>,
    reply: ClientReplyView,
)
    requires
        node.may_answer(key, leader, reply),
    ensures
        tells(node.data, key, reply),
        reply.leader_id == leader,
{
    let outcome = choose|outcome: Result<Option<Seq<char>>, StateMachineError>|
        {
            &&& #[trigger] node.data.reads(key, outcome)
            &&& reply == match outcome {
                Ok(value) => ClientReplyView { success: true, leader_id: leader, response: value },
                Err(_) => ClientReplyView { success: false, leader_id: leader, response: None },
            }
        };
    assert(node.data.reads(key, outcome));
}

/// A local read is answered by any node from its own machine.
pub proof fn any_node_serves_local_reads<S: StateMachine>(
    before: NodeState<S>,
    key: String,
    after: NodeState<S>,
    reply: ClientReplyView,
    sent: Seq<MessageView>,
)
    requires
        crate::node::serves(before, ClientRequest::LocalGet { key }, after, reply, sent),
    ensures
        after == before,
        sent.len() == 0,
        reply.leader_id == before.leader_id,
        tells(before.data, key@, reply),
{
    told_by_its_machine(before, key@, before.leader_id, reply);
}

/// Over a key-value machine, a read that is served tells exactly what the machine
/// holds under the key.
pub proof fn reads_find_what_is_stored(node: NodeState<KvState>, key: String)
    requires
        node.role == Role::Leader,
        node.commit_index >= node.term_start_index,
    ensures
        ({
            let (after, reply, sent) = node.served(ClientRequest::Get { key });
            &&& after == node && sent.len() == 0
            &&& reply.success && reply.leader_id == Some(node.id)
            &&& node.data.data.contains_key(key@) ==> reply.response == Some(node.data.data[key@])
            &&& !node.data.data.contains_key(key@) ==> reply.response is None
        }),
{
}

/// Commands that say the same.
pub open spec fn same_words(a: Command, b: Command) -> bool {
    match (a, b) {
        (Command::Noop, Command::Noop) => true,
        (Command::Put { key, value }, Command::Put { key: other, value: given }) => key@ == other@
            && value@ == given@,
        (Command::Delete { key }, Command::Delete { key: other }) => key@ == other@,
        _ => false,
    }
}

/// What was saved of a node is what it must not forget.
pub open spec fn nothing_to_save<S>(saved: SavedView, node: NodeState<S>) -> bool {
    &&& saved.current_term == node.current_term
    &&& saved.voted_for == node.voted_for
    &&& saved.commit_index == node.commit_index
    &&& saved.log.len() == node.log.len()
    &&& forall|i: int|
        0 <= i < node.log.len() ==> (#[trigger] saved.log[i]).term == node.log[i].term
            && same_words(saved.log[i].command, node.log[i].command)
}

/// The action that saves a node where there is anything to save: exactly its term,
/// vote, log and commit index.
pub open spec fn saves<S>(action: ActionView, saved: SavedView, node: NodeState<S>) -> bool {
    if nothing_to_save(saved, node) {
        action == ActionView::Persist(None)
    } else {
        action matches ActionView::Persist(Some(state)) && state.current_term == node.current_term
            && state.voted_for == node.voted_for && state.log == node.log && state.commit_index
            == node.commit_index
    }
}

proof fn unsaved_is_saved<S>(runtime: RuntimeState<S>)
    ensures
        saves(ActionView::Persist(runtime.unsaved()), runtime.saved, runtime.node),
{
    same_entries_say_the_same(runtime.node.log, runtime.saved.log);
}

/// Logs that are taken for the same have the same terms and say the same.
pub proof fn same_entries_say_the_same(log: Seq<LogEntry>, saved: Seq<LogEntry>)
    ensures
        crate::storage::same_entries(log, saved) == (saved.len() == log.len() && forall|i: int|
            0 <= i < log.len() ==> (#[trigger] saved[i]).term == log[i].term && same_words(
                saved[i].command,
                log[i].command,
            )),
{
    if crate::storage::same_entries(log, saved) {
        assert forall|i: int| 0 <= i < log.len() implies (#[trigger] saved[i]).term == log[i].term
            && same_words(saved[i].command, log[i].command) by {
            assert(log[i].term == saved[i].term);
        }
    } else if saved.len() == log.len() {
        let i = choose|i: int|
            0 <= i < log.len() && !((#[trigger] log[i]).term == saved[i].term
                && crate::storage::command_view(log[i].command) == crate::storage::command_view(
                saved[i].command,
            ));
        let a = saved[i];
        assert(!(a.term == log[i].term && same_words(a.command, log[i].command)));
    }
}

/// When time passes in a running node, the node ticks; what it then must not forget
/// is to be saved, and after that its messages are sent.
pub proof fn ticks_are_saved_and_sent<S>(runtime: RuntimeState<S>, now_ms: u64)
    ensures
        ({
            let (after, exchange, action) = runtime.ticked(now_ms);
            &&& after == (RuntimeState { node: runtime.node.tick(now_ms).0, ..runtime })
            &&& exchange == ExchangeView::Answering(runtime.node.tick(now_ms).1)
            &&& saves(action, runtime.saved, after.node)
        }),
{
    unsaved_is_saved(runtime.ticked(now_ms).0);
}

/// A peer's message is handled by the node of a running node; what it then must not
/// forget is to be saved, and after that the answers are sent.
pub proof fn messages_are_saved_and_answered<S: StateMachine>(
    before: RuntimeState<S>,
    message: crate::types::Message,
    now_ms: u64,
    after: RuntimeState<S>,
    exchange: ExchangeView,
    action: ActionView,
)
    requires
        crate::server::receives(
            before,
            WireMessage::Peer(message),
            now_ms,
            after,
            exchange,
            action,
        ),
    ensures
        after == (RuntimeState { node: after.node, ..before }),
        exchange matches ExchangeView::Answering(sent) && crate::node::handles(
            before.node,
            message.from,
            message.rpc@,
            now_ms,
            after.node,
            sent,
        ),
        saves(action, before.saved, after.node),
{
    unsaved_is_saved(after);
}

/// A client's write is logged by a leader and waits to be saved, told by its place
/// and term; any other node refuses it at once and names the leader that it knows.
pub proof fn writes_are_logged_and_saved<S: StateMachine>(
    before: RuntimeState<S>,
    request: ClientRequest,
    now_ms: u64,
    after: RuntimeState<S>,
    exchange: ExchangeView,
    action: ActionView,
)
    requires
        crate::server::receives(
            before,
            WireMessage::ClientRequest(request),
            now_ms,
            after,
            exchange,
            action,
        ),
        is_write(request),
        after.node.log.len() <= usize::MAX,
    ensures
        before.node.role == Role::Leader ==> {
            &&& exchange matches ExchangeView::WriteSaving(write, sent)
            &&& is_logged(before.node, request, after.node, sent)
            &&& write.index == before.node.log.len() + 1
            &&& write.term == before.node.current_term
            &&& saves(action, before.saved, after.node)
            &&& after == (RuntimeState { node: after.node, ..before })
        },
        before.node.role != Role::Leader ==> {
            &&& after == before
            &&& exchange == ExchangeView::Over
            &&& action matches ActionView::Reply { reply, written }
            &&& !written && !reply.success && reply.response is None
            &&& reply.leader_id == before.node.leader_id
        },
{
    if before.node.role == Role::Leader {
        match request {
            ClientRequest::Put { key, value } => {
                proposing_logs(before.node, Command::Put { key, value }, request);
            },
            ClientRequest::Delete { key } => {
                proposing_logs(before.node, Command::Delete { key }, request);
            },
            _ => {},
        }
        unsaved_is_saved(after);
    }
}

/// A client's read is served by the node of a running node, without a change; the
/// node is saved, if that is due, and the reply goes out after that.
pub proof fn reads_are_served<S: StateMachine>(
    before: RuntimeState<S>,
    request: ClientRequest,
    now_ms: u64,
    after: RuntimeState<S>,
    exchange: ExchangeView,
    action: ActionView,
)
    requires
        crate::server::receives(
            before,
            WireMessage::ClientRequest(request),
            now_ms,
            after,
            exchange,
            action,
        ),
        !is_write(request),
    ensures
        after == before,
        exchange matches ExchangeView::ReadSaving(reply, sent) && sent.len() == 0
            && crate::node::serves(before.node, request, before.node, reply, sent),
        saves(action, before.saved, before.node),
{
    unsaved_is_saved(after);
    assert(crate::node::command_of(request) is None);
}

/// A reply is nothing that a server is sent: it is rejected.
pub proof fn servers_are_sent_no_replies<S: StateMachine>(
    before: RuntimeState<S>,
    reply: crate::types::ClientReply,
    now_ms: u64,
    after: RuntimeState<S>,
    exchange: ExchangeView,
    action: ActionView,
)
    requires
        crate::server::receives(
            before,
            WireMessage::ClientReply(reply),
            now_ms,
            after,
            exchange,
            action,
        ),
    ensures
        after == before,
        exchange == ExchangeView::Over,
        action == ActionView::Reject,
{
}

/// A runtime whose node is the same, and of which what was saved is what the node
/// must not forget where saving went well, and what it was where it did not.
pub open spec fn remembers_saving<S>(
    before: RuntimeState<S>,
    saved: bool,
    after: RuntimeState<S>,
) -> bool {
    &&& after.node == before.node
    &&& saved ==> nothing_to_save(after.saved, after.node)
    &&& !saved ==> after.saved == before.saved
    &&& nothing_to_save(before.saved, before.node) ==> after.saved == before.saved
}

/// The metrics of a runtime show its node as it is after saving was tried.
pub open spec fn shows_saved<S>(
    before: RuntimeState<S>,
    after: RuntimeState<S>,
    sizes: TreeSizes,
) -> bool {
    after == (RuntimeState { saved: after.saved, ..before }).refreshed(sizes)
}

proof fn saving_is_remembered<S>(runtime: RuntimeState<S>, saved: bool)
    ensures
        remembers_saving(runtime, saved, runtime.persisted(saved)),
        runtime.persisted(saved) == (RuntimeState {
            saved: runtime.persisted(saved).saved,
            ..runtime
        }),
{
    unsaved_is_saved(runtime);
}

/// The answers to a tick or a peer are sent once saving was tried, whether or not it
/// went well, and then the exchange is done.
pub proof fn answers_are_sent_after_saving<S>(
    runtime: RuntimeState<S>,
    messages: Seq<MessageView>,
    saved: bool,
    sizes: TreeSizes,
    elapsed_ms: u64,
)
    ensures
        ({
            let (kept, exchange, action) = runtime.after_saving(
                ExchangeView::Answering(messages),
                saved,
                sizes,
            );
            let (last, end, done) = kept.after_going_on(exchange, elapsed_ms, sizes);
            &&& action == ActionView::Send(messages)
            &&& remembers_saving(runtime, saved, kept)
            &&& shows_saved(runtime, kept, sizes)
            &&& last == kept
            &&& end == ExchangeView::Over
            &&& done == ActionView::Finish
        }),
{
    saving_is_remembered(runtime, saved);
}

/// A read that is saved is answered, once its messages are sent, with the very reply
/// that the node gave. Where saving failed, the answer is no success and tells
/// nothing but the leader.
pub proof fn reads_are_answered_with_the_nodes_reply<S>(
    runtime: RuntimeState<S>,
    reply: ClientReplyView,
    messages: Seq<MessageView>,
    saved: bool,
    sizes: TreeSizes,
    elapsed_ms: u64,
)
    ensures
        ({
            let (kept, exchange, action) = runtime.after_saving(
                ExchangeView::ReadSaving(reply, messages),
                saved,
                sizes,
            );
            let (last, end, answer) = kept.after_going_on(exchange, elapsed_ms, sizes);
            &&& action == ActionView::Send(messages)
            &&& remembers_saving(runtime, saved, kept)
            &&& shows_saved(runtime, kept, sizes)
            &&& last == kept
            &&& end == ExchangeView::Over
            &&& answer matches ActionView::Reply { reply: given, written }
            &&& !written
            &&& saved ==> given == reply
            &&& !saved ==> !given.success && given.response is None && given.leader_id
                == reply.leader_id
        }),
{
    saving_is_remembered(runtime, saved);
}

/// So a client that asks a proven leader for a key is told the key's value.
pub proof fn clients_read_what_is_stored<S: StateMachine>(
    before: RuntimeState<S>,
    key: String,
    now_ms: u64,
    middle: RuntimeState<S>,
    exchange: ExchangeView,
    action: ActionView,
    sizes: TreeSizes,
    elapsed_ms: u64,
)
    requires
        crate::server::receives(
            before,
            WireMessage::ClientRequest(ClientRequest::Get { key }),
            now_ms,
            middle,
            exchange,
            action,
        ),
        before.node.role == Role::Leader,
        before.node.commit_index >= before.node.term_start_index,
    ensures
        ({
            let (kept, next, _) = middle.after_saving(exchange, true, sizes);
            let (last, end, answer) = kept.after_going_on(next, elapsed_ms, sizes);
            &&& answer matches ActionView::Reply { reply, .. }
            &&& reply.leader_id == Some(before.node.id)
            &&& tells(before.node.data, key@, reply)
        }),
{
    let request = ClientRequest::Get { key };
    reads_are_served(before, request, now_ms, middle, exchange, action);
    let reply = exchange->ReadSaving_0;
    let sent = exchange->ReadSaving_1;
    only_proven_leaders_serve_reads(before.node, key, before.node, reply, sent);
    reads_are_answered_with_the_nodes_reply(middle, reply, sent, true, sizes, elapsed_ms);
}

/// A write that is saved is sent to the peers and waits; one that could not be saved
/// is refused by the node in its own name, and nothing of it is sent.
pub proof fn writes_wait_once_they_are_saved<S>(
    runtime: RuntimeState<S>,
    write: PendingWrite,
    messages: Seq<MessageView>,
    saved: bool,
    sizes: TreeSizes,
)
    ensures
        ({
            let (kept, exchange, action) = runtime.after_saving(
                ExchangeView::WriteSaving(write, messages),
                saved,
                sizes,
            );
            &&& remembers_saving(runtime, saved, kept)
            &&& saved ==> action == ActionView::Send(messages) && exchange
                == ExchangeView::Waiting(write) && shows_saved(runtime, kept, sizes)
            &&& !saved ==> {
                &&& exchange == ExchangeView::Over
                &&& action matches ActionView::Reply { reply, written }
                &&& !written && !reply.success && reply.response is None
                &&& reply.leader_id == Some(runtime.node.id)
            }
        }),
{
    saving_is_remembered(runtime, saved);
}

/// A write is where it was put: in its place, of its term, committed and applied.
pub open spec fn is_in_effect<S>(node: NodeState<S>, write: PendingWrite) -> bool {
    &&& write.index <= node.commit_index
    &&& write.index <= node.last_applied
    &&& if write.index == 0 {
        write.term == 0
    } else {
        write.index <= node.log.len() && node.log[write.index - 1].term == write.term
    }
}

/// A waiting write is answered with success exactly if it is in effect before 800
/// milliseconds are over, and that is counted as a write. It is given up, with the
/// leader that the node knows, when the time is over, or when the node no longer
/// leads the write's term. Else it is looked after again in 10 milliseconds.
pub proof fn writes_are_answered_once_they_are_in_effect<S>(
    runtime: RuntimeState<S>,
    write: PendingWrite,
    elapsed_ms: u64,
    sizes: TreeSizes,
)
    ensures
        ({
            let (after, exchange, action) = runtime.after_going_on(
                ExchangeView::Waiting(write),
                elapsed_ms,
                sizes,
            );
            let node = runtime.node;
            let leads = node.role == Role::Leader && node.current_term == write.term;
            let served = elapsed_ms < 800 && is_in_effect(node, write);
            let waits = elapsed_ms < 800 && !is_in_effect(node, write) && leads;
            &&& after.node == node
            &&& after.saved == runtime.saved
            &&& served ==> {
                &&& exchange == ExchangeView::Over
                &&& action matches ActionView::Reply { reply, written }
                &&& written && reply.success
                &&& reply.leader_id == Some(node.id)
                &&& reply.response == Some("committed"@)
                &&& after.metrics.writes == runtime.metrics.writes.wrapping_add(1)
            }
            &&& waits ==> {
                &&& exchange == ExchangeView::Waiting(write)
                &&& action == ActionView::Pause(10)
            }
            &&& !served && !waits ==> {
                &&& exchange == ExchangeView::Over
                &&& action matches ActionView::Reply { reply, written }
                &&& !written && !reply.success && reply.response is None
                &&& reply.leader_id == node.leader_id
            }
            &&& !served ==> after.metrics.writes == runtime.metrics.writes
            &&& served ==> after == (RuntimeState {
                metrics: MetricsState {
                    writes: runtime.metrics.writes.wrapping_add(1),
                    ..runtime.metrics
                },
                ..runtime
            }).refreshed(sizes)
            &&& waits || elapsed_ms >= 800 ==> after == runtime.refreshed(sizes)
            &&& !served && !waits && elapsed_ms < 800 ==> after == runtime
        }),
{
    crate::conduct::metrics::refreshing_shows_the_node(runtime, sizes);
    crate::conduct::metrics::refreshing_shows_the_node(runtime.counted(), sizes);
}

/// A write that a leader started, and that then is committed and applied in its
/// place, is answered with success: taking it, saving it and waiting for it go
/// together.
pub proof fn a_committed_write_is_reported<S: StateMachine>(
    before: RuntimeState<S>,
    request: ClientRequest,
    now_ms: u64,
    taken: RuntimeState<S>,
    exchange: ExchangeView,
    action: ActionView,
    later: RuntimeState<S>,
    elapsed_ms: u64,
    sizes: TreeSizes,
)
    requires
        crate::server::receives(
            before,
            WireMessage::ClientRequest(request),
            now_ms,
            taken,
            exchange,
            action,
        ),
        is_write(request),
        before.node.role == Role::Leader,
        taken.node.log.len() <= usize::MAX,
        later.node.log.len() > before.node.log.len(),
        later.node.log[before.node.log.len() as int] == taken.node.log.last(),
        later.node.commit_index > before.node.log.len(),
        later.node.last_applied > before.node.log.len(),
        elapsed_ms < 800,
    ensures
        ({
            let waiting = taken.after_saving(exchange, true, sizes).1;
            let answer = later.after_going_on(waiting, elapsed_ms, sizes).2;
            answer matches ActionView::Reply { reply, .. } && reply.success
        }),
{
    writes_are_logged_and_saved(before, request, now_ms, taken, exchange, action);
    let write = exchange->WriteSaving_0;
    let sent = exchange->WriteSaving_1;
    writes_wait_once_they_are_saved(taken, write, sent, true, sizes);
    writes_are_answered_once_they_are_in_effect(later, write, elapsed_ms, sizes);
}

} // verus!
