//! Replication: what a leader sends, what a follower takes, and what is committed.
use crate::node_state::NodeState;
use crate::state_machine::{KvState, StateMachine, StateMachineError};
use crate::types::{
    AppendEntriesReply, AppendEntriesView, Command, LogEntry, LogIndex, MessageView, NodeId, Role,
    RpcView, Term,
};
use vstd::prelude::*;

verus! {

/// A log has an entry of this term in this place; before the log stands term zero.
pub open spec fn has_term(log: Seq<LogEntry>, index: int, term: Term) -> bool {
    if index == 0 {
        term == 0
    } else {
        index <= log.len() && log[index - 1].term == term
    }
}

/// A message that brings a peer up to date: it comes from the leader, in its term,
/// with all entries from the one that the peer needs next, or from the end of the
/// log where nothing is known of the peer; it tells the term of the entry before,
/// and how far the leader has committed.
pub open spec fn brings_up_to_date<D>(node: NodeState<D>, peer: NodeId, message: MessageView) -> bool {
    let next = if node.next_index.contains_key(peer) {
        node.next_index[peer] as int
    } else {
        (node.log.len() + 1) as int
    };
    let prev = if next == 0 {
        0
    } else {
        next - 1
    };
    &&& message.from == node.id
    &&& message.to == peer
    &&& message.rpc matches RpcView::AppendEntries(request)
    &&& request.term == node.current_term
    &&& request.leader_id == node.id
    &&& node.log.len() < usize::MAX ==> {
        &&& request.prev_log_index == prev
        &&& prev <= node.log.len() ==> has_term(node.log, prev, request.prev_log_term)
            && node.log.take(prev) + request.entries == node.log
        &&& prev > node.log.len() ==> request.prev_log_term == 0 && request.entries.len() == 0
    }
    &&& request.leader_commit == node.commit_index
}

pub proof fn append_brings_up_to_date<D>(node: NodeState<D>, peer: NodeId)
    ensures
        brings_up_to_date(node, peer, node.append_for(peer)),
{
    let request = node.append_for(peer).rpc->AppendEntries_0;
    let prev = request.prev_log_index as int;
    if prev <= node.log.len() {
        assert(node.log.take(prev) + node.log.skip(prev) =~= node.log);
    }
}

/// A replication request of an earlier term is refused: the reply tells the node's
/// term and the end of its log, and nothing changes.
pub proof fn earlier_terms_are_refused<D>(
    node: NodeState<D>,
    from: NodeId,
    request: AppendEntriesView,
    now_ms: u64,
)
    requires
        request.term < node.current_term,
        node.log.len() <= usize::MAX,
    ensures
        ({
            let (after, sent) = node.on_message(from, RpcView::AppendEntries(request), now_ms);
            &&& after == node
            &&& sent.len() == 1
            &&& sent[0].from == node.id && sent[0].to == from
            &&& sent[0].rpc == RpcView::AppendEntriesReply(
                AppendEntriesReply {
                    term: node.current_term,
                    success: false,
                    match_index: node.log.len() as LogIndex,
                },
            )
            &&& !node.applies_after(RpcView::AppendEntries(request))
        }),
{
}

/// Any replication request whose term is not below the node's makes it a follower
/// of that term that knows its leader, whatever its role, term and vote were. It
/// waits anew before it campaigns. A vote is kept only by a node that followed in
/// that term already.
pub proof fn followers_know_their_leader<D>(
    node: NodeState<D>,
    from: NodeId,
    request: AppendEntriesView,
    now_ms: u64,
)
    requires
        request.term >= node.current_term,
        now_ms + 300 <= u64::MAX,
    ensures
        ({
            let (after, sent) = node.on_message(from, RpcView::AppendEntries(request), now_ms);
            let followed = node.role == Role::Follower && node.current_term == request.term;
            &&& after.role == Role::Follower
            &&& after.current_term == request.term
            &&& after.leader_id == Some(request.leader_id)
            &&& after.refusal().leader_id == Some(request.leader_id)
            &&& !after.refusal().success
            &&& after.voted_for == if followed {
                node.voted_for
            } else {
                None
            }
            &&& after.votes_granted == if followed {
                node.votes_granted
            } else {
                0
            }
            &&& crate::conduct::elections::timer_started(node, after, now_ms)
            &&& crate::conduct::elections::marks_kept(node, after)
            &&& after.id == node.id && after.peers == node.peers
            &&& after.last_applied == node.last_applied && after.data == node.data
            &&& sent.len() == 1
            &&& sent[0].from == node.id && sent[0].to == from
            &&& sent[0].rpc matches RpcView::AppendEntriesReply(reply) && reply.term == request.term
        }),
{
}

/// A request that builds on an entry which the log lacks, or has of another term,
/// is refused with the end of the log, which stays as it is.
pub proof fn gaps_are_refused<D>(
    node: NodeState<D>,
    from: NodeId,
    request: AppendEntriesView,
    now_ms: u64,
)
    requires
        request.term >= node.current_term,
        node.log.len() <= usize::MAX,
        !has_term(node.log, request.prev_log_index as int, request.prev_log_term),
    ensures
        ({
            let (after, sent) = node.on_message(from, RpcView::AppendEntries(request), now_ms);
            &&& after.log == node.log
            &&& after.commit_index == node.commit_index
            &&& sent.len() == 1
            &&& sent[0].rpc == RpcView::AppendEntriesReply(
                AppendEntriesReply {
                    term: request.term,
                    success: false,
                    match_index: node.log.len() as LogIndex,
                },
            )
            &&& !node.applies_after(RpcView::AppendEntries(request))
        }),
{
}

/// The first entries of a request stand in the log, behind the entry that it builds
/// on, with their terms.
pub open spec fn holds_first(
    log: Seq<LogEntry>,
    prev: int,
    entries: Seq<LogEntry>,
    count: int,
) -> bool {
    &&& prev + count <= log.len()
    &&& forall|k: int| 0 <= k < count ==> log[prev + k].term == (#[trigger] entries[k]).term
}

proof fn shared_is_what_is_held(log: Seq<LogEntry>, prev: int, entries: Seq<LogEntry>, count: int)
    requires
        0 <= prev <= log.len(),
        0 <= count <= entries.len(),
        holds_first(log, prev, entries, count),
        count < entries.len() ==> !holds_first(log, prev, entries, count + 1),
    ensures
        crate::node_state::shared_len(log, prev, entries) == count,
    decreases count,
{
    if count > 0 {
        let rest = entries.drop_first();
        assert(log[prev + 0].term == entries[0].term);
        assert forall|k: int| 0 <= k < count - 1 implies log[prev + 1 + k].term == (
        #[trigger] rest[k]).term by {
            assert(log[prev + (k + 1)].term == entries[k + 1].term);
        }
        if count < entries.len() && holds_first(log, prev + 1, rest, count) {
            assert forall|k: int| 0 <= k < count + 1 implies log[prev + k].term == (
            #[trigger] entries[k]).term by {
                if k > 0 {
                    assert(entries[k] == rest[k - 1]);
                    assert(log[prev + 1 + (k - 1)].term == rest[k - 1].term);
                }
            }
        }
        shared_is_what_is_held(log, prev + 1, rest, count - 1);
    } else if entries.len() > 0 && prev < log.len() && log[prev].term == entries[0].term {
        assert(holds_first(log, prev, entries, 1));
    }
}

/// A request that builds on an entry of the log is taken. What the log holds of it
/// stays, with all that follows where it holds the whole; from the first entry on
/// that is missing or of another term, the log becomes the leader's. It is then
/// committed as far as the leader has, and as the log goes, and what is committed
/// is to be applied. The reply tells how far the logs match.
pub proof fn logs_become_the_leaders<D>(
    node: NodeState<D>,
    from: NodeId,
    request: AppendEntriesView,
    now_ms: u64,
    held: int,
)
    requires
        request.term >= node.current_term,
        has_term(node.log, request.prev_log_index as int, request.prev_log_term),
        0 <= held <= request.entries.len(),
        holds_first(node.log, request.prev_log_index as int, request.entries, held),
        held < request.entries.len() ==> !holds_first(
            node.log,
            request.prev_log_index as int,
            request.entries,
            held + 1,
        ),
        request.prev_log_index + request.entries.len() <= usize::MAX,
        node.log.len() <= usize::MAX,
    ensures
        ({
            let (after, sent) = node.on_message(from, RpcView::AppendEntries(request), now_ms);
            let prev = request.prev_log_index as int;
            let end = prev + request.entries.len();
            &&& held == request.entries.len() ==> after.log == node.log
            &&& held < request.entries.len() ==> after.log == node.log.take(prev + held)
                + request.entries.skip(held)
            &&& after.log.len() >= end
            &&& forall|k: int|
                0 <= k < request.entries.len() ==> after.log[prev + k].term == (
                #[trigger] request.entries[k]).term
            &&& after.commit_index == if request.leader_commit <= node.commit_index {
                node.commit_index
            } else if request.leader_commit <= after.log.len() {
                request.leader_commit
            } else {
                after.log.len() as LogIndex
            }
            &&& sent.len() == 1
            &&& sent[0].rpc == RpcView::AppendEntriesReply(
                AppendEntriesReply {
                    term: request.term,
                    success: true,
                    match_index: end as LogIndex,
                },
            )
            &&& node.applies_after(RpcView::AppendEntries(request))
        }),
{
    let prev = request.prev_log_index as int;
    shared_is_what_is_held(node.log, prev, request.entries, held);
    let after = node.on_message(from, RpcView::AppendEntries(request), now_ms).0;
    assert forall|k: int| 0 <= k < request.entries.len() implies after.log[prev + k].term == (
    #[trigger] request.entries[k]).term by {
        if k < held {
            assert(after.log[prev + k] == node.log[prev + k]);
        } else {
            assert(after.log[prev + k] == request.entries[k]);
        }
    }
}

/// Every request holds some number of its entries in the log, so one of the two
/// laws above speaks of it.
pub proof fn some_are_held(log: Seq<LogEntry>, prev: int, entries: Seq<LogEntry>) -> (held: int)
    requires
        0 <= prev <= log.len(),
    ensures
        0 <= held <= entries.len(),
        holds_first(log, prev, entries, held),
        held < entries.len() ==> !holds_first(log, prev, entries, held + 1),
    decreases entries.len(),
{
    if entries.len() > 0 {
        let less = entries.drop_last();
        let held = some_are_held(log, prev, less);
        assert forall|k: int| 0 <= k < held implies log[prev + k].term == (
        #[trigger] entries[k]).term by {
            assert(less[k] == entries[k]);
        }
        if held < less.len() {
            if holds_first(log, prev, entries, held + 1) {
                assert forall|k: int| 0 <= k < held + 1 implies log[prev + k].term == (
                #[trigger] less[k]).term by {
                    assert(less[k] == entries[k]);
                }
            }
            held
        } else if holds_first(log, prev, entries, held + 1) {
            held + 1
        } else {
            held
        }
    } else {
        0
    }
}

/// What a leader sends brings the logs together: a follower that has the entry it
/// builds on holds an entry of the leader's term in every place of the leader's
/// log from there on, answers with the end of that log, and the leader then knows
/// of it.
pub proof fn appends_bring_logs_together<D>(
    leader: NodeState<D>,
    follower: NodeState<D>,
    now_ms: u64,
    key: int,
)
    requires
        leader.role == Role::Leader,
        leader.log.len() < usize::MAX,
        follower.log.len() <= usize::MAX,
        leader.next_index.contains_key(follower.id),
        1 <= leader.next_index[follower.id] <= leader.log.len() + 1,
        follower.current_term <= leader.current_term,
        ({
            let prev = leader.next_index[follower.id] - 1;
            prev == 0 || prev <= follower.log.len() && follower.log[prev - 1].term
                == leader.log[prev - 1].term
        }),
        leader.next_index[follower.id] - 1 <= key < leader.log.len(),
    ensures
        ({
            let sent = leader.append_for(follower.id);
            let (after, replies) = follower.on_message(leader.id, sent.rpc, now_ms);
            let told = leader.on_message(follower.id, replies[0].rpc, now_ms).0;
            &&& after.log.len() >= leader.log.len()
            &&& after.log[key].term == leader.log[key].term
            &&& told.match_index.contains_key(follower.id)
            &&& told.match_index[follower.id] == leader.log.len()
            &&& told.next_index[follower.id] == leader.log.len() + 1
        }),
{
    let sent = leader.append_for(follower.id);
    let request = sent.rpc->AppendEntries_0;
    let prev = leader.next_index[follower.id] - 1;
    let at = key - prev;
    assert(brings_up_to_date(leader, follower.id, sent)) by {
        append_brings_up_to_date(leader, follower.id);
    }
    let whole = leader.log.take(prev) + request.entries;
    assert(whole == leader.log);
    assert(request.entries.len() == leader.log.len() - prev);
    assert(whole[key] == request.entries[at]);
    let held = some_are_held(follower.log, prev, request.entries);
    logs_become_the_leaders(follower, leader.id, request, now_ms, held);
    let (after, replies) = follower.on_message(leader.id, sent.rpc, now_ms);
    assert(after.log[prev + at].term == request.entries[at].term);
    success_is_noted(leader, follower.id, replies[0].rpc->AppendEntriesReply_0, now_ms);
}

proof fn success_is_noted<D>(
    leader: NodeState<D>,
    from: NodeId,
    reply: AppendEntriesReply,
    now_ms: u64,
)
    requires
        leader.role == Role::Leader,
        reply.term == leader.current_term,
        reply.success,
        reply.match_index < usize::MAX,
    ensures
        ({
            let told = leader.on_message(from, RpcView::AppendEntriesReply(reply), now_ms).0;
            &&& told.match_index.contains_key(from)
            &&& told.match_index[from] == reply.match_index
            &&& told.next_index[from] == reply.match_index + 1
        }),
{
}

/// A reply of a later term makes a leader a follower of that term without a vote.
pub proof fn later_replies_unseat<D>(
    node: NodeState<D>,
    from: NodeId,
    reply: AppendEntriesReply,
    now_ms: u64,
)
    requires
        reply.term > node.current_term,
    ensures
        ({
            let (after, sent) = node.on_message(from, RpcView::AppendEntriesReply(reply), now_ms);
            &&& after.role == Role::Follower
            &&& after.current_term == reply.term
            &&& after.voted_for is None
            &&& after.votes_granted == 0
            &&& after.leader_id == node.leader_id
            &&& crate::conduct::elections::log_kept(node, after)
            &&& crate::conduct::elections::marks_kept(node, after)
            &&& crate::conduct::elections::timer_started(node, after, 0)
            &&& sent.len() == 0
            &&& !node.applies_after(RpcView::AppendEntriesReply(reply))
        }),
{
}

/// Replies of an earlier term, and replies to a node that does not lead, change
/// nothing.
pub proof fn other_replies_do_not_count<D>(
    node: NodeState<D>,
    from: NodeId,
    reply: AppendEntriesReply,
    now_ms: u64,
)
    requires
        reply.term < node.current_term || reply.term == node.current_term && node.role
            != Role::Leader,
    ensures
        node.on_message(from, RpcView::AppendEntriesReply(reply), now_ms).0 == node,
        node.on_message(from, RpcView::AppendEntriesReply(reply), now_ms).1.len() == 0,
        !node.applies_after(RpcView::AppendEntriesReply(reply)),
{
}

/// A follower's refusal makes the leader go back by one entry, not before the first,
/// and try again; nothing else changes.
pub proof fn refusals_are_tried_further_back<D>(
    node: NodeState<D>,
    from: NodeId,
    reply: AppendEntriesReply,
    now_ms: u64,
)
    requires
        node.role == Role::Leader,
        reply.term == node.current_term,
        !reply.success,
        node.log.len() < usize::MAX,
    ensures
        ({
            let (after, sent) = node.on_message(from, RpcView::AppendEntriesReply(reply), now_ms);
            let next = if node.next_index.contains_key(from) {
                node.next_index[from] as int
            } else {
                (node.log.len() + 1) as int
            };
            &&& after.next_index.contains_key(from)
            &&& after.next_index[from] == if next >= 2 {
                next - 1
            } else {
                1
            }
            &&& forall|peer: NodeId|
                peer != from ==> {
                    &&& #[trigger] after.next_index.contains_key(peer)
                        == node.next_index.contains_key(peer)
                    &&& after.next_index[peer] == node.next_index[peer]
                }
            &&& after == (NodeState { next_index: after.next_index, ..node })
            &&& sent.len() == 1
            &&& brings_up_to_date(after, from, sent[0])
            &&& !node.applies_after(RpcView::AppendEntriesReply(reply))
        }),
{
    let after = node.on_message(from, RpcView::AppendEntriesReply(reply), now_ms).0;
    append_brings_up_to_date(after, from);
}

/// The nodes that are known to hold a log up to a place.
pub open spec fn known_holders(match_index: Map<NodeId, LogIndex>, index: int) -> Set<NodeId> {
    Set::new(|id: NodeId| match_index.contains_key(id) && match_index[id] >= index)
}

/// More than half of the nodes are known to hold an entry of the leader's own term
/// in this place.
pub open spec fn on_a_majority<D>(node: NodeState<D>, index: int) -> bool {
    &&& 1 <= index <= node.log.len()
    &&& node.log[index - 1].term == node.current_term
    &&& crate::conduct::elections::more_than_half(
        known_holders(node.match_index, index).len() as int,
        node.peers.len() as int,
    )
}

proof fn commits_the_last<D>(node: NodeState<D>, bound: int)
    requires
        bound <= node.log.len() <= usize::MAX,
    ensures
        node.commit_up_to(bound) >= node.commit_index,
        node.commit_up_to(bound) > node.commit_index ==> node.commit_up_to(bound) <= bound
            && on_a_majority(node, node.commit_up_to(bound) as int),
        forall|index: int|
            node.commit_up_to(bound) < index <= bound ==> !#[trigger] on_a_majority(node, index),
    decreases bound - node.commit_index,
{
    assert forall|index: int| #[trigger] on_a_majority(node, index) == node.committable(index) by {
        assert(known_holders(node.match_index, index) =~= node.holders(index));
    }
    if bound > node.commit_index && !node.committable(bound) {
        commits_the_last(node, bound - 1);
    }
}

/// A follower's success is noted, and the leader commits up to the last entry of
/// its own term that more than half of the nodes are known to hold, and no further;
/// what is committed is to be applied.
pub proof fn what_a_majority_holds_is_committed<D>(
    node: NodeState<D>,
    from: NodeId,
    reply: AppendEntriesReply,
    now_ms: u64,
)
    requires
        node.role == Role::Leader,
        reply.term == node.current_term,
        reply.success,
        node.log.len() <= usize::MAX,
        reply.match_index < usize::MAX,
    ensures
        ({
            let (after, sent) = node.on_message(from, RpcView::AppendEntriesReply(reply), now_ms);
            &&& after.match_index == node.match_index.insert(from, reply.match_index)
            &&& after.next_index == node.next_index.insert(
                from,
                (reply.match_index + 1) as LogIndex,
            )
            &&& after.commit_index >= node.commit_index
            &&& after.commit_index > node.commit_index ==> on_a_majority(
                after,
                after.commit_index as int,
            )
            &&& forall|index: int|
                index > after.commit_index ==> !#[trigger] on_a_majority(after, index)
            &&& after == (NodeState {
                match_index: after.match_index,
                next_index: after.next_index,
                commit_index: after.commit_index,
                ..node
            })
            &&& sent.len() == 0
            &&& node.applies_after(RpcView::AppendEntriesReply(reply))
        }),
{
    let marked = NodeState {
        match_index: node.match_index.insert(from, reply.match_index),
        next_index: node.next_index.insert(from, reply.match_index.saturating_add(1)),
        ..node
    };
    let after = node.on_message(from, RpcView::AppendEntriesReply(reply), now_ms).0;
    commits_the_last(marked, marked.log.len() as int);
    assert forall|index: int| index > after.commit_index implies !#[trigger] on_a_majority(
        after,
        index,
    ) by {
        assert(on_a_majority(after, index) == on_a_majority(marked, index));
    }
    assert(on_a_majority(after, after.commit_index as int) == on_a_majority(
        marked,
        after.commit_index as int,
    ));
}

/// A vote, granted or not, leaves nothing to apply.
pub proof fn votes_apply_nothing<D>(node: NodeState<D>, rpc: RpcView)
    requires
        rpc is RequestVote || rpc is RequestVoteReply,
    ensures
        !node.applies_after(rpc),
{
}

/// Machines, each of which comes from the one before by applying the next committed
/// command successfully.
pub open spec fn applied_in_order<S: StateMachine>(
    machines: Seq<S>,
    log: Seq<LogEntry>,
    from: LogIndex,
) -> bool {
    forall|k: int, l: int|
        0 <= k && l == k + 1 && l < machines.len() ==> S::applies(
            #[trigger] machines[k],
            (from + l) as LogIndex,
            log[from + k].command,
            #[trigger] machines[l],
            Ok(()),
        )
}

/// How applying what is committed ends: with the last of these machines, and either
/// all is applied, or the machine refused the next command.
pub open spec fn applied_so_far<S: StateMachine>(
    before: NodeState<S>,
    after: NodeState<S>,
    machines: Seq<S>,
) -> bool {
    &&& machines.len() >= 1
    &&& machines[0] == before.data
    &&& applied_in_order(machines, before.log, before.last_applied)
    &&& after.last_applied == before.last_applied + machines.len() - 1
    &&& after == (NodeState { data: after.data, last_applied: after.last_applied, ..before })
    &&& if after.last_applied >= before.commit_index {
        after.data == machines.last()
    } else {
        exists|error: StateMachineError| #[trigger]
            S::applies(
                machines.last(),
                (after.last_applied + 1) as LogIndex,
                before.log[after.last_applied as int].command,
                after.data,
                Err(error),
            )
    }
}

/// The committed commands that a machine lacks are applied to it one after the
/// other, each at its own index, until all are or the machine refuses one. Nothing
/// else of the node changes.
pub proof fn committed_commands_are_applied_in_order<S: StateMachine>(
    before: NodeState<S>,
    after: NodeState<S>,
) -> (machines: Seq<S>)
    requires
        before.settles(after),
        before.commit_index <= usize::MAX,
    ensures
        applied_so_far(before, after, machines),
        before.last_applied <= before.commit_index ==> after.last_applied <= before.commit_index,
    decreases before.commit_index - before.last_applied,
{
    if before.last_applied >= before.commit_index {
        seq![before.data]
    } else {
        let (data, outcome) = choose|data: S, outcome: Result<(), StateMachineError>|
            {
                &&& #[trigger] S::applies(
                    before.data,
                    (before.last_applied + 1) as LogIndex,
                    before.log[before.last_applied as int].command,
                    data,
                    outcome,
                )
                &&& match outcome {
                    Err(_) => after == (NodeState { data, ..before }),
                    Ok(_) => NodeState {
                        data,
                        last_applied: (before.last_applied + 1) as LogIndex,
                        ..before
                    }.settles(after),
                }
            };
        match outcome {
            Ok(done) => {
                assert(done == ());
                let next = NodeState {
                    data,
                    last_applied: (before.last_applied + 1) as LogIndex,
                    ..before
                };
                let rest = committed_commands_are_applied_in_order(next, after);
                let machines = seq![before.data] + rest;
                assert(machines.last() == rest.last());
                assert forall|k: int, l: int|
                    0 <= k && l == k + 1 && l < machines.len() implies S::applies(
                    #[trigger] machines[k],
                    (before.last_applied + l) as LogIndex,
                    before.log[before.last_applied + k].command,
                    #[trigger] machines[l],
                    Ok(()),
                ) by {
                    if k > 0 {
                        let i = k - 1;
                        let j = l - 1;
                        assert(machines[k] == rest[i] && machines[l] == rest[j]);
                        assert(S::applies(
                            rest[i],
                            (next.last_applied + j) as LogIndex,
                            next.log[next.last_applied + i].command,
                            rest[j],
                            Ok(()),
                        ));
                    } else {
                        assert(machines[l] == rest[0]);
                    }
                }
                assert(applied_in_order(machines, before.log, before.last_applied));
                assert(machines[0] == before.data);
                assert(applied_so_far(next, after, rest));
                assert(after == (NodeState {
                    data: after.data,
                    last_applied: after.last_applied,
                    ..before
                }));
                assert(applied_so_far(before, after, machines));
                machines
            },
            Err(error) => {
                assert(S::applies(
                    before.data,
                    (before.last_applied + 1) as LogIndex,
                    before.log[before.last_applied as int].command,
                    data,
                    Err(error),
                ));
                let machines = seq![before.data];
                assert(machines.last() == before.data);
                assert(applied_so_far(before, after, machines));
                machines
            },
        }
    }
}

/// Whether a message is one after which what is committed is applied: a replication
/// request that is taken, or a follower's success that the leader notes.
pub open spec fn may_commit<D>(node: NodeState<D>, rpc: RpcView) -> bool {
    match rpc {
        RpcView::AppendEntries(request) => request.term >= node.current_term && has_term(
            node.log,
            request.prev_log_index as int,
            request.prev_log_term,
        ),
        RpcView::AppendEntriesReply(reply) => reply.success && node.role == Role::Leader
            && reply.term == node.current_term,
        _ => false,
    }
}

/// A node that handled a message sends the messages that the laws above tell of and
/// is what they tell; if the message may commit anything, the committed commands
/// are applied to its machine.
pub proof fn handling_applies_what_is_committed<S: StateMachine>(
    before: NodeState<S>,
    from: NodeId,
    rpc: RpcView,
    now_ms: u64,
    after: NodeState<S>,
    sent: Seq<MessageView>,
)
    requires
        crate::node::handles(before, from, rpc, now_ms, after, sent),
    ensures
        sent == before.on_message(from, rpc, now_ms).1,
        !may_commit(before, rpc) ==> after == before.on_message(from, rpc, now_ms).0,
        may_commit(before, rpc) ==> exists|machines: Seq<S>| #[trigger]
            applied_so_far(before.on_message(from, rpc, now_ms).0, after, machines),
{
    let next = before.on_message(from, rpc, now_ms).0;
    if may_commit(before, rpc) {
        assert(before.applies_after(rpc));
        let machines = committed_commands_are_applied_in_order(next, after);
    }
}

/// A node that has applied all that is committed can be handed any message.
pub proof fn nodes_in_step_take_any_message<D>(node: NodeState<D>, rpc: RpcView)
    requires
        node.last_applied >= node.commit_index,
        node.log.len() <= usize::MAX,
        rpc matches RpcView::AppendEntries(request) ==> request.prev_log_index
            + request.entries.len() <= usize::MAX,
    ensures
        node.tolerates(rpc),
{
    if let RpcView::AppendEntries(request) = rpc {
        if node.accepts(request) {
            let held = some_are_held(node.log, request.prev_log_index as int, request.entries);
            logs_become_the_leaders(node, 0, request, 0, held);
        }
    }
}

/// A node over a key-value machine that is in step with it has, after any message,
/// applied all that is committed.
pub proof fn all_that_is_committed_is_applied(
    node: NodeState<KvState>,
    from: NodeId,
    rpc: RpcView,
    now_ms: u64,
)
    requires
        node.data.last_applied == node.last_applied,
        node.last_applied >= node.commit_index,
    ensures
        ({
            let after = node.handled(from, rpc, now_ms).0;
            let next = node.on_message(from, rpc, now_ms).0;
            &&& after.last_applied == after.data.last_applied
            &&& after.last_applied == if next.commit_index > node.last_applied {
                next.commit_index
            } else {
                node.last_applied
            }
            &&& after == (NodeState {
                data: after.data,
                last_applied: after.last_applied,
                ..next
            })
            &&& node.handled(from, rpc, now_ms).1 == node.on_message(from, rpc, now_ms).1
        }),
{
    let next = node.on_message(from, rpc, now_ms).0;
    crate::node_laws::settled_keeps(next);
    match rpc {
        RpcView::AppendEntriesReply(_) => {},
        _ => {},
    }
}

/// A key-value machine to which commands were applied, one after the other, holds
/// for each key what the last of them that names it says.
pub open spec fn last_word(commands: Seq<Command>, key: Seq<char>) -> Option<Option<Seq<char>>>
    decreases commands.len(),
{
    if commands.len() == 0 {
        None
    } else {
        match commands.last() {
            Command::Put { key: named, value } if named@ == key => Some(Some(value@)),
            Command::Delete { key: named } if named@ == key => Some(None),
            _ => last_word(commands.drop_last(), key),
        }
    }
}

/// The commands from one place of a log up to another.
pub open spec fn commands_between(log: Seq<LogEntry>, from: int, to: int) -> Seq<Command> {
    Seq::new((to - from) as nat, |k: int| log[from + k].command)
}

/// After the committed commands are applied, a key holds what the last of them that
/// names it says, and what it held before where none does.
pub proof fn the_last_command_counts(node: NodeState<KvState>, key: Seq<char>)
    requires
        node.last_applied <= node.commit_index <= node.log.len(),
        node.data.last_applied == node.last_applied,
    ensures
        node.settled().last_applied == node.commit_index,
        node.settled().data.lookup(key) == match last_word(
            commands_between(node.log, node.last_applied as int, node.commit_index as int),
            key,
        ) {
            Some(value) => value,
            None => node.data.lookup(key),
        },
    decreases node.commit_index - node.last_applied,
{
    let from = node.last_applied as int;
    let to = node.commit_index as int;
    let all = commands_between(node.log, from, to);
    if from < to {
        let first = node.log[from].command;
        let (data, outcome) = node.data.apply((from + 1) as usize, first);
        let next = NodeState { data, last_applied: (from + 1) as LogIndex, ..node };
        the_last_command_counts(next, key);
        let rest = commands_between(node.log, from + 1, to);
        assert(all =~= seq![first] + rest);
        first_word_is_earliest(first, rest, key);
        assert(seq![first].drop_last() =~= Seq::empty());
        assert(last_word(Seq::empty(), key) is None);
    } else {
        assert(all =~= Seq::empty());
    }
}

proof fn first_word_is_earliest(first: Command, rest: Seq<Command>, key: Seq<char>)
    ensures
        last_word(seq![first] + rest, key) == match last_word(rest, key) {
            Some(value) => Some(value),
            None => last_word(seq![first], key),
        },
    decreases rest.len(),
{
    let all = seq![first] + rest;
    if rest.len() > 0 {
        assert(all.drop_last() =~= seq![first] + rest.drop_last());
        assert(all.last() == rest.last());
        first_word_is_earliest(first, rest.drop_last(), key);
    } else {
        assert(all =~= seq![first]);
    }
}

} // verus!
