//! Elections: when a node campaigns, whom it votes for, and what makes a leader.
use crate::node_state::NodeState;
use crate::types::{
    Command, LogEntry, LogIndex, MessageView, NodeId, RequestVote,
    RequestVoteReply, Role, RpcView, Term,
};
use vstd::prelude::*;

verus! {

/// The greater of two terms.
pub open spec fn later_term(a: Term, b: Term) -> Term {
    if a > b {
        a
    } else {
        b
    }
}

/// The term of a log's last entry; zero where there is none.
pub open spec fn end_term(log: Seq<LogEntry>) -> Term {
    if log.len() > 0 {
        log[log.len() - 1].term
    } else {
        0
    }
}

/// A log whose end is not behind that of another: its last term is later, or it is
/// the same and the log is no shorter.
pub open spec fn not_behind(end: Term, len: int, log: Seq<LogEntry>) -> bool {
    end > end_term(log) || end == end_term(log) && len >= log.len()
}

/// More than half of a node and its peers.
pub open spec fn more_than_half(count: int, peers: int) -> bool {
    2 * count > peers + 1
}

/// The state of the generator behind the timeouts after one more draw.
pub open spec fn drawn(state: u64) -> u64 {
    state.wrapping_mul(6364136223846793005).wrapping_add(1)
}

/// A new election timeout of 150 to 300 milliseconds was drawn, perhaps one more
/// before it.
pub open spec fn timer_started<D>(
    before: NodeState<D>,
    after: NodeState<D>,
    now_ms: u64,
) -> bool {
    &&& now_ms + 150 <= after.election_deadline <= now_ms + 300
    &&& after.election_deadline == now_ms + 150 + after.rng_state % 151
    &&& after.rng_state == drawn(before.rng_state) || after.rng_state == drawn(
        drawn(before.rng_state),
    )
}

/// The election timer goes on as it was.
pub open spec fn timer_kept<D>(before: NodeState<D>, after: NodeState<D>) -> bool {
    after.election_deadline == before.election_deadline && after.rng_state == before.rng_state
}

/// What no vote and no term changes: who the node is, its log and what is
/// committed and applied of it.
pub open spec fn log_kept<D>(before: NodeState<D>, after: NodeState<D>) -> bool {
    &&& after.id == before.id
    &&& after.peers == before.peers
    &&& after.log == before.log
    &&& after.commit_index == before.commit_index
    &&& after.last_applied == before.last_applied
    &&& after.data == before.data
}

/// What a leader knows of its peers stays as it was.
pub open spec fn marks_kept<D>(before: NodeState<D>, after: NodeState<D>) -> bool {
    &&& after.next_index == before.next_index
    &&& after.match_index == before.match_index
    &&& after.term_start_index == before.term_start_index
    &&& after.last_heartbeat_at == before.last_heartbeat_at
}

/// Each timeout is drawn anew: the generator steps on from its last state.
pub proof fn timeouts_are_drawn<D>(node: NodeState<D>, now_ms: u64)
    requires
        now_ms + 300 <= u64::MAX,
    ensures
        ({
            let after = node.timer_reset(now_ms);
            &&& after.rng_state == drawn(node.rng_state)
            &&& after.election_deadline == now_ms + 150 + drawn(node.rng_state) % 151
            &&& log_kept(node, after) && marks_kept(node, after)
            &&& after.role == node.role && after.current_term == node.current_term
            &&& after.voted_for == node.voted_for && after.leader_id == node.leader_id
            &&& after.votes_granted == node.votes_granted
        }),
{
}

/// A node that does not lead and whose time has run out stands for the next term:
/// it votes for itself, forgets its leader, draws a new timeout and asks every peer
/// for a vote, with the end of its log.
pub proof fn silence_starts_an_election<D>(node: NodeState<D>, now_ms: u64)
    requires
        node.role != Role::Leader,
        now_ms >= node.election_deadline,
        now_ms + 300 <= u64::MAX,
        node.current_term < u64::MAX,
        node.log.len() <= usize::MAX,
    ensures
        ({
            let (after, sent) = node.tick(now_ms);
            &&& after.role == Role::Candidate
            &&& after.current_term == node.current_term + 1
            &&& after.voted_for == Some(node.id)
            &&& after.leader_id is None
            &&& after.votes_granted == 1
            &&& timer_started(node, after, now_ms)
            &&& after.rng_state == drawn(node.rng_state)
            &&& log_kept(node, after)
            &&& marks_kept(node, after)
            &&& sent.len() == node.peers.len()
            &&& forall|i: int|
                0 <= i < node.peers.len() ==> (#[trigger] sent[i]) == (MessageView {
                    from: node.id,
                    to: node.peers[i],
                    rpc: RpcView::RequestVote(
                        RequestVote {
                            term: (node.current_term + 1) as Term,
                            candidate_id: node.id,
                            last_log_index: node.log.len() as LogIndex,
                            last_log_term: end_term(node.log),
                        },
                    ),
                })
        }),
{
}

/// Until its time has run out, a node that does not lead does nothing; nor does a
/// leader within 50 milliseconds of its last heartbeat.
pub proof fn nothing_happens_before_its_time<D>(node: NodeState<D>, now_ms: u64)
    requires
        if node.role == Role::Leader {
            now_ms < node.last_heartbeat_at + 50
        } else {
            now_ms < node.election_deadline
        },
    ensures
        node.tick(now_ms).0 == node,
        node.tick(now_ms).1.len() == 0,
{
}

/// A leader's heartbeat is due every 50 milliseconds: it goes to every peer in the
/// leader's term, and nothing else changes.
pub proof fn leaders_send_heartbeats<D>(node: NodeState<D>, now_ms: u64)
    requires
        node.role == Role::Leader,
        now_ms >= node.last_heartbeat_at + 50,
    ensures
        ({
            let (after, sent) = node.tick(now_ms);
            &&& after == (NodeState { last_heartbeat_at: now_ms, ..node })
            &&& sent.len() == node.peers.len()
            &&& forall|i: int|
                0 <= i < node.peers.len() ==> crate::conduct::replication::brings_up_to_date(
                    node,
                    node.peers[i],
                    #[trigger] sent[i],
                )
        }),
{
    let after = node.tick(now_ms).0;
    assert forall|i: int|
        0 <= i < node.peers.len() implies crate::conduct::replication::brings_up_to_date(
        node,
        node.peers[i],
        #[trigger] node.tick(now_ms).1[i],
    ) by {
        crate::conduct::replication::append_brings_up_to_date(after, node.peers[i]);
    }
}

/// A vote is granted exactly if the request's term is not below the node's, the
/// candidate's log is not behind the node's, and the node has not voted for another
/// in that term. The role of the node does not matter: a later term makes it a
/// follower without a vote first.
pub proof fn votes_go_to_the_first_fit_candidate<D>(
    node: NodeState<D>,
    from: NodeId,
    request: RequestVote,
    now_ms: u64,
)
    requires
        now_ms + 300 <= u64::MAX,
        node.log.len() <= usize::MAX,
    ensures
        ({
            let (after, sent) = node.on_message(from, RpcView::RequestVote(request), now_ms);
            let newer = request.term > node.current_term;
            let free = newer || node.voted_for is None || node.voted_for == Some(
                request.candidate_id,
            );
            let granted = request.term >= node.current_term && free && not_behind(
                request.last_log_term,
                request.last_log_index as int,
                node.log,
            );
            &&& sent.len() == 1
            &&& sent[0] == (MessageView {
                from: node.id,
                to: from,
                rpc: RpcView::RequestVoteReply(
                    RequestVoteReply {
                        term: later_term(request.term, node.current_term),
                        vote_granted: granted,
                    },
                ),
            })
            &&& after.current_term == later_term(request.term, node.current_term)
            &&& after.voted_for == if granted {
                Some(request.candidate_id)
            } else if newer {
                None
            } else {
                node.voted_for
            }
            &&& after.role == if newer {
                Role::Follower
            } else {
                node.role
            }
            &&& after.votes_granted == if newer {
                0
            } else {
                node.votes_granted
            }
            &&& after.leader_id == node.leader_id
            &&& log_kept(node, after)
            &&& marks_kept(node, after)
            &&& granted || newer ==> timer_started(node, after, now_ms)
            &&& !granted && !newer ==> timer_kept(node, after)
        }),
{
}

/// A node never votes for two candidates in one term, whatever it is asked in
/// between.
pub proof fn one_vote_in_a_term<D>(
    node: NodeState<D>,
    first: RequestVote,
    second: RequestVote,
    first_ms: u64,
    second_ms: u64,
)
    requires
        first.term == second.term,
        node.on_request_vote(first, first_ms).1.vote_granted,
        node.on_request_vote(first, first_ms).0.on_request_vote(
            second,
            second_ms,
        ).1.vote_granted,
    ensures
        first.candidate_id == second.candidate_id,
{
}

/// A vote that was granted is granted again when the request comes twice.
pub proof fn a_granted_vote_stands<D>(
    node: NodeState<D>,
    request: RequestVote,
    first_ms: u64,
    second_ms: u64,
)
    requires
        node.on_request_vote(request, first_ms).1.vote_granted,
    ensures
        node.on_request_vote(request, first_ms).0.on_request_vote(request, second_ms).1
            == node.on_request_vote(request, first_ms).1,
        node.on_request_vote(request, first_ms).0.on_request_vote(request, second_ms).0.voted_for
            == Some(request.candidate_id),
{
}

/// A reply of a later term makes any node a follower of that term without a vote.
pub proof fn later_votes_unseat<D>(
    node: NodeState<D>,
    from: NodeId,
    reply: RequestVoteReply,
    now_ms: u64,
)
    requires
        reply.term > node.current_term,
        now_ms + 300 <= u64::MAX,
    ensures
        ({
            let (after, sent) = node.on_message(from, RpcView::RequestVoteReply(reply), now_ms);
            &&& after.role == Role::Follower
            &&& after.current_term == reply.term
            &&& after.voted_for is None
            &&& after.votes_granted == 0
            &&& after.leader_id == node.leader_id
            &&& log_kept(node, after) && marks_kept(node, after)
            &&& timer_started(node, after, now_ms)
            &&& sent.len() == 0
        }),
{
}

/// Votes of another term, refusals, and votes for a node that does not stand change
/// nothing.
pub proof fn other_votes_do_not_count<D>(
    node: NodeState<D>,
    from: NodeId,
    reply: RequestVoteReply,
    now_ms: u64,
)
    requires
        reply.term <= node.current_term,
        node.role != Role::Candidate || reply.term != node.current_term || !reply.vote_granted,
    ensures
        node.on_message(from, RpcView::RequestVoteReply(reply), now_ms).0 == node,
        node.on_message(from, RpcView::RequestVoteReply(reply), now_ms).1.len() == 0,
{
}

/// A candidate counts each vote of its term. While they are not more than half,
/// nothing else happens.
pub proof fn votes_are_counted<D>(
    node: NodeState<D>,
    from: NodeId,
    reply: RequestVoteReply,
    now_ms: u64,
)
    requires
        node.role == Role::Candidate,
        reply.term == node.current_term,
        reply.vote_granted,
        node.votes_granted < usize::MAX,
        !more_than_half(node.votes_granted + 1, node.peers.len() as int),
    ensures
        ({
            let (after, sent) = node.on_message(from, RpcView::RequestVoteReply(reply), now_ms);
            &&& after == (NodeState { votes_granted: (node.votes_granted + 1) as usize, ..node })
            &&& sent.len() == 0
        }),
{
}

/// With votes of more than half of the nodes, its own included, a candidate leads
/// its term. It opens the term with an empty entry, takes every peer to hold
/// nothing yet, and sends all of them that entry.
pub proof fn a_majority_makes_a_leader<D>(
    node: NodeState<D>,
    from: NodeId,
    reply: RequestVoteReply,
    now_ms: u64,
)
    requires
        node.role == Role::Candidate,
        reply.term == node.current_term,
        reply.vote_granted,
        node.votes_granted < usize::MAX,
        node.log.len() < usize::MAX - 1,
        more_than_half(node.votes_granted + 1, node.peers.len() as int),
    ensures
        ({
            let (after, sent) = node.on_message(from, RpcView::RequestVoteReply(reply), now_ms);
            &&& after.role == Role::Leader
            &&& after.current_term == node.current_term
            &&& after.voted_for == node.voted_for
            &&& after.leader_id == Some(node.id)
            &&& after.log.len() == node.log.len() + 1
            &&& after.log.take(node.log.len() as int) == node.log
            &&& after.log.last() == (LogEntry { term: node.current_term, command: Command::Noop })
            &&& after.term_start_index == node.log.len() + 1
            &&& after.last_heartbeat_at == now_ms
            &&& timer_kept(node, after)
            &&& after.id == node.id && after.peers == node.peers
            &&& after.commit_index == node.commit_index
            &&& after.last_applied == node.last_applied && after.data == node.data
            &&& forall|peer: NodeId|
                #![trigger after.next_index.contains_key(peer)]
                after.next_index.contains_key(peer) == node.peers.contains(peer)
            &&& forall|peer: NodeId|
                node.peers.contains(peer) ==> #[trigger] after.next_index[peer] == node.log.len()
                    + 2
            &&& forall|peer: NodeId|
                #![trigger after.match_index.contains_key(peer)]
                after.match_index.contains_key(peer) == (node.peers.contains(peer) || peer
                    == node.id)
            &&& forall|peer: NodeId|
                node.peers.contains(peer) && peer != node.id ==> #[trigger] after.match_index[peer]
                    == 0
            &&& after.match_index[node.id] == node.log.len() + 1
            &&& sent.len() == node.peers.len()
            &&& forall|i: int|
                0 <= i < node.peers.len() ==> crate::conduct::replication::brings_up_to_date(
                    after,
                    node.peers[i],
                    #[trigger] sent[i],
                )
        }),
{
    let (after, sent) = node.on_message(from, RpcView::RequestVoteReply(reply), now_ms);
    assert(after.log.take(node.log.len() as int) =~= node.log);
    assert forall|i: int|
        0 <= i < node.peers.len() implies crate::conduct::replication::brings_up_to_date(
        after,
        node.peers[i],
        #[trigger] sent[i],
    ) by {
        crate::conduct::replication::append_brings_up_to_date(after, node.peers[i]);
    }
}

} // verus!
