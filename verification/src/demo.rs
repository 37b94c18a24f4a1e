//! Runs of a simulated cluster that are worth a picture.
use crate::charts::{replication_text, sample, times_text, Sample, SampleView};
use crate::cluster::Cluster;
use crate::cluster_state::ClusterState;
use crate::node::Node;
use crate::text::same_text;
use crate::types::{ClientRequest, NodeId};
use vstd::prelude::*;
use vstd::string::*;

verus! {

/// What a run waits for.
#[derive(Debug)]
pub enum Goal {
    /// The cluster has a leader.
    Led,
    /// The cluster has a leader other than this one.
    LedByOther(NodeId),
    /// Every node has this value under this key.
    Holds { key: String, value: String },
}

/// The one running leader of a cluster.
pub open spec fn is_leader(state: ClusterState, id: NodeId) -> bool {
    state.leads(id as int) && forall|other: int| #[trigger] state.leads(other) ==> other == id
}

impl Goal {
    /// Whether a cluster has got there.
    pub open spec fn met(&self, state: ClusterState) -> bool {
        match *self {
            Goal::Led => exists|id: NodeId| #[trigger] is_leader(state, id),
            Goal::LedByOther(old_leader) => exists|id: NodeId| #[trigger]
                is_leader(state, id) && id != old_leader,
            Goal::Holds { key, value } => forall|i: int|
                0 <= i < state.nodes.len() ==> (#[trigger] state.nodes[i]).data.lookup(key@)
                    == Some(value@),
        }
    }

    /// Whether a cluster has got there.
    pub fn is_met(&self, cluster: &Cluster) -> (met: bool)
        requires
            cluster.wf(),
        ensures
            met == self.met(cluster@),
    {
        match self {
            Goal::Led => match cluster.leader() {
                Some(id) => {
                    assert(is_leader(cluster@, id));
                    true
                },
                None => false,
            },
            Goal::LedByOther(old_leader) => match cluster.leader() {
                Some(id) => {
                    assert(is_leader(cluster@, id));
                    id != *old_leader
                },
                None => false,
            },
            Goal::Holds { key, value } => {
                let nodes = cluster.nodes();
                let mut i: usize = 0;
                while i < nodes.len()
                    invariant
                        *self == (Goal::Holds { key: *key, value: *value }),
                        i <= nodes@.len(),
                        nodes@.len() == cluster@.nodes.len(),
                        forall|j: int|
                            0 <= j < nodes@.len() ==> (#[trigger] nodes@[j]).1.kv()
                                == cluster@.nodes[j],
                        forall|j: int|
                            0 <= j < i ==> (#[trigger] cluster@.nodes[j]).data.lookup(key@) == Some(
                                value@,
                            ),
                    decreases nodes@.len() - i,
                {
                    if !node_holds(nodes[i].1, key.as_str(), value.as_str()) {
                        assert(cluster@.nodes[i as int].data.lookup(key@) != Some(value@));
                        return false;
                    }
                    i = i + 1;
                }
                true
            },
        }
    }
}

fn node_holds(node: &Node, key: &str, value: &str) -> (holds: bool)
    ensures
        holds == (node.kv().data.lookup(key@) == Some(value@)),
{
    match node.get(key) {
        Some(found) => same_text(found.as_str(), value),
        None => false,
    }
}

/// A cluster runs step by step until a goal is met or the clock has passed a
/// deadline, or has no room up to there.
#[verifier::opaque]
pub open spec fn reaches(
    from: ClusterState,
    deadline_ms: u64,
    goal: Goal,
    to: ClusterState,
) -> bool {
    exists|steps: nat|
        {
            &&& to == #[trigger] from.after(steps)
            &&& goal.met(to) || to.now_ms > deadline_ms
                || !crate::cluster_state::clock_has_room(deadline_ms + 1) && !to.can_step()
            &&& forall|earlier: nat|
                earlier < steps ==> (#[trigger] from.after(earlier)).now_ms <= deadline_ms
                    && !goal.met(from.after(earlier))
        }
}

/// A cluster runs until the clock has passed a duration, or as far as it has room.
#[verifier::opaque]
pub open spec fn waits(from: ClusterState, duration_ms: u64, to: ClusterState) -> bool {
    from.lasts(duration_ms, to)
}

/// Runs a cluster until a goal is met, and tells whether it was in time.
fn run_to(cluster: &mut Cluster, deadline_ms: u64, goal: &Goal) -> (met: bool)
    requires
        old(cluster).wf(),
    ensures
        final(cluster).wf(),
        final(cluster)@.nodes.len() == old(cluster)@.nodes.len(),
        final(cluster)@.now_ms <= old(cluster)@.now_ms || final(cluster)@.now_ms <= deadline_ms + 1,
        reaches(old(cluster)@, deadline_ms, *goal, final(cluster)@),
        met == goal.met(final(cluster)@),
{
    let predicate = |cluster: &Cluster| -> (met: bool)
        requires
            cluster.wf(),
        ensures
            met == goal.met(cluster@),
        { goal.is_met(cluster) };
    let met = cluster.run_until(deadline_ms, predicate);
    proof {
        reveal(reaches);
        let steps = choose|steps: nat|
            {
                &&& cluster@ == #[trigger] old(cluster)@.after(steps)
                &&& forall|earlier: nat|
                    earlier < steps ==> crate::cluster::unheld(
                        predicate,
                        deadline_ms,
                        #[trigger] old(cluster)@.after(earlier),
                    )
            };
        assert forall|earlier: nat| earlier < steps implies (#[trigger] old(cluster)@.after(
            earlier,
        )).now_ms <= deadline_ms && !goal.met(old(cluster)@.after(earlier)) by {
            assert(crate::cluster::unheld(predicate, deadline_ms, old(cluster)@.after(earlier)));
        }
    }
    met
}

/// Runs a cluster until the clock has passed a duration.
fn wait(cluster: &mut Cluster, duration_ms: u64)
    requires
        old(cluster).wf(),
        old(cluster)@.now_ms + duration_ms <= u64::MAX,
    ensures
        final(cluster).wf(),
        old(cluster)@.now_ms <= final(cluster)@.now_ms <= old(cluster)@.now_ms + duration_ms + 1,
        final(cluster)@.now_ms == old(cluster)@.now_ms + duration_ms + 1
            || !final(cluster)@.can_step(),
        final(cluster)@.nodes.len() == old(cluster)@.nodes.len(),
        waits(old(cluster)@, duration_ms, final(cluster)@),
{
    cluster.run_for(duration_ms);
    assert(waits(old(cluster)@, duration_ms, cluster@)) by {
        reveal(waits);
    }
}

/// Samples of a cluster taken every 50 milliseconds until a goal is met or a
/// deadline has passed.
pub open spec fn sampled_run(
    from: ClusterState,
    deadline_ms: u64,
    goal: Goal,
    states: Seq<ClusterState>,
    samples: Seq<SampleView>,
) -> bool {
    &&& states.len() == samples.len() > 0
    &&& states[0] == from
    &&& (states.len() - 1) * 50 <= deadline_ms
    &&& goal.met(states.last()) || states.len() * 50 > deadline_ms
    &&& forall|k: int|
        0 <= k < states.len() ==> #[trigger] samples[k] == crate::charts::sampled(
            states[k],
            (k * 50) as u64,
            None,
        )
    &&& forall|k: int|
        0 <= k < states.len() - 1 ==> !goal.met(#[trigger] states[k]) && waits(
            states[k],
            50,
            states[k + 1],
        )
}

/// How sampling leaves a cluster: where it was when the goal was met, or, where it
/// was not, after the wait that follows the last sample.
pub open spec fn sampling_ends(goal: Goal, last: ClusterState, end: ClusterState) -> bool {
    if goal.met(last) {
        end == last
    } else {
        waits(last, 50, end)
    }
}

/// Samples a cluster every 50 milliseconds until a goal is met or a deadline has
/// passed.
pub fn sample_until(cluster: &mut Cluster, deadline_ms: u64, goal: &Goal) -> (samples: Vec<Sample>)
    requires
        old(cluster).wf(),
    ensures
        final(cluster).wf(),
        exists|states: Seq<ClusterState>| #[trigger]
            sampled_run(old(cluster)@, deadline_ms, *goal, states, samples.deep_view())
                && sampling_ends(*goal, states.last(), final(cluster)@),
        final(cluster)@.nodes.len() == old(cluster)@.nodes.len(),
        samples@.len() <= deadline_ms / 50 + 1,
        forall|k: int|
            0 <= k < samples@.len() ==> (#[trigger] samples@[k]).roles@.len()
                == old(cluster)@.nodes.len(),
{
    let ghost start = cluster@;
    let ghost mut states: Seq<ClusterState> = Seq::empty();
    let mut samples: Vec<Sample> = Vec::new();
    let mut time: u64 = 0;
    loop
        invariant
            cluster.wf(),
            start == old(cluster)@,
            cluster@.nodes.len() == start.nodes.len(),
            time <= deadline_ms,
            time == samples@.len() * 50,
            states.len() == samples@.len(),
            states.len() == 0 ==> cluster@ == start,
            states.len() > 0 ==> states[0] == start && !goal.met(states.last()) && waits(
                states.last(),
                50,
                cluster@,
            ),
            forall|k: int|
                0 <= k < states.len() ==> (#[trigger] samples@[k])@ == crate::charts::sampled(
                    states[k],
                    (k * 50) as u64,
                    None,
                ) && samples@[k].roles@.len() == start.nodes.len(),
            forall|k: int|
                0 <= k < states.len() - 1 ==> !goal.met(#[trigger] states[k]) && waits(
                    states[k],
                    50,
                    states[k + 1],
                ),
        decreases deadline_ms + 50 - time,
    {
        let ghost before = samples@;
        let ghost earlier = states;
        samples.push(sample(cluster, time, None));
        proof {
            cluster.wf_state();
            states = states.push(cluster@);
            assert(states[earlier.len() as int] == cluster@);
            assert forall|k: int| 0 <= k < states.len() implies (#[trigger] samples@[k])@
                == crate::charts::sampled(states[k], (k * 50) as u64, None)
                && samples@[k].roles@.len() == start.nodes.len() by {
                if k < earlier.len() {
                    assert(samples@[k] == before[k]);
                    assert(states[k] == earlier[k]);
                }
            }
            assert forall|k: int| 0 <= k < states.len() - 1 implies !goal.met(#[trigger] states[k])
                && waits(states[k], 50, states[k + 1]) by {
                assert(states[k] == earlier[k]);
                if k < earlier.len() - 1 {
                    assert(states[k + 1] == earlier[k + 1]);
                } else {
                    assert(earlier.last() == earlier[k]);
                }
            }
        }
        let met = goal.is_met(cluster);
        if met || deadline_ms - time < 50 {
            proof {
                assert forall|k: int| 0 <= k < states.len() implies #[trigger] samples.deep_view()[k]
                    == crate::charts::sampled(states[k], (k * 50) as u64, None) by {
                    assert(samples.deep_view()[k] == samples@[k]@);
                }
                assert(sampled_run(start, deadline_ms, *goal, states, samples.deep_view()));
            }
            let ghost last = cluster@;
            assert(states.last() == last);
            if !met {
                wait(cluster, 50);
            }
            assert(sampling_ends(*goal, last, cluster@));
            return samples;
        }
        wait(cluster, 50);
        time = time + 50;
    }
}

/// The time a cluster took until a goal was met, looking every two milliseconds;
/// at a limit the search ends, and where the clock has no room up to there.
#[verifier::opaque]
pub open spec fn timed(
    from: ClusterState,
    limit_ms: u64,
    goal: Goal,
    states: Seq<ClusterState>,
    elapsed_ms: u64,
) -> bool {
    &&& states.len() > 0
    &&& states[0] == from
    &&& states.last().now_ms == from.now_ms + elapsed_ms
    &&& goal.met(states.last()) && elapsed_ms <= limit_ms || elapsed_ms > limit_ms
        || !crate::cluster_state::clock_has_room(from.now_ms + limit_ms + 2)
        && !states.last().can_step()
    &&& forall|k: int|
        0 <= k < states.len() - 1 ==> !goal.met(#[trigger] states[k]) && states[k].now_ms
            <= from.now_ms + limit_ms && waits(states[k], 1, states[k + 1])
}

/// Tells how long a cluster takes until a goal is met.
pub fn first_time_until(cluster: &mut Cluster, limit_ms: u64, goal: &Goal) -> (elapsed_ms: u64)
    requires
        old(cluster).wf(),
    ensures
        final(cluster).wf(),
        final(cluster)@.nodes.len() == old(cluster)@.nodes.len(),
        final(cluster)@.now_ms == old(cluster)@.now_ms + elapsed_ms,
        elapsed_ms <= limit_ms + 2,
        exists|states: Seq<ClusterState>| #[trigger]
            timed(old(cluster)@, limit_ms, *goal, states, elapsed_ms)
                && states.last() == final(cluster)@,
{
    proof {
        reveal(timed);
    }
    let ghost start = cluster@;
    let started: u64 = cluster.now();
    let ghost mut states: Seq<ClusterState> = seq![start];
    while cluster.now() - started <= limit_ms
        invariant
            cluster.wf(),
            start == old(cluster)@,
            started == start.now_ms,
            started <= cluster@.now_ms <= started + limit_ms + 2,
            cluster@.nodes.len() == start.nodes.len(),
            states.len() > 0,
            states[0] == start,
            states.last() == cluster@,
            forall|k: int|
                0 <= k < states.len() - 1 ==> !goal.met(#[trigger] states[k]) && states[k].now_ms
                    <= start.now_ms + limit_ms && waits(states[k], 1, states[k + 1]),
        decreases started + limit_ms + 2 - cluster@.now_ms,
    {
        if goal.is_met(cluster) {
            let elapsed: u64 = cluster.now() - started;
            proof {
                reveal(timed);
            }
            assert(timed(start, limit_ms, *goal, states, elapsed));
            return elapsed;
        }
        let ghost before = states;
        let ghost here = cluster@;
        proof {
            cluster.wf_state();
        }
        let before_ms: u64 = cluster.now();
        wait(cluster, 1);
        let moved: bool = cluster.now() > before_ms;
        proof {
            states = states.push(cluster@);
            assert(waits(here, 1, cluster@));
            assert forall|k: int| 0 <= k < states.len() - 1 implies !goal.met(#[trigger] states[k])
                && states[k].now_ms <= start.now_ms + limit_ms && waits(
                states[k],
                1,
                states[k + 1],
            ) by {
                assert(states[k] == before[k]);
                if k < before.len() - 1 {
                    assert(states[k + 1] == before[k + 1]);
                }
            }
        }
        if !moved {
            let elapsed: u64 = cluster.now() - started;
            proof {
                reveal(timed);
            }
            assert(timed(start, limit_ms, *goal, states, elapsed));
            return elapsed;
        }
    }
    let elapsed: u64 = cluster.now() - started;
    assert(timed(start, limit_ms, *goal, states, elapsed));
    elapsed
}

/// A new cluster of five that has run until it has a leader, or until its time is
/// over.
pub open spec fn first_led(state: ClusterState) -> bool {
    reaches(ClusterState::initial(5), 600, Goal::Led, state)
}

/// The run of a new cluster of five ends without a leader.
pub open spec fn unled() -> bool {
    exists|led: ClusterState| #[trigger] first_led(led) && !Goal::Led.met(led)
}

/// The run of a new cluster of five ends without a leader, or is without one 200
/// milliseconds later.
pub open spec fn unsettled() -> bool {
    ||| unled()
    ||| exists|led: ClusterState, later: ClusterState|
        first_led(led) && #[trigger] waits(led, 200, later) && !Goal::Led.met(later)
}

/// A new cluster of five, run until it has a leader; none where it has none in
/// time.
fn led_cluster() -> (led: Option<(Cluster, NodeId)>)
    ensures
        match led {
            Some((cluster, leader)) => {
                &&& cluster.wf()
                &&& cluster@.nodes.len() == 5
                &&& cluster@.now_ms <= 601
                &&& first_led(cluster@)
                &&& is_leader(cluster@, leader)
            },
            None => unled(),
        },
{
    let mut cluster = Cluster::new(5);
    if !run_to(&mut cluster, 600, &Goal::Led) {
        assert(first_led(cluster@));
        return None;
    }
    match cluster.leader() {
        Some(leader) => Some((cluster, leader)),
        None => {
            assert(!Goal::Led.met(cluster@));
            None
        },
    }
}

/// Samples of the election of a new cluster's first leader.
pub open spec fn shows_election(samples: Seq<SampleView>) -> bool {
    exists|states: Seq<ClusterState>| #[trigger]
        sampled_run(ClusterState::initial(5), 600, Goal::Led, states, samples)
}

/// The election of a new cluster's first leader.
pub fn election_trace() -> (samples: Vec<Sample>)
    ensures
        shows_election(samples.deep_view()),
        crate::charts::fits(samples.deep_view()),
{
    let mut cluster = Cluster::new(5);
    let samples = sample_until(&mut cluster, 600, &Goal::Led);
    proof {
        assert forall|i: int| 0 <= i < samples.deep_view().len() implies 72 + (
        #[trigger] samples.deep_view()[i]).roles.len() * 48 + 48 <= i32::MAX by {
            assert(samples.deep_view()[i] == samples@[i]@);
        }
    }
    samples
}

/// Samples of a failover: at first the leader is stopped, then samples are taken
/// every 50 milliseconds.
pub open spec fn failover_run(
    led: ClusterState,
    leader: NodeId,
    states: Seq<ClusterState>,
    samples: Seq<SampleView>,
) -> bool {
    &&& states.len() == samples.len() == 13
    &&& waits(led, 200, states[0])
    &&& is_leader(states[0], leader)
    &&& samples[0] == crate::charts::sampled(
        states[0],
        0,
        Some("kill node "@ + crate::numbers::decimal(leader as nat)),
    )
    &&& waits(stopped(states[0], leader), 50, states[1])
    &&& forall|k: int| 1 <= k < 12 ==> waits(#[trigger] states[k], 50, states[k + 1])
    &&& forall|k: int|
        1 <= k < 13 ==> #[trigger] samples[k] == crate::charts::sampled(
            states[k],
            (k * 50) as u64,
            None,
        )
}

/// A cluster with one node stopped.
pub open spec fn stopped(state: ClusterState, id: NodeId) -> ClusterState {
    ClusterState { stopped: state.stopped.insert(id), ..state }
}

/// A led cluster after another 200 milliseconds, with its leader then.
fn settled_cluster() -> (settled: Option<(Cluster, NodeId)>)
    ensures
        match settled {
            Some((cluster, leader)) => {
                &&& cluster.wf()
                &&& cluster@.nodes.len() == 5
                &&& cluster@.now_ms <= 802
                &&& is_leader(cluster@, leader)
                &&& exists|led: ClusterState| #[trigger] first_led(led) && waits(led, 200, cluster@)
            },
            None => unsettled(),
        },
{
    let mut cluster = match led_cluster() {
        Some((cluster, _)) => cluster,
        None => {
            return None;
        },
    };
    let ghost led = cluster@;
    wait(&mut cluster, 200);
    assert(waits(led, 200, cluster@));
    match cluster.leader() {
        Some(leader) => Some((cluster, leader)),
        None => {
            assert(!Goal::Led.met(cluster@));
            None
        },
    }
}

/// The failover after a leader's end; none where there is no leader to begin
/// with.
pub fn failover_trace() -> (samples: Option<Vec<Sample>>)
    ensures
        match samples {
            Some(samples) => {
                &&& crate::charts::fits(samples.deep_view())
                &&& exists|led: ClusterState, leader: NodeId, states: Seq<ClusterState>|
                    first_led(led) && #[trigger] failover_run(
                        led,
                        leader,
                        states,
                        samples.deep_view(),
                    )
            },
            None => unsettled(),
        },
{
    let (mut cluster, leader) = match settled_cluster() {
        Some((cluster, leader)) => (cluster, leader),
        None => {
            return None;
        },
    };
    let ghost led = choose|led: ClusterState| #[trigger] first_led(led) && waits(led, 200, cluster@);
    let ghost first = cluster@;
    let mut note = String::from_str("kill node ");
    crate::numbers::push_decimal(&mut note, leader as u64);
    let mut samples: Vec<Sample> = Vec::new();
    samples.push(sample(&cluster, 0, Some(note)));
    cluster.stop(leader);
    let ghost mut states: Seq<ClusterState> = seq![first];
    let ghost mut here = cluster@;
    assert(here == stopped(first, leader));
    let mut offset: u64 = 50;
    while offset <= 600
        invariant
            cluster.wf(),
            here == cluster@,
            cluster@.nodes.len() == 5,
            50 <= offset <= 650,
            offset == samples@.len() * 50,
            cluster@.now_ms <= 802 + samples@.len() * 51,
            states.len() == samples@.len() >= 1,
            states[0] == first,
            first.nodes.len() == 5,
            states.len() == 1 ==> here == stopped(first, leader),
            states.len() > 1 ==> here == states.last() && waits(
                stopped(first, leader),
                50,
                states[1],
            ),
            samples@[0]@ == crate::charts::sampled(
                first,
                0,
                Some("kill node "@ + crate::numbers::decimal(leader as nat)),
            ),
            forall|k: int|
                1 <= k < states.len() - 1 ==> waits(#[trigger] states[k], 50, states[k + 1]),
            forall|k: int|
                1 <= k < states.len() ==> (#[trigger] samples@[k])@ == crate::charts::sampled(
                    states[k],
                    (k * 50) as u64,
                    None,
                ),
            forall|k: int|
                0 <= k < samples@.len() ==> (#[trigger] samples@[k]).roles@.len() == 5,
        decreases 650 - offset,
    {
        let ghost earlier = states;
        let ghost taken = samples@;
        wait(&mut cluster, 50);
        assert(waits(here, 50, cluster@));
        samples.push(sample(&cluster, offset, None));
        proof {
            states = states.push(cluster@);
            here = cluster@;
            assert forall|k: int| 1 <= k < states.len() - 1 implies waits(
                #[trigger] states[k],
                50,
                states[k + 1],
            ) by {
                assert(states[k] == earlier[k]);
                if k < earlier.len() - 1 {
                    assert(states[k + 1] == earlier[k + 1]);
                }
            }
            assert forall|k: int| 1 <= k < states.len() implies (#[trigger] samples@[k])@
                == crate::charts::sampled(states[k], (k * 50) as u64, None) by {
                if k < earlier.len() {
                    assert(samples@[k] == taken[k]);
                    assert(states[k] == earlier[k]);
                }
            }
        }
        offset = offset + 50;
    }
    proof {
        assert forall|k: int| 0 <= k < samples@.len() implies #[trigger] samples.deep_view()[k]
            == samples@[k]@ by {}
        assert(failover_run(led, leader, states, samples.deep_view()));
    }
    Some(samples)
}

/// A write of one text under another.
pub open spec fn is_put(request: ClientRequest, key: Seq<char>, value: Seq<char>) -> bool {
    crate::client::request_view(request) == crate::client::RequestView::Put(key, value)
}

fn put(key: &str, value: &str) -> (request: ClientRequest)
    ensures
        is_put(request, key@, value@),
{
    ClientRequest::Put { key: String::from_str(key), value: String::from_str(value) }
}

fn holds(key: &str, value: &str) -> (goal: Goal)
    ensures
        is_holding(goal, key@, value@),
{
    Goal::Holds { key: String::from_str(key), value: String::from_str(value) }
}

/// The goal that all nodes hold one text under another.
pub open spec fn is_holding(goal: Goal, key: Seq<char>, value: Seq<char>) -> bool {
    goal matches Goal::Holds { key: named, value: given } && named@ == key && given@ == value
}

/// A run of a cluster of five that ends when a write has got everywhere, or
/// without that when its time is over.
pub open spec fn replicated(state: ClusterState, everywhere: bool) -> bool {
    exists|led: ClusterState, leader: NodeId, request: ClientRequest, goal: Goal|
        {
            &&& #[trigger] first_led(led)
            &&& #[trigger] is_leader(led, leader)
            &&& #[trigger] is_put(request, "foo"@, "bar"@)
            &&& is_holding(goal, "foo"@, "bar"@)
            &&& #[trigger] reaches(led.proposed(leader, request), 1200, goal, state)
            &&& goal.met(state) == everywhere
        }
}

/// The table of what the nodes hold once a write has got everywhere; none where it
/// does not in time.
pub fn replication_table() -> (table: Option<String>)
    ensures
        match table {
            Some(table) => exists|state: ClusterState| #[trigger]
                replicated(state, true) && table@ == crate::charts::replication_report(state),
            None => unled() || exists|state: ClusterState| #[trigger] replicated(state, false),
        },
{
    let (mut cluster, leader) = match led_cluster() {
        Some((cluster, leader)) => (cluster, leader),
        None => {
            return None;
        },
    };
    let ghost led = cluster@;
    let request = put("foo", "bar");
    let ghost given = request;
    let reply = cluster.propose(leader, request);
    if !reply.success {
        return None;
    }
    assert(cluster@ == led.proposed(leader, given));
    let goal = holds("foo", "bar");
    let everywhere = run_to(&mut cluster, 1200, &goal);
    assert(reaches(led.proposed(leader, given), 1200, goal, cluster@));
    assert(replicated(cluster@, everywhere));
    if !everywhere {
        return None;
    }
    Some(replication_text(&cluster))
}

/// A run of a cluster of five that ends when two writes have got everywhere, or
/// without that when its time is over.
pub open spec fn twice_replicated(state: ClusterState, everywhere: bool) -> bool {
    exists|
        led: ClusterState,
        leader: NodeId,
        first: ClientRequest,
        second: ClientRequest,
        goal: Goal,
    |
        {
            &&& #[trigger] first_led(led)
            &&& #[trigger] is_leader(led, leader)
            &&& #[trigger] is_put(first, "foo"@, "bar"@)
            &&& #[trigger] is_put(second, "baz"@, "qux"@)
            &&& is_holding(goal, "baz"@, "qux"@)
            &&& #[trigger] reaches(
                led.proposed(leader, first).proposed(leader, second),
                1400,
                goal,
                state,
            )
            &&& goal.met(state) == everywhere
        }
}

/// A cluster in which two writes have got everywhere; none where they do not in
/// time.
pub fn committed_cluster() -> (cluster: Option<Cluster>)
    ensures
        match cluster {
            Some(cluster) => {
                &&& cluster.wf()
                &&& cluster@.nodes.len() == 5
                &&& twice_replicated(cluster@, true)
            },
            None => unled() || exists|state: ClusterState| #[trigger]
                twice_replicated(state, false),
        },
{
    let (mut cluster, leader) = match led_cluster() {
        Some((cluster, leader)) => (cluster, leader),
        None => {
            return None;
        },
    };
    let ghost led = cluster@;
    let first = put("foo", "bar");
    let ghost one = first;
    if !cluster.propose(leader, first).success {
        return None;
    }
    let ghost once = cluster@;
    let second = put("baz", "qux");
    let ghost two = second;
    assert(once.nodes.len() == 5);
    if !cluster.propose(leader, second).success {
        return None;
    }
    let ghost twice = cluster@;
    assert(twice.nodes.len() == 5);
    assert(once == led.proposed(leader, one));
    assert(twice == once.proposed(leader, two));
    let goal = holds("baz", "qux");
    let everywhere = run_to(&mut cluster, 1400, &goal);
    assert(reaches(led.proposed(leader, one).proposed(leader, two), 1400, goal, cluster@));
    assert(twice_replicated(cluster@, everywhere));
    if !everywhere {
        return None;
    }
    Some(cluster)
}

/// The time until a new cluster has a leader.
pub open spec fn election_time(elapsed_ms: u64) -> bool {
    exists|states: Seq<ClusterState>| #[trigger]
        timed(ClusterState::initial(5), 1000, Goal::Led, states, elapsed_ms)
}

/// The time until another node leads after the leader was stopped.
pub open spec fn failover_time(elapsed_ms: u64) -> bool {
    exists|
        led: ClusterState,
        settled: ClusterState,
        leader: NodeId,
        states: Seq<ClusterState>,
    |
        {
            &&& first_led(led)
            &&& #[trigger] waits(led, 200, settled)
            &&& #[trigger] is_leader(settled, leader)
            &&& #[trigger] timed(
                stopped(settled, leader),
                1000,
                Goal::LedByOther(leader),
                states,
                elapsed_ms,
            )
        }
}

/// The time until a write has got everywhere.
pub open spec fn replication_time(elapsed_ms: u64) -> bool {
    exists|
        led: ClusterState,
        leader: NodeId,
        request: ClientRequest,
        goal: Goal,
        states: Seq<ClusterState>,
    |
        {
            &&& #[trigger] first_led(led)
            &&& #[trigger] is_leader(led, leader)
            &&& #[trigger] is_put(request, "foo"@, "bar"@)
            &&& is_holding(goal, "foo"@, "bar"@)
            &&& #[trigger] timed(led.proposed(leader, request), 1000, goal, states, elapsed_ms)
        }
}

fn time_election() -> (elapsed_ms: u64)
    ensures
        election_time(elapsed_ms),
{
    let mut cluster = Cluster::new(5);
    first_time_until(&mut cluster, 1000, &Goal::Led)
}

proof fn failover_is_timed(
    led: ClusterState,
    settled: ClusterState,
    leader: NodeId,
    elapsed_ms: u64,
)
    requires
        first_led(led),
        waits(led, 200, settled),
        is_leader(settled, leader),
        exists|states: Seq<ClusterState>| #[trigger]
            timed(
                stopped(settled, leader),
                1000,
                Goal::LedByOther(leader),
                states,
                elapsed_ms,
            ),
    ensures
        failover_time(elapsed_ms),
{
}

/// Stops a cluster's leader and tells how long it takes until another node leads.
fn time_without(cluster: Cluster, leader: NodeId) -> (elapsed_ms: u64)
    requires
        cluster.wf(),
        cluster@.nodes.len() == 5,
        cluster@.now_ms <= 802,
        leader < 5,
    ensures
        exists|states: Seq<ClusterState>| #[trigger]
            timed(
                stopped(cluster@, leader),
                1000,
                Goal::LedByOther(leader),
                states,
                elapsed_ms,
            ),
{
    let mut cluster = cluster;
    let ghost settled = cluster@;
    cluster.stop(leader);
    assert(cluster@ == stopped(settled, leader));
    first_time_until(&mut cluster, 1000, &Goal::LedByOther(leader))
}

fn time_failover() -> (elapsed_ms: Option<u64>)
    ensures
        match elapsed_ms {
            Some(elapsed_ms) => failover_time(elapsed_ms),
            None => unsettled(),
        },
{
    match settled_cluster() {
        Some((cluster, leader)) => {
            let ghost settled = cluster@;
            let elapsed: u64 = time_without(cluster, leader);
            proof {
                let led = choose|led: ClusterState| #[trigger]
                    first_led(led) && waits(led, 200, settled);
                failover_is_timed(led, settled, leader, elapsed);
            }
            Some(elapsed)
        },
        None => None,
    }
}

fn time_replication() -> (elapsed_ms: Option<u64>)
    ensures
        match elapsed_ms {
            Some(elapsed_ms) => replication_time(elapsed_ms),
            None => unled(),
        },
{
    let (mut cluster, leader) = match led_cluster() {
        Some((cluster, leader)) => (cluster, leader),
        None => {
            return None;
        },
    };
    let ghost led = cluster@;
    let request = put("foo", "bar");
    let ghost given = request;
    let _ = cluster.propose(leader, request);
    let ghost asked = cluster@;
    assert(asked.nodes.len() == 5);
    let goal = holds("foo", "bar");
    let elapsed: u64 = first_time_until(&mut cluster, 1000, &goal);
    proof {
        assert(asked == led.proposed(leader, given));
        let states = choose|states: Seq<ClusterState>| #[trigger]
            timed(asked, 1000, goal, states, elapsed) && states.last() == cluster@;
        assert(timed(led.proposed(leader, given), 1000, goal, states, elapsed));
    }
    Some(elapsed)
}

/// The table of measured times; none where a cluster has no leader to begin with.
pub fn metrics_table() -> (table: Option<String>)
    ensures
        match table {
            Some(table) => exists|election: u64, failover: u64, replication: u64|
                {
                    &&& #[trigger] election_time(election)
                    &&& #[trigger] failover_time(failover)
                    &&& #[trigger] replication_time(replication)
                    &&& table@ == crate::charts::times_report(election, failover, replication)
                },
            None => unsettled(),
        },
{
    let election: u64 = time_election();
    let failover: u64 = match time_failover() {
        Some(failover) => failover,
        None => {
            return None;
        },
    };
    let replication: u64 = match time_replication() {
        Some(replication) => replication,
        None => {
            return None;
        },
    };
    Some(times_text(election, failover, replication))
}

} // verus!
