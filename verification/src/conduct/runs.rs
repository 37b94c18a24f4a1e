//! Runs of a simulated cluster: when they end, and what is sampled and measured.
use crate::charts::SampleView;
use crate::cluster_state::ClusterState;
use crate::demo::Goal;
use crate::types::{NodeId, Role};
use vstd::prelude::*;

verus! {

/// A node runs and leads.
pub open spec fn runs_and_leads(state: ClusterState, id: int) -> bool {
    &&& 0 <= id < state.nodes.len()
    &&& state.nodes[id].role == Role::Leader
    &&& !state.stopped.contains(id as NodeId)
}

/// A node is the only one that runs and leads.
pub open spec fn leads_alone(state: ClusterState, id: int) -> bool {
    runs_and_leads(state, id) && forall|other: int| #[trigger]
        runs_and_leads(state, other) ==> other == id
}

/// A cluster is led if one of its running nodes leads and no other does; by another
/// than the old leader if that node is another. A value has got everywhere if every
/// node finds it under its key.
pub proof fn goals_are_what_they_say(
    state: ClusterState,
    old_leader: NodeId,
    key: String,
    value: String,
)
    requires
        state.nodes.len() <= usize::MAX,
    ensures
        Goal::Led.met(state) <==> exists|id: int| #[trigger] leads_alone(state, id),
        Goal::LedByOther(old_leader).met(state) <==> exists|id: int| #[trigger]
            leads_alone(state, id) && id != old_leader,
        (Goal::Holds { key, value }).met(state) <==> forall|i: int|
            0 <= i < state.nodes.len() ==> (#[trigger] state.nodes[i]).data.data.contains_key(key@)
                && state.nodes[i].data.data[key@] == value@,
{
    assert forall|id: NodeId| #[trigger] crate::demo::is_leader(state, id) implies leads_alone(
        state,
        id as int,
    ) by {
        alone_is_leader(state, id);
    }
    assert forall|id: int| #[trigger] leads_alone(state, id) implies crate::demo::is_leader(
        state,
        id as NodeId,
    ) by {
        alone_is_leader(state, id as NodeId);
    }
    if (Goal::Holds { key, value }).met(state) {
        assert forall|i: int| 0 <= i < state.nodes.len() implies (
        #[trigger] state.nodes[i]).data.data.contains_key(key@) && state.nodes[i].data.data[key@]
            == value@ by {
            assert(state.nodes[i].data.lookup(key@) == Some(value@));
        }
    }
}

proof fn alone_is_leader(state: ClusterState, id: NodeId)
    ensures
        crate::demo::is_leader(state, id) <==> leads_alone(state, id as int),
{
    assert forall|other: int| #[trigger] state.leads(other) <==> runs_and_leads(state, other) by {}
    if crate::demo::is_leader(state, id) {
        assert forall|other: int| #[trigger] runs_and_leads(state, other) implies other == id by {
            assert(state.leads(other));
        }
    }
    if leads_alone(state, id as int) {
        assert(runs_and_leads(state, id as int));
        assert forall|other: int| #[trigger] state.leads(other) implies other == id by {
            assert(runs_and_leads(state, other));
        }
    }
}

/// A run to a goal stops at the first step at which the goal is met or the deadline is
/// past: it takes every step before that.
pub proof fn runs_stop_at_the_goal(
    from: ClusterState,
    deadline_ms: u64,
    goal: Goal,
    to: ClusterState,
) -> (steps: nat)
    requires
        crate::demo::reaches(from, deadline_ms, goal, to),
        deadline_ms + 301 <= u64::MAX,
    ensures
        to == from.after(steps),
        goal.met(to) || to.now_ms > deadline_ms,
        forall|earlier: nat|
            earlier < steps ==> !goal.met(#[trigger] from.after(earlier)) && from.after(
                earlier,
            ).now_ms <= deadline_ms,
{
    reveal(crate::demo::reaches);
    choose|steps: nat|
        {
            &&& to == #[trigger] from.after(steps)
            &&& goal.met(to) || to.now_ms > deadline_ms
                || !crate::cluster_state::clock_has_room(deadline_ms + 1) && !to.can_step()
            &&& forall|earlier: nat|
                earlier < steps ==> (#[trigger] from.after(earlier)).now_ms <= deadline_ms
                    && !goal.met(from.after(earlier))
        }
}

/// A goal that is met at once ends a run before its first step.
pub proof fn a_goal_that_is_met_ends_a_run(
    from: ClusterState,
    deadline_ms: u64,
    goal: Goal,
    to: ClusterState,
)
    requires
        crate::demo::reaches(from, deadline_ms, goal, to),
        goal.met(from) || from.now_ms > deadline_ms,
    ensures
        to == from,
{
    reveal(crate::demo::reaches);
    let steps = choose|steps: nat|
        {
            &&& to == #[trigger] from.after(steps)
            &&& goal.met(to) || to.now_ms > deadline_ms
                || !crate::cluster_state::clock_has_room(deadline_ms + 1) && !to.can_step()
            &&& forall|earlier: nat|
                earlier < steps ==> (#[trigger] from.after(earlier)).now_ms <= deadline_ms
                    && !goal.met(from.after(earlier))
        };
    if steps > 0 {
        assert(from.after(0) == from);
    }
}

/// A wait lasts as long as it says.
pub proof fn waits_last_as_long_as_they_say(from: ClusterState, duration_ms: u64, to: ClusterState)
    requires
        crate::demo::waits(from, duration_ms, to),
        from.now_ms + duration_ms + 301 <= u64::MAX,
    ensures
        to.now_ms == from.now_ms + duration_ms + 1,
        exists|steps: nat| to == #[trigger] from.after(steps),
{
    reveal(crate::demo::waits);
    let steps = crate::conduct::simulation::runs_last_until_the_time_is_past(from, duration_ms, to);
    assert(to == from.after(steps));
}

/// A cluster is sampled where it stands, and then every fifty milliseconds: a sample
/// shows that time and the nodes' roles. Sampling ends with the sample at which the
/// goal is met, or with the last before the deadline.
pub proof fn samples_are_fifty_milliseconds_apart(
    from: ClusterState,
    deadline_ms: u64,
    goal: Goal,
    states: Seq<ClusterState>,
    samples: Seq<SampleView>,
    k: int,
    i: int,
)
    requires
        crate::demo::sampled_run(from, deadline_ms, goal, states, samples),
        0 <= k < samples.len(),
    ensures
        states.len() == samples.len(),
        states[0] == from,
        samples[k].time_ms == k * 50,
        samples[k].time_ms <= deadline_ms,
        samples[k].note is None,
        samples[k].roles.len() == states[k].nodes.len(),
        0 <= i < states[k].nodes.len() && i <= usize::MAX ==> samples[k].roles[i] == (
            i as NodeId,
            states[k].nodes[i].role,
        ),
        k < samples.len() - 1 ==> !goal.met(states[k]) && crate::demo::waits(
            states[k],
            50,
            states[k + 1],
        ),
        k == samples.len() - 1 ==> goal.met(states[k]) || samples[k].time_ms + 50 > deadline_ms,
{
    assert(k * 50 <= (states.len() - 1) * 50);
    assert(samples[k] == crate::charts::sampled(states[k], (k * 50) as u64, None));
    if k < samples.len() - 1 {
        assert(!goal.met(states[k]));
    }
}

/// After sampling a cluster stands where its goal was met, or a wait after the last
/// sample.
pub proof fn sampling_leaves_the_cluster_there(goal: Goal, last: ClusterState, end: ClusterState)
    requires
        crate::demo::sampling_ends(goal, last, end),
    ensures
        goal.met(last) ==> end == last,
        !goal.met(last) ==> crate::demo::waits(last, 50, end),
{
}

/// The time until a goal is the time on the clock from where a cluster stands to the
/// first look, two milliseconds apart, at which it is met or the limit is past.
pub proof fn the_time_to_a_goal_is_measured(
    from: ClusterState,
    limit_ms: u64,
    goal: Goal,
    states: Seq<ClusterState>,
    elapsed_ms: u64,
    k: int,
)
    requires
        crate::demo::timed(from, limit_ms, goal, states, elapsed_ms),
        from.now_ms + limit_ms + 302 <= u64::MAX,
    ensures
        states.len() > 0,
        states[0] == from,
        states.last().now_ms - from.now_ms == elapsed_ms,
        goal.met(states.last()) || elapsed_ms > limit_ms,
        0 <= k < states.len() - 1 ==> {
            &&& !goal.met(states[k])
            &&& states[k].now_ms <= from.now_ms + limit_ms
            &&& states[k + 1].now_ms == states[k].now_ms + 2
        },
{
    reveal(crate::demo::timed);
    if 0 <= k < states.len() - 1 {
        assert(!goal.met(states[k]));
        waits_last_as_long_as_they_say(states[k], 1, states[k + 1]);
    }
}

/// A new cluster of five nodes runs until it is led, for at most six hundred
/// milliseconds.
pub proof fn five_nodes_elect_a_leader(state: ClusterState)
    ensures
        crate::demo::first_led(state) ==> {
            &&& exists|steps: nat| state == #[trigger] ClusterState::initial(5).after(steps)
            &&& Goal::Led.met(state) || state.now_ms > 600
        },
{
    if crate::demo::first_led(state) {
        let steps = runs_stop_at_the_goal(ClusterState::initial(5), 600, Goal::Led, state);
        assert(state == ClusterState::initial(5).after(steps));
    }
}

/// The samples of an election are those of a new cluster of five until it is led, in
/// at most six hundred milliseconds.
pub proof fn an_election_is_sampled_until_there_is_a_leader(samples: Seq<SampleView>) -> (states:
    Seq<ClusterState>)
    requires
        crate::demo::shows_election(samples),
    ensures
        states.len() == samples.len() > 0,
        states[0] == ClusterState::initial(5),
        samples.len() <= 13,
        samples[0].roles.len() == 5,
        forall|i: int|
            0 <= i < 5 ==> (#[trigger] samples[0].roles[i]) == (i as NodeId, Role::Follower),
        Goal::Led.met(states.last()) || samples.len() == 13,
        forall|k: int| 0 <= k < samples.len() ==> (#[trigger] samples[k]).time_ms == k * 50,
{
    let states = choose|states: Seq<ClusterState>| #[trigger]
        crate::demo::sampled_run(ClusterState::initial(5), 600, Goal::Led, states, samples);
    assert(samples[0] == crate::charts::sampled(states[0], 0, None));
    assert forall|k: int| 0 <= k < samples.len() implies (#[trigger] samples[k]).time_ms == k
        * 50 by {
        samples_are_fifty_milliseconds_apart(
            ClusterState::initial(5),
            600,
            Goal::Led,
            states,
            samples,
            k,
            0,
        );
    }
    states
}

/// A failover is sampled thirteen times, fifty milliseconds apart: at first the leader
/// of a settled cluster still runs, and the note tells of its end; then it is stopped.
pub proof fn a_failover_is_sampled_from_the_leaders_end(
    led: ClusterState,
    leader: NodeId,
    states: Seq<ClusterState>,
    samples: Seq<SampleView>,
    k: int,
)
    requires
        crate::demo::failover_run(led, leader, states, samples),
        0 <= k < samples.len(),
        led.nodes.len() <= usize::MAX,
    ensures
        samples.len() == 13,
        states.len() == 13,
        samples[k].time_ms == k * 50,
        samples[k].roles.len() == states[k].nodes.len(),
        crate::demo::waits(led, 200, states[0]),
        leads_alone(states[0], leader as int),
        samples[0].note == Some("kill node "@ + crate::numbers::decimal(leader as nat)),
        k > 0 ==> samples[k].note is None,
        crate::demo::waits(
            ClusterState { stopped: states[0].stopped.insert(leader), ..states[0] },
            50,
            states[1],
        ),
        1 <= k < 12 ==> crate::demo::waits(states[k], 50, states[k + 1]),
{
    alone_is_leader(states[0], leader);
    if k > 0 {
        assert(samples[k] == crate::charts::sampled(states[k], (k * 50) as u64, None));
    }
    if 1 <= k < 12 {
        assert(crate::demo::waits(states[k], 50, states[k + 1]));
    }
}

/// A write that was waited for has got everywhere: every node holds `bar` under `foo`.
pub proof fn the_replicated_write_is_everywhere(state: ClusterState, i: int)
    requires
        crate::demo::replicated(state, true),
        0 <= i < state.nodes.len(),
    ensures
        state.nodes[i].data.data.contains_key("foo"@),
        state.nodes[i].data.data["foo"@] == "bar"@,
{
    let (led, leader, request, goal) = choose|
        led: ClusterState,
        leader: NodeId,
        request: crate::types::ClientRequest,
        goal: Goal,
    |
        {
            &&& #[trigger] crate::demo::first_led(led)
            &&& #[trigger] crate::demo::is_leader(led, leader)
            &&& #[trigger] crate::demo::is_put(request, "foo"@, "bar"@)
            &&& crate::demo::is_holding(goal, "foo"@, "bar"@)
            &&& #[trigger] crate::demo::reaches(led.proposed(leader, request), 1200, goal, state)
            &&& goal.met(state) == true
        };
    let key = goal->key;
    let value = goal->value;
    assert(goal == Goal::Holds { key, value });
    goal_is_everywhere(state, key, value, i);
}

proof fn goal_is_everywhere(state: ClusterState, key: String, value: String, i: int)
    requires
        (Goal::Holds { key, value }).met(state),
        0 <= i < state.nodes.len(),
    ensures
        state.nodes[i].data.data.contains_key(key@),
        state.nodes[i].data.data[key@] == value@,
{
    assert(state.nodes[i].data.lookup(key@) == Some(value@));
}

/// Where a write was waited for in vain, the time of a run that began with it was over.
pub proof fn a_run_without_the_write_was_too_long(state: ClusterState)
    requires
        crate::demo::replicated(state, false),
    ensures
        state.now_ms > 1200,
{
    let (led, leader, request, goal) = choose|
        led: ClusterState,
        leader: NodeId,
        request: crate::types::ClientRequest,
        goal: Goal,
    |
        {
            &&& #[trigger] crate::demo::first_led(led)
            &&& #[trigger] crate::demo::is_leader(led, leader)
            &&& #[trigger] crate::demo::is_put(request, "foo"@, "bar"@)
            &&& crate::demo::is_holding(goal, "foo"@, "bar"@)
            &&& #[trigger] crate::demo::reaches(led.proposed(leader, request), 1200, goal, state)
            &&& goal.met(state) == false
        };
    let steps = runs_stop_at_the_goal(led.proposed(leader, request), 1200, goal, state);
}

/// Of two writes that were waited for, every node holds the second, `qux` under `baz`.
pub proof fn the_second_write_is_everywhere(state: ClusterState, i: int)
    requires
        crate::demo::twice_replicated(state, true),
        0 <= i < state.nodes.len(),
    ensures
        state.nodes[i].data.data.contains_key("baz"@),
        state.nodes[i].data.data["baz"@] == "qux"@,
{
    let (led, leader, first, second, goal) = choose|
        led: ClusterState,
        leader: NodeId,
        first: crate::types::ClientRequest,
        second: crate::types::ClientRequest,
        goal: Goal,
    |
        {
            &&& #[trigger] crate::demo::first_led(led)
            &&& #[trigger] crate::demo::is_leader(led, leader)
            &&& #[trigger] crate::demo::is_put(first, "foo"@, "bar"@)
            &&& #[trigger] crate::demo::is_put(second, "baz"@, "qux"@)
            &&& crate::demo::is_holding(goal, "baz"@, "qux"@)
            &&& #[trigger] crate::demo::reaches(
                led.proposed(leader, first).proposed(leader, second),
                1400,
                goal,
                state,
            )
            &&& goal.met(state) == true
        };
    let key = goal->key;
    let value = goal->value;
    assert(goal == Goal::Holds { key, value });
    goal_is_everywhere(state, key, value, i);
}

/// The time of an election is that of a new cluster of five until it is led, or above a
/// thousand milliseconds.
pub proof fn the_election_time_ends_with_a_leader(elapsed_ms: u64) -> (states: Seq<ClusterState>)
    requires
        crate::demo::election_time(elapsed_ms),
    ensures
        states.len() > 0,
        states[0] == ClusterState::initial(5),
        states.last().now_ms == elapsed_ms,
        Goal::Led.met(states.last()) || elapsed_ms > 1000,
        forall|k: int| 0 <= k < states.len() - 1 ==> !Goal::Led.met(#[trigger] states[k]),
{
    let states = choose|states: Seq<ClusterState>| #[trigger]
        crate::demo::timed(ClusterState::initial(5), 1000, Goal::Led, states, elapsed_ms);
    the_time_to_a_goal_is_measured(ClusterState::initial(5), 1000, Goal::Led, states, elapsed_ms, 0);
    assert forall|k: int| 0 <= k < states.len() - 1 implies !Goal::Led.met(#[trigger] states[k]) by {
        the_time_to_a_goal_is_measured(
            ClusterState::initial(5),
            1000,
            Goal::Led,
            states,
            elapsed_ms,
            k,
        );
    }
    states
}

/// The time of a failover is that from the leader's end, in a cluster that was led and
/// then left alone for two hundred milliseconds, until another node leads.
pub proof fn the_failover_time_ends_with_another_leader(elapsed_ms: u64) -> (ends: (
    ClusterState,
    NodeId,
    Seq<ClusterState>,
))
    requires
        crate::demo::failover_time(elapsed_ms),
    ensures
        ({
            let (settled, leader, states) = ends;
            let start = ClusterState { stopped: settled.stopped.insert(leader), ..settled };
            &&& leads_alone(settled, leader as int)
            &&& states.len() > 0
            &&& states[0] == start
            &&& exists|led: ClusterState| #[trigger]
                crate::demo::first_led(led) && crate::demo::waits(led, 200, settled)
            &&& crate::demo::timed(start, 1000, Goal::LedByOther(leader), states, elapsed_ms)
        }),
{
    let (led, settled, leader, states) = choose|
        led: ClusterState,
        settled: ClusterState,
        leader: NodeId,
        states: Seq<ClusterState>,
    |
        {
            &&& crate::demo::first_led(led)
            &&& #[trigger] crate::demo::waits(led, 200, settled)
            &&& #[trigger] crate::demo::is_leader(settled, leader)
            &&& #[trigger] crate::demo::timed(
                crate::demo::stopped(settled, leader),
                1000,
                Goal::LedByOther(leader),
                states,
                elapsed_ms,
            )
        };
    alone_is_leader(settled, leader);
    reveal(crate::demo::timed);
    assert(crate::demo::first_led(led) && crate::demo::waits(led, 200, settled));
    (settled, leader, states)
}

} // verus!
