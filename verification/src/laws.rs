//! What holds of every simulation, whatever has happened in it.

use vstd::prelude::*;
use crate::car::CarState;
use crate::driving::DrivingSimState;
use crate::intersection::{lemma_waiting_is_blocked, Movement};
use crate::model::{car_on, Call, SimView};
use crate::queue::{lemma_no_overlap, lemma_no_passing, lemma_queue_order_is_road_order, same_car};
use crate::soundness::{
    lemma_advance_keeps_sound, lemma_initial_is_sound, lemma_spawned_is_sound, lemma_withdrawn_is_sound,
};
use crate::topology::{conflict_in, LaneID, MapTopology, Traversable, TurnID};
use crate::units::{Duration, Time, FOLLOWING_DISTANCE};

verus! {

/// Whatever calls are made on a simulation that starts on a sound map, in
/// whatever order, leave it sound: at all times every queue keeps its cars
/// apart, every car is on its way by a route over the map, no arbiter has
/// two conflicting turns in use, and every car on a turn has its arbiter's
/// leave. The map stays as it was, and the simulation holds one car for
/// each that was accepted and not called back.
pub proof fn lemma_sound_at_all_times(map: MapTopology, calls: Seq<Call>)
    requires
        map.wf(),
    ensures
        SimView::initial(map).after(calls).wf(),
        SimView::initial(map).after(calls).map == map,
    decreases calls.len(),
{
    let fresh = SimView::initial(map);
    if calls.len() == 0 {
        lemma_initial_is_sound(map);
    } else {
        lemma_sound_at_all_times(map, calls.drop_last());
        let before = fresh.after(calls.drop_last());
        match calls.last() {
            Call::Spawn { vehicle, route, spawn_time, start_distance, end_distance } => {
                lemma_spawned_is_sound(before, vehicle, route, spawn_time, start_distance, end_distance);
            },
            Call::Withdraw { id } => {
                lemma_withdrawn_is_sound(before, id);
            },
            Call::Advance { now } => {
                lemma_advance_keeps_sound(before, now);
            },
        }
    }
}

/// Bringing the simulation up to date neither loses a car nor makes one: the
/// cars that wait to appear, those on the road and those whose journey is
/// over are together as many as before.
pub proof fn lemma_advance_loses_no_car(sim: SimView, now: Time)
    requires
        sim.wf(),
    ensures
        sim.advance(now).population() == sim.population(),
{
    lemma_advance_keeps_sound(sim, now);
}

/// Time never runs back.
pub proof fn lemma_time_never_runs_back(sim: SimView, call: Call)
    requires
        sim.wf(),
    ensures
        sim.after_call(call).time >= sim.time,
{
    if let Call::Advance { now } = call {
        lemma_advance_keeps_sound(sim, now);
    }
}

/// On every segment, between a car and the car ahead of it there is at
/// least the following distance, whatever has happened so far: their
/// middles are never closer than that distance and half the length of each.
pub proof fn lemma_cars_never_overlap(sim: SimView, on: Traversable, i: int)
    requires
        sim.wf(),
        0 < i < sim.queue(on).len(),
    ensures
        sim.queue(on)[i - 1].dist - (sim.queue(on)[i].dist + sim.queue(on)[i].vehicle.length)
            >= FOLLOWING_DISTANCE,
        (2 * sim.queue(on)[i - 1].dist + sim.queue(on)[i - 1].vehicle.length) - (2 * sim.queue(on)[i].dist
            + sim.queue(on)[i].vehicle.length) >= 2 * FOLLOWING_DISTANCE + sim.queue(on)[i
            - 1].vehicle.length + sim.queue(on)[i].vehicle.length,
{
    match on {
        Traversable::Lane(l) => {
            assert(sim.lane_ok(l.0 as int));
        },
        Traversable::Turn(t) => {
            assert(sim.turn_ok(t.0 as int));
        },
    }
    lemma_no_overlap(sim.queue(on), i);
}

/// No car is ever beyond the end of the segment it is on, nor, on the last
/// lane of its route, beyond the point where its journey ends.
pub proof fn lemma_cars_stay_on_their_segment(sim: SimView, on: Traversable, k: int)
    requires
        sim.wf(),
        0 <= k < sim.queue(on).len(),
    ensures
        sim.queue(on)[k].current_spec() == on,
        sim.queue(on)[k].dist <= sim.map.length_of(on),
        sim.queue(on)[k].is_last_step_spec() ==> sim.queue(on)[k].dist <= sim.queue(on)[k].end_dist
            <= sim.map.length_of(on),
{
    match on {
        Traversable::Lane(l) => {
            assert(sim.lane_ok(l.0 as int));
            assert(l.0 < sim.map.lanes.len());
            assert(car_on(sim.map, sim.lanes[l.0 as int][k], Traversable::Lane(LaneID(l.0))));
        },
        Traversable::Turn(t) => {
            assert(sim.turn_ok(t.0 as int));
            assert(t.0 < sim.map.turns.len());
            assert(car_on(sim.map, sim.turns[t.0 as int][k], Traversable::Turn(TurnID(t.0))));
        },
    }
}

/// A car whose journey is over stands exactly where the journey was to
/// end, on the last lane of its route, and is parked if it was sent to
/// park and done otherwise.
pub proof fn lemma_journeys_end_where_they_should(sim: SimView, i: int)
    requires
        sim.wf(),
        0 <= i < sim.finished.len(),
    ensures
        sim.finished[i].is_last_step_spec(),
        sim.finished[i].dist == sim.finished[i].end_dist,
        sim.finished[i].state.is_terminal(),
        sim.finished[i].state == CarState::Parked <==> sim.finished[i].route.parking.is_some(),
{
    assert(sim.finished_ok(i));
}

/// On every segment the cars stand in the order in which they are along
/// it, and driving changes neither which cars are there nor that order: no
/// car passes another.
pub proof fn lemma_cars_never_pass(sim: SimView, elapsed: Duration, on: Traversable, i: int, j: int)
    requires
        sim.wf(),
        0 <= i < j < sim.queue(on).len(),
    ensures
        sim.queue(on)[i].dist > sim.queue(on)[j].dist,
        sim.moved(elapsed).queue(on).len() == sim.queue(on).len(),
        same_car(sim.queue(on)[i], sim.moved(elapsed).queue(on)[i]),
        same_car(sim.queue(on)[j], sim.moved(elapsed).queue(on)[j]),
        sim.moved(elapsed).queue(on)[i].dist > sim.moved(elapsed).queue(on)[j].dist,
{
    match on {
        Traversable::Lane(l) => {
            assert(sim.lane_ok(l.0 as int));
            let lane = sim.map.lanes@[l.0 as int];
            lemma_no_passing(sim.queue(on), elapsed, lane.length, lane.speed_limit, i, j);
        },
        Traversable::Turn(t) => {
            assert(sim.turn_ok(t.0 as int));
            let turn = sim.map.turns@[t.0 as int];
            lemma_no_passing(sim.queue(on), elapsed, turn.length, turn.speed_limit, i, j);
        },
    }
    lemma_queue_order_is_road_order(sim.queue(on), i, j);
}

/// At every intersection, no two of the turns in use conflict by the map's
/// conflict table, whatever has happened so far.
pub proof fn lemma_turns_in_use_never_conflict(sim: SimView, i: int, a: int, b: int)
    requires
        sim.wf(),
        0 <= i < sim.intersections.len(),
        0 <= a < sim.intersections[i].active.len(),
        0 <= b < sim.intersections[i].active.len(),
    ensures
        !conflict_in(
            sim.map.intersections@[i].conflicts@,
            sim.intersections[i].active[a].turn,
            sim.intersections[i].active[b].turn,
        ),
{
    assert(sim.intersection_ok(i));
}

/// No car waits at an intersection without cause: the turn it waits for
/// conflicts with a turn in use.
pub proof fn lemma_no_car_waits_without_cause(sim: SimView, i: int, k: int)
    requires
        sim.wf(),
        0 <= i < sim.intersections.len(),
        0 <= k < sim.intersections[i].waiting.len(),
    ensures
        exists|a: int|
            0 <= a < sim.intersections[i].active.len() && conflict_in(
                sim.map.intersections@[i].conflicts@,
                (#[trigger] sim.intersections[i].active[a]).turn,
                sim.intersections[i].waiting[k].turn,
            ),
{
    assert(sim.intersection_ok(i));
    lemma_waiting_is_blocked(sim.intersections[i], k);
}

/// Cars are never on two conflicting turns at once: every car on a turn has
/// the arbiter's leave to be there, and the arbiter has no two conflicting
/// turns in use.
pub proof fn lemma_cars_cross_only_on_compatible_turns(sim: SimView, i: int, a: int, b: int)
    requires
        sim.wf(),
        0 <= a < sim.turns.len(),
        0 <= b < sim.turns.len(),
        sim.map.turns@[a].parent.0 == i,
        sim.map.turns@[b].parent.0 == i,
        sim.turns[a].len() > 0,
        sim.turns[b].len() > 0,
    ensures
        !conflict_in(sim.map.intersections@[i].conflicts@, TurnID(a as usize), TurnID(b as usize)),
{
    assert(sim.crossing_ok(a));
    assert(sim.crossing_ok(b));
    assert(sim.map.turn_ok(a));
    assert(sim.intersection_ok(i));
    assert(a < sim.map.turns.len() && b < sim.map.turns.len());
    let active = sim.intersections[i].active;
    let x = Movement { turn: TurnID(a as usize), car: sim.turns[a][0].vehicle.id };
    let y = Movement { turn: TurnID(b as usize), car: sim.turns[b][0].vehicle.id };
    assert(active.contains(x));
    assert(active.contains(y));
    let p = choose|p: int| 0 <= p < active.len() && active[p] == x;
    let q = choose|q: int| 0 <= q < active.len() && active[q] == y;
    assert(!conflict_in(sim.intersections[i].conflicts, active[p].turn, active[q].turn));
}

/// What the simulation does is settled by the state it is in and what it is
/// asked, and by nothing else: two simulations in the same state on which
/// the same calls are made, one after the other, are in the same state after
/// them, and show the same cars at the same places and speeds after each.
pub proof fn lemma_same_calls_same_trajectories(
    one: DrivingSimState,
    other: DrivingSimState,
    calls: Seq<Call>,
    again: Seq<Call>,
)
    requires
        one@ == other@,
        calls.len() == again.len(),
        forall|k: int| 0 <= k < calls.len() ==> calls[k] == again[k],
    ensures
        one@.after(calls) == other@.after(again),
        one@.trajectory(calls) == other@.trajectory(again),
{
    assert(calls =~= again);
}

/// Bringing the simulation up to an instant a second time changes nothing.
pub proof fn lemma_advance_is_idempotent(sim: SimView, now: Time)
    ensures
        sim.advance(now).advance(now) == sim.advance(now),
        sim.advance(now).time >= now,
{
}

/// Bringing the simulation up to an instant it has already reached changes
/// nothing.
pub proof fn lemma_advance_to_the_past_is_a_no_op(sim: SimView, now: Time)
    requires
        now <= sim.time,
    ensures
        sim.advance(now) == sim,
{
}

} // verus!
