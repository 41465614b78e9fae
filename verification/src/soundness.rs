//! Every step of the simulation takes a sound state to a sound state, and
//! loses no car.

use vstd::prelude::*;
use crate::car::{Car, Route};
use crate::intersection::{
    enqueued, lemma_place_for, lemma_released_keeps, lemma_released_keeps_sound, lemma_requested_keeps,
    lemma_requested_keeps_sound, place_for, Movement, Request,
};
use crate::model::{car_on, cars_in, next_turn, requests_ok, SimView};
use crate::queue::{
    finished_cars, lemma_driving_keeps_sound, lemma_holding_keeps_sound, lemma_joining_keeps_sound,
    lemma_leaving_keeps_sound, lemma_picking_keeps_sound, on_road, same_car, unfinished_cars,
};
use crate::topology::{LaneID, MapTopology, Traversable, TurnID};
use crate::units::{Distance, Duration, Time};
use crate::vehicle::{CarID, Vehicle};

verus! {

/// Putting other cars on one segment changes the number of cars on the
/// road by the difference.
proof fn lemma_cars_in_update(queues: Seq<Seq<Car>>, i: int, cars: Seq<Car>)
    requires
        0 <= i < queues.len(),
    ensures
        cars_in(queues.update(i, cars)) == cars_in(queues) - queues[i].len() + cars.len(),
    decreases queues.len(),
{
    if i == queues.len() - 1 {
        assert(queues.update(i, cars).drop_last() =~= queues.drop_last());
    } else {
        assert(queues.update(i, cars).drop_last() =~= queues.drop_last().update(i, cars));
        lemma_cars_in_update(queues.drop_last(), i, cars);
    }
}

/// Empty segments hold no cars.
proof fn lemma_cars_in_empty(queues: Seq<Seq<Car>>)
    requires
        forall|i: int| 0 <= i < queues.len() ==> (#[trigger] queues[i]).len() == 0,
    ensures
        cars_in(queues) == 0,
    decreases queues.len(),
{
    if queues.len() > 0 {
        lemma_cars_in_empty(queues.drop_last());
    }
}

/// A change that leaves the map alone and every queue, arbiter and waiting
/// car either as it was or sound leaves the simulation sound.
proof fn lemma_still_wf(before: SimView, after: SimView)
    requires
        before.wf(),
        after.map == before.map,
        after.lanes.len() == before.lanes.len(),
        after.turns.len() == before.turns.len(),
        after.intersections.len() == before.intersections.len(),
        forall|l: int| 0 <= l < after.lanes.len() ==> after.lanes[l] == before.lanes[l] || #[trigger] after.lane_ok(l),
        forall|t: int| 0 <= t < after.turns.len() ==> after.turns[t] == before.turns[t] || #[trigger] after.turn_ok(t),
        forall|t: int|
            0 <= t < after.turns.len() ==> (after.turns[t] == before.turns[t]
                && after.intersections[before.map.turns@[t].parent.0 as int]
                == before.intersections[before.map.turns@[t].parent.0 as int]) || #[trigger] after.crossing_ok(t),
        forall|i: int|
            0 <= i < after.intersections.len() ==> after.intersections[i] == before.intersections[i]
                || #[trigger] after.intersection_ok(i),
        after.pending == before.pending || forall|i: int|
            0 <= i < after.pending.len() ==> #[trigger] after.pending_ok(i),
        after.finished == before.finished || forall|i: int|
            0 <= i < after.finished.len() ==> #[trigger] after.finished_ok(i),
    ensures
        after.wf(),
{
    assert forall|i: int| 0 <= i < after.finished.len() implies #[trigger] after.finished_ok(i) by {
        if after.finished == before.finished {
            assert(before.finished_ok(i));
        }
    }
    assert forall|l: int| 0 <= l < after.lanes.len() implies #[trigger] after.lane_ok(l) by {
        assert(before.lane_ok(l));
    }
    assert forall|t: int| 0 <= t < after.turns.len() implies #[trigger] after.turn_ok(t) by {
        assert(before.turn_ok(t));
    }
    assert forall|t: int| 0 <= t < after.turns.len() implies #[trigger] after.crossing_ok(t) by {
        assert(before.crossing_ok(t));
    }
    assert forall|i: int| 0 <= i < after.intersections.len() implies #[trigger] after.intersection_ok(i) by {
        assert(before.intersection_ok(i));
    }
    assert forall|i: int| 0 <= i < after.pending.len() implies #[trigger] after.pending_ok(i) by {
        if after.pending == before.pending {
            assert(before.pending_ok(i));
        }
    }
}

/// Segments that hold as many cars each as before hold as many together.
proof fn lemma_cars_in_same_lengths(before: Seq<Seq<Car>>, after: Seq<Seq<Car>>)
    requires
        before.len() == after.len(),
        forall|i: int| 0 <= i < before.len() ==> (#[trigger] before[i]).len() == after[i].len(),
    ensures
        cars_in(before) == cars_in(after),
    decreases before.len(),
{
    if before.len() > 0 {
        assert(before.last().len() == after.last().len()) by {
            assert(before[before.len() - 1].len() == after[before.len() - 1].len());
        }
        assert forall|i: int| 0 <= i < before.drop_last().len() implies (#[trigger] before.drop_last()[i]).len()
            == after.drop_last()[i].len() by {
            assert(before[i].len() == after[i].len());
        }
        lemma_cars_in_same_lengths(before.drop_last(), after.drop_last());
    }
}

/// Before anything has happened the simulation is sound and holds no car.
pub proof fn lemma_initial_is_sound(map: MapTopology)
    requires
        map.wf(),
    ensures
        SimView::initial(map).wf(),
        SimView::initial(map).population() == 0,
{
    let fresh = SimView::initial(map);
    assert forall|l: int| 0 <= l < fresh.lanes.len() implies #[trigger] fresh.lane_ok(l) by {}
    assert forall|t: int| 0 <= t < fresh.turns.len() implies #[trigger] fresh.turn_ok(t) by {}
    assert forall|t: int| 0 <= t < fresh.turns.len() implies #[trigger] fresh.crossing_ok(t) by {}
    assert forall|i: int| 0 <= i < fresh.intersections.len() implies #[trigger] fresh.intersection_ok(i) by {}
    lemma_cars_in_empty(fresh.lanes);
    lemma_cars_in_empty(fresh.turns);
}

/// Offering a car leaves the simulation sound, with one more car if the
/// car is accepted.
pub proof fn lemma_spawned_is_sound(
    sim: SimView,
    vehicle: Vehicle,
    route: Route,
    spawn_time: Time,
    start_distance: Distance,
    end_distance: Distance,
)
    requires
        sim.wf(),
    ensures
        sim.spawned(vehicle, route, spawn_time, start_distance, end_distance).wf(),
        sim.spawned(vehicle, route, spawn_time, start_distance, end_distance).map == sim.map,
        sim.spawned(vehicle, route, spawn_time, start_distance, end_distance).population() == sim.population() + (
        if sim.spawn_outcome(vehicle, route, start_distance, end_distance).is_ok() {
            1int
        } else {
            0int
        }),
{
    let after = sim.spawned(vehicle, route, spawn_time, start_distance, end_distance);
    if sim.spawn_error(vehicle, route, start_distance, end_distance).is_none() {
        assert(sim.map.step_ok(route.steps@, 0));
        assert(sim.map.step_ok(route.steps@, route.steps@.len() - 1));
        assert forall|i: int| 0 <= i < after.pending.len() implies #[trigger] after.pending_ok(i) by {
            if i < sim.pending.len() {
                assert(sim.pending_ok(i));
            }
        }
        lemma_still_wf(sim, after);
    }
}

/// Calling a car back leaves the simulation sound, with one car fewer if
/// there was a car to call back.
pub proof fn lemma_withdrawn_is_sound(sim: SimView, id: CarID)
    requires
        sim.wf(),
    ensures
        sim.withdrawn(id).wf(),
        sim.withdrawn(id).map == sim.map,
        sim.withdrawn(id).population() == sim.population() - (if sim.withdrawable(id, 0) < sim.pending.len() {
            1int
        } else {
            0int
        }),
{
    lemma_withdrawable(sim, id, 0);
    let at = sim.withdrawable(id, 0);
    let after = sim.withdrawn(id);
    if at < sim.pending.len() {
        assert forall|i: int| 0 <= i < after.pending.len() implies #[trigger] after.pending_ok(i) by {
            let i0 = if i < at { i } else { i + 1 };
            assert(sim.pending_ok(i0));
        }
        lemma_still_wf(sim, after);
    }
}

/// The place of the car to call back is a place among the cars that wait.
proof fn lemma_withdrawable(sim: SimView, id: CarID, from: int)
    requires
        0 <= from <= sim.pending.len(),
    ensures
        from <= sim.withdrawable(id, from) <= sim.pending.len(),
    decreases sim.pending.len() - from,
{
    if from < sim.pending.len() && !(sim.pending[from].vehicle.id == id && sim.pending[from].spawn_time > sim.time) {
        lemma_withdrawable(sim, id, from + 1);
    }
}

/// A car that appears on the road leaves the simulation sound.
pub(crate) proof fn lemma_appeared_is_sound(sim: SimView, i: int, now: Time)
    requires
        sim.wf(),
        0 <= i < sim.pending.len(),
        sim.can_appear(i, now),
    ensures
        sim.appeared(i).wf(),
        sim.appeared(i).map == sim.map,
        sim.appeared(i).time == sim.time,
        sim.appeared(i).population() == sim.population(),
{
    let c = sim.pending[i];
    let after = sim.appeared(i);
    assert(sim.pending_ok(i));
    assert(sim.map.step_ok(c.route.steps@, 0));
    let l = c.current_spec().lane_index();
    assert(sim.lane_ok(l));
    assert(l < sim.map.lanes.len());
    lemma_joining_keeps_sound(sim.lanes[l], c, c.dist);
    assert(after.lane_ok(l)) by {
        assert forall|k: int| 0 <= k < after.lanes[l].len() implies car_on(
            after.map,
            #[trigger] after.lanes[l][k],
            Traversable::Lane(LaneID(l as usize)),
        ) by {
            if k < sim.lanes[l].len() {
                assert(car_on(sim.map, sim.lanes[l][k], Traversable::Lane(LaneID(l as usize))));
            }
        }
    }
    assert forall|k: int| 0 <= k < after.pending.len() implies #[trigger] after.pending_ok(k) by {
        let k0 = if k < i { k } else { k + 1 };
        assert(sim.pending_ok(k0));
    }
    lemma_still_wf(sim, after);
    lemma_cars_in_update(sim.lanes, l, after.lanes[l]);
}

/// Letting the cars appear whose time has come leaves the simulation
/// sound.
pub proof fn lemma_activated_is_sound(sim: SimView, i: int, now: Time)
    requires
        sim.wf(),
    ensures
        sim.activate_from(i, now).wf(),
        sim.activate_from(i, now).map == sim.map,
        sim.activate_from(i, now).time == sim.time,
        sim.activate_from(i, now).population() == sim.population(),
    decreases sim.pending.len() - i,
{
    if 0 <= i < sim.pending.len() {
        if sim.can_appear(i, now) {
            lemma_appeared_is_sound(sim, i, now);
            lemma_activated_is_sound(sim.appeared(i), i, now);
        } else {
            lemma_activated_is_sound(sim, i + 1, now);
        }
    }
}

/// Driving leaves the simulation sound.
pub proof fn lemma_moved_is_sound(sim: SimView, elapsed: Duration)
    requires
        sim.wf(),
    ensures
        sim.moved(elapsed).wf(),
        sim.moved(elapsed).map == sim.map,
        sim.moved(elapsed).time == sim.time,
        sim.moved(elapsed).population() == sim.population(),
{
    let after = sim.moved(elapsed);
    assert forall|l: int| 0 <= l < after.lanes.len() implies #[trigger] after.lane_ok(l) by {
        assert(sim.lane_ok(l));
        assert(l < sim.map.lanes.len());
        let lane = sim.map.lanes@[l];
        lemma_driving_keeps_sound(sim.lanes[l], elapsed, lane.length, lane.speed_limit);
        assert forall|k: int| 0 <= k < after.lanes[l].len() implies car_on(
            after.map,
            #[trigger] after.lanes[l][k],
            Traversable::Lane(LaneID(l as usize)),
        ) by {
            assert(car_on(sim.map, sim.lanes[l][k], Traversable::Lane(LaneID(l as usize))));
            assert(same_car(sim.lanes[l][k], after.lanes[l][k]));
        }
    }
    assert forall|t: int| 0 <= t < after.turns.len() implies #[trigger] after.turn_ok(t) && after.crossing_ok(t) by {
        assert(sim.turn_ok(t));
        assert(sim.crossing_ok(t));
        assert(t < sim.map.turns.len());
        let turn = sim.map.turns@[t];
        lemma_driving_keeps_sound(sim.turns[t], elapsed, turn.length, turn.speed_limit);
        assert forall|k: int| 0 <= k < after.turns[t].len() implies car_on(
            after.map,
            #[trigger] after.turns[t][k],
            Traversable::Turn(TurnID(t as usize)),
        ) && same_car(sim.turns[t][k], after.turns[t][k]) by {
            assert(car_on(sim.map, sim.turns[t][k], Traversable::Turn(TurnID(t as usize))));
            assert(same_car(sim.turns[t][k], after.turns[t][k]));
        }
    }
    assert forall|t: int| 0 <= t < after.turns.len() implies #[trigger] after.crossing_ok(t) by {
        assert(after.turn_ok(t) && after.crossing_ok(t));
    }
    lemma_still_wf(sim, after);
    assert forall|l: int| 0 <= l < sim.lanes.len() implies (#[trigger] sim.lanes[l]).len() == after.lanes[l].len() by {
        assert(sim.lane_ok(l));
        lemma_driving_keeps_sound(
            sim.lanes[l],
            elapsed,
            sim.map.lanes@[l].length,
            sim.map.lanes@[l].speed_limit,
        );
    }
    assert forall|t: int| 0 <= t < sim.turns.len() implies (#[trigger] sim.turns[t]).len() == after.turns[t].len() by {
        assert(sim.turn_ok(t));
        lemma_driving_keeps_sound(
            sim.turns[t],
            elapsed,
            sim.map.turns@[t].length,
            sim.map.turns@[t].speed_limit,
        );
    }
    lemma_cars_in_same_lengths(sim.lanes, after.lanes);
    lemma_cars_in_same_lengths(sim.turns, after.turns);
}

/// A car that goes on from a turn to the lane beyond leaves the
/// simulation sound.
pub(crate) proof fn lemma_left_turn_is_sound(sim: SimView, t: int)
    requires
        sim.wf(),
        0 <= t < sim.turns.len(),
        sim.can_leave_turn(t),
    ensures
        sim.left_turn(t).wf(),
        sim.left_turn(t).map == sim.map,
        sim.left_turn(t).time == sim.time,
        sim.left_turn(t).population() == sim.population(),
{
    let after = sim.left_turn(t);
    let turn = sim.map.turns@[t];
    let car = sim.turns[t][0];
    let dst = turn.dst.0 as int;
    let i = turn.parent.0 as int;
    let m = Movement { turn: TurnID(t as usize), car: car.vehicle.id };
    assert(sim.turn_ok(t));
    assert(sim.map.turn_ok(t));
    assert(t < sim.map.turns.len());
    assert(sim.lane_ok(dst));
    assert(sim.intersection_ok(i));
    assert(car_on(sim.map, car, Traversable::Turn(TurnID(t as usize))));
    assert(on_road(car));
    assert(sim.map.step_ok(car.route.steps@, car.route_idx as int));
    assert(car.route_idx + 1 < car.route.steps.len());
    lemma_leaving_keeps_sound(sim.turns[t]);
    lemma_joining_keeps_sound(sim.lanes[dst], car.stepped(), 0);
    lemma_released_keeps_sound(sim.intersections[i], TurnID(t as usize), car.vehicle.id);
    assert(after.lane_ok(dst)) by {
        assert forall|k: int| 0 <= k < after.lanes[dst].len() implies car_on(
            after.map,
            #[trigger] after.lanes[dst][k],
            Traversable::Lane(LaneID(dst as usize)),
        ) by {
            if k < sim.lanes[dst].len() {
                assert(car_on(sim.map, sim.lanes[dst][k], Traversable::Lane(LaneID(dst as usize))));
            } else {
                assert(after.lanes[dst][k] == car.stepped().entered(0));
                assert(car.route.steps@[car.route_idx + 1] == Traversable::Lane(turn.dst));
            }
        }
    }
    assert(after.turn_ok(t)) by {
        assert forall|k: int| 0 <= k < after.turns[t].len() implies car_on(
            after.map,
            #[trigger] after.turns[t][k],
            Traversable::Turn(TurnID(t as usize)),
        ) by {
            assert(car_on(sim.map, sim.turns[t][k + 1], Traversable::Turn(TurnID(t as usize))));
        }
    }
    assert(after.intersection_ok(i));
    assert forall|u: int| 0 <= u < after.turns.len() implies #[trigger] after.crossing_ok(u) by {
        assert(sim.crossing_ok(u));
        assert(sim.map.turn_ok(u));
        assert(u < sim.map.turns.len());
        let p = sim.map.turns@[u].parent.0 as int;
        assert forall|k: int| 0 <= k < after.turns[u].len() implies after.intersections[p].active.contains(
            Movement { turn: TurnID(u as usize), car: (#[trigger] after.turns[u][k]).vehicle.id },
        ) by {
            let k0 = if u == t { k + 1 } else { k };
            assert(after.turns[u][k] == sim.turns[u][k0]);
            let x = Movement { turn: TurnID(u as usize), car: sim.turns[u][k0].vehicle.id };
            assert(sim.intersections[p].active.contains(x));
            if p == i {
                if u == t {
                    assert(sim.turns[u][0].vehicle.id != sim.turns[u][k0].vehicle.id);
                }
                lemma_released_keeps(sim.intersections[p], TurnID(t as usize), car.vehicle.id, x);
            }
        }
        assert forall|j: int, k: int| 0 <= j < k < after.turns[u].len() implies (
        #[trigger] after.turns[u][j]).vehicle.id != (#[trigger] after.turns[u][k]).vehicle.id by {
            let j0 = if u == t { j + 1 } else { j };
            let k0 = if u == t { k + 1 } else { k };
            assert(sim.turns[u][j0].vehicle.id != sim.turns[u][k0].vehicle.id);
        }
    }
    lemma_still_wf(sim, after);
    lemma_cars_in_update(sim.lanes, dst, after.lanes[dst]);
    lemma_cars_in_update(sim.turns, t, after.turns[t]);
}

/// Letting cars go on from the turns leaves the simulation sound.
pub proof fn lemma_turns_left_is_sound(sim: SimView, t: int)
    requires
        sim.wf(),
    ensures
        sim.leave_turns_from(t).wf(),
        sim.leave_turns_from(t).map == sim.map,
        sim.leave_turns_from(t).time == sim.time,
        sim.leave_turns_from(t).population() == sim.population(),
    decreases sim.turns.len() - t,
{
    if 0 <= t < sim.turns.len() {
        if sim.can_leave_turn(t) {
            lemma_left_turn_is_sound(sim, t);
            lemma_turns_left_is_sound(sim.left_turn(t), t + 1);
        } else {
            lemma_turns_left_is_sound(sim, t + 1);
        }
    }
}

/// Marking the front car of a lane as waiting for its turn leaves the
/// simulation sound, and what the car asks for is a turn of the map.
pub(crate) proof fn lemma_held_is_sound(sim: SimView, l: int, now: Time)
    requires
        sim.wf(),
        0 <= l < sim.lanes.len(),
        sim.arrives(l),
    ensures
        sim.held(l).wf(),
        sim.held(l).map == sim.map,
        sim.held(l).time == sim.time,
        sim.held(l).population() == sim.population(),
        sim.request_at(l, now).turn.0 < sim.map.turns@.len(),
{
    let after = sim.held(l);
    let car = sim.lanes[l][0];
    assert(sim.lane_ok(l));
    assert(on_road(car));
    assert(car_on(sim.map, car, Traversable::Lane(LaneID(l as usize))));
    assert(sim.map.step_ok(car.route.steps@, car.route_idx as int));
    assert(sim.map.step_ok(car.route.steps@, car.route_idx + 1));
    lemma_holding_keeps_sound(sim.lanes[l]);
    assert(after.lane_ok(l)) by {
        assert forall|k: int| 0 <= k < after.lanes[l].len() implies car_on(
            after.map,
            #[trigger] after.lanes[l][k],
            Traversable::Lane(LaneID(l as usize)),
        ) by {
            assert(car_on(sim.map, sim.lanes[l][k], Traversable::Lane(LaneID(l as usize))));
        }
    }
    lemma_still_wf(sim, after);
    lemma_cars_in_update(sim.lanes, l, after.lanes[l]);
}

/// One more request for a turn of the map leaves the requests for turns of
/// the map.
pub(crate) proof fn lemma_enqueued_requests_ok(map: MapTopology, found: Seq<Request>, r: Request)
    requires
        requests_ok(map, found),
        r.turn.0 < map.turns@.len(),
    ensures
        requests_ok(map, enqueued(found, r)),
{
    let p = place_for(found, r, 0);
    lemma_place_for(found, r, 0);
    let after = enqueued(found, r);
    assert forall|k: int| 0 <= k < after.len() implies (#[trigger] after[k]).turn.0 < map.turns@.len() by {
        if k < p {
            assert(after[k] == found[k]);
        } else if k > p {
            assert(after[k] == found[k - 1]);
        }
    }
}

/// Noting the cars that have got to the end of their lane leaves the
/// simulation sound, and what they ask for are turns of the map.
pub proof fn lemma_arrivals_are_sound(sim: SimView, l: int, now: Time, found: Seq<Request>)
    requires
        sim.wf(),
        requests_ok(sim.map, found),
    ensures
        sim.arrivals_from(l, now, found).0.wf(),
        sim.arrivals_from(l, now, found).0.map == sim.map,
        sim.arrivals_from(l, now, found).0.time == sim.time,
        sim.arrivals_from(l, now, found).0.population() == sim.population(),
        requests_ok(sim.map, sim.arrivals_from(l, now, found).1),
    decreases sim.lanes.len() - l,
{
    if 0 <= l < sim.lanes.len() {
        if sim.arrives(l) {
            lemma_held_is_sound(sim, l, now);
            lemma_enqueued_requests_ok(sim.map, found, sim.request_at(l, now));
            lemma_arrivals_are_sound(
                sim.held(l),
                l + 1,
                now,
                enqueued(found, sim.request_at(l, now)),
            );
        } else {
            lemma_arrivals_are_sound(sim, l + 1, now, found);
        }
    }
}

/// Putting a request for a turn of the map to its arbiter leaves the
/// simulation sound.
pub(crate) proof fn lemma_request_filed_is_sound(sim: SimView, r: Request)
    requires
        sim.wf(),
        r.turn.0 < sim.map.turns@.len(),
    ensures
        sim.filed(r).wf(),
        sim.filed(r).map == sim.map,
        sim.filed(r).time == sim.time,
        sim.filed(r).population() == sim.population(),
{
    assert(sim.map.turn_ok(r.turn.0 as int));
    let i = sim.map.turns@[r.turn.0 as int].parent.0 as int;
    let after = sim.filed(r);
    assert(sim.intersection_ok(i));
    lemma_requested_keeps_sound(sim.intersections[i], r.turn, r.car, r.time);
    assert(after.intersection_ok(i));
    assert forall|u: int| 0 <= u < after.turns.len() implies #[trigger] after.crossing_ok(u) by {
        assert(sim.crossing_ok(u));
        assert(sim.map.turn_ok(u));
        assert(u < sim.map.turns.len());
        let p = sim.map.turns@[u].parent.0 as int;
        assert forall|c: int| 0 <= c < after.turns[u].len() implies after.intersections[p].active.contains(
            Movement { turn: TurnID(u as usize), car: (#[trigger] after.turns[u][c]).vehicle.id },
        ) by {
            let x = Movement { turn: TurnID(u as usize), car: sim.turns[u][c].vehicle.id };
            assert(sim.intersections[p].active.contains(x));
            if p == i {
                lemma_requested_keeps(sim.intersections[p], r.turn, r.car, r.time, x);
            }
        }
    }
    lemma_still_wf(sim, after);
}

/// Putting requests to the arbiters leaves the simulation sound.
pub proof fn lemma_filed_is_sound(sim: SimView, requests: Seq<Request>, k: int)
    requires
        sim.wf(),
        requests_ok(sim.map, requests),
    ensures
        sim.filed_from(requests, k).wf(),
        sim.filed_from(requests, k).map == sim.map,
        sim.filed_from(requests, k).time == sim.time,
        sim.filed_from(requests, k).population() == sim.population(),
    decreases requests.len() - k,
{
    if 0 <= k < requests.len() {
        lemma_request_filed_is_sound(sim, requests[k]);
        lemma_filed_is_sound(sim.filed(requests[k]), requests, k + 1);
    }
}

/// A car that goes on from a lane to its turn leaves the simulation sound.
pub(crate) proof fn lemma_entered_turn_is_sound(sim: SimView, l: int)
    requires
        sim.wf(),
        0 <= l < sim.lanes.len(),
        sim.can_enter_turn(l),
    ensures
        sim.entered_turn(l).wf(),
        sim.entered_turn(l).map == sim.map,
        sim.entered_turn(l).time == sim.time,
        sim.entered_turn(l).population() == sim.population(),
{
    let after = sim.entered_turn(l);
    let car = sim.lanes[l][0];
    let t = next_turn(car).0 as int;
    assert(sim.lane_ok(l));
    assert(on_road(car));
    assert(car_on(sim.map, car, Traversable::Lane(LaneID(l as usize))));
    assert(sim.map.step_ok(car.route.steps@, car.route_idx as int));
    assert(sim.map.step_ok(car.route.steps@, car.route_idx + 1));
    assert(car.route_idx + 1 < car.route.steps.len());
    assert(sim.turn_ok(t));
    assert(sim.crossing_ok(t));
    lemma_leaving_keeps_sound(sim.lanes[l]);
    lemma_joining_keeps_sound(sim.turns[t], car.stepped(), 0);
    assert(after.turn_ok(t)) by {
        assert forall|k: int| 0 <= k < after.turns[t].len() implies car_on(
            after.map,
            #[trigger] after.turns[t][k],
            Traversable::Turn(TurnID(t as usize)),
        ) by {
            if k < sim.turns[t].len() {
                assert(car_on(sim.map, sim.turns[t][k], Traversable::Turn(TurnID(t as usize))));
            } else {
                assert(after.turns[t][k] == car.stepped().entered(0));
                assert(car.route.steps@[car.route_idx + 1] == Traversable::Turn(TurnID(t as usize)));
            }
        }
    }
    assert(after.lane_ok(l)) by {
        assert forall|k: int| 0 <= k < after.lanes[l].len() implies car_on(
            after.map,
            #[trigger] after.lanes[l][k],
            Traversable::Lane(LaneID(l as usize)),
        ) by {
            assert(car_on(sim.map, sim.lanes[l][k + 1], Traversable::Lane(LaneID(l as usize))));
        }
    }
    assert(after.crossing_ok(t)) by {
        let last = sim.turns[t].len() as int;
        assert(after.turns[t][last] == car.stepped().entered(0));
        assert forall|k: int| 0 <= k < last implies after.turns[t][k] == sim.turns[t][k] by {}
        assert forall|j: int, k: int| 0 <= j < k < after.turns[t].len() implies (
        #[trigger] after.turns[t][j]).vehicle.id != (#[trigger] after.turns[t][k]).vehicle.id by {
            if k == last {
                assert(sim.turns[t][j].vehicle.id != car.vehicle.id);
            } else {
                assert(sim.turns[t][j].vehicle.id != sim.turns[t][k].vehicle.id);
            }
        }
    }
    lemma_still_wf(sim, after);
    lemma_cars_in_update(sim.lanes, l, after.lanes[l]);
    lemma_cars_in_update(sim.turns, t, after.turns[t]);
}

/// Letting cars go on from the lanes to their turns leaves the simulation
/// sound.
pub proof fn lemma_turns_entered_is_sound(sim: SimView, l: int)
    requires
        sim.wf(),
    ensures
        sim.enter_turns_from(l).wf(),
        sim.enter_turns_from(l).map == sim.map,
        sim.enter_turns_from(l).time == sim.time,
        sim.enter_turns_from(l).population() == sim.population(),
    decreases sim.lanes.len() - l,
{
    if 0 <= l < sim.lanes.len() {
        if sim.can_enter_turn(l) {
            lemma_entered_turn_is_sound(sim, l);
            lemma_turns_entered_is_sound(sim.entered_turn(l), l + 1);
        } else {
            lemma_turns_entered_is_sound(sim, l + 1);
        }
    }
}

/// Every car is either picked or not.
proof fn lemma_split_len(cars: Seq<Car>)
    ensures
        cars.filter(unfinished_cars()).len() + cars.filter(finished_cars()).len() == cars.len(),
    decreases cars.len(),
{
    reveal(Seq::filter);
    if cars.len() > 0 {
        lemma_split_len(cars.drop_last());
    }
}

/// Ending the journeys that are over on one lane leaves the simulation
/// sound.
pub(crate) proof fn lemma_retired_on_is_sound(sim: SimView, l: int)
    requires
        sim.wf(),
        0 <= l < sim.lanes.len(),
    ensures
        sim.retired_on(l).wf(),
        sim.retired_on(l).map == sim.map,
        sim.retired_on(l).time == sim.time,
        sim.retired_on(l).population() == sim.population(),
{
    let after = sim.retired_on(l);
    let cars = sim.lanes[l];
    assert(sim.lane_ok(l));
    lemma_picking_keeps_sound(cars, unfinished_cars());
    lemma_picking_keeps_sound(cars, finished_cars());
    assert(after.lane_ok(l)) by {
        assert forall|k: int| 0 <= k < after.lanes[l].len() implies car_on(
            after.map,
            #[trigger] after.lanes[l][k],
            Traversable::Lane(LaneID(l as usize)),
        ) by {
            let c = after.lanes[l][k];
            assert(cars.contains(c));
            let j = choose|j: int| 0 <= j < cars.len() && cars[j] == c;
            assert(car_on(sim.map, cars[j], Traversable::Lane(LaneID(l as usize))));
        }
    }
    let gone = cars.filter(finished_cars());
    assert forall|i: int| 0 <= i < after.finished.len() implies #[trigger] after.finished_ok(i) by {
        if i < sim.finished.len() {
            assert(sim.finished_ok(i));
        } else {
            let c = gone[i - sim.finished.len()];
            assert(after.finished[i] == c.retired());
            assert(cars.contains(c) && finished_cars()(c));
            let j = choose|j: int| 0 <= j < cars.len() && cars[j] == c;
            assert(on_road(cars[j]));
            assert(car_on(sim.map, cars[j], Traversable::Lane(LaneID(l as usize))));
        }
    }
    lemma_still_wf(sim, after);
    lemma_cars_in_update(sim.lanes, l, after.lanes[l]);
    lemma_split_len(cars);
}

/// Ending the journeys that are over leaves the simulation sound.
pub proof fn lemma_retired_is_sound(sim: SimView, l: int)
    requires
        sim.wf(),
    ensures
        sim.retire_from(l).wf(),
        sim.retire_from(l).map == sim.map,
        sim.retire_from(l).time == sim.time,
        sim.retire_from(l).population() == sim.population(),
    decreases sim.lanes.len() - l,
{
    if 0 <= l < sim.lanes.len() {
        lemma_retired_on_is_sound(sim, l);
        lemma_retired_is_sound(sim.retired_on(l), l + 1);
    }
}

/// Bringing the simulation up to an instant leaves it sound and loses no
/// car.
pub proof fn lemma_advance_keeps_sound(sim: SimView, now: Time)
    requires
        sim.wf(),
    ensures
        sim.advance(now).wf(),
        sim.advance(now).map == sim.map,
        sim.advance(now).population() == sim.population(),
        sim.advance(now).time >= sim.time,
{
    if now > sim.time {
        let elapsed = (now - sim.time) as Duration;
        lemma_activated_is_sound(sim, 0, now);
        let appeared = sim.activate_from(0, now);
        lemma_moved_is_sound(appeared, elapsed);
        let moved = appeared.moved(elapsed);
        lemma_turns_left_is_sound(moved, 0);
        let left = moved.leave_turns_from(0);
        lemma_arrivals_are_sound(left, 0, now, Seq::<Request>::empty());
        let (held, requests) = left.arrivals_from(0, now, Seq::<Request>::empty());
        lemma_filed_is_sound(held, requests, 0);
        let filed = left.requests_filed(now);
        lemma_turns_entered_is_sound(filed, 0);
        let entered = filed.enter_turns_from(0);
        lemma_retired_is_sound(entered, 0);
        let retired = entered.retire_from(0);
        lemma_still_wf(retired, sim.advance(now));
    }
}

} // verus!
