//! A car that has the road to itself: where one step takes it.

use vstd::prelude::*;
use crate::car::{Car, CarState, DrawCarInput};
use crate::intersection::{
    compatible, enqueued, first_place_of, place_for, without_first, IntersectionView, Movement, Request,
};
use crate::model::{car_on, next_turn, SimView};
use crate::queue::{
    advanced, all_snapshots, ceiling_spec, finished_cars, gap_ok, lemma_advanced_keeps_order,
    lemma_picked_stay_in_order, on_road, place_of_picked, same_car, unfinished_cars,
};
use crate::soundness::{lemma_advance_keeps_sound, lemma_moved_is_sound};
use crate::topology::{conflict_in, LaneID, Traversable, TurnID};
use crate::units::{travel_spec, Duration, Speed, Time, FOLLOWING_DISTANCE};

verus! {

/// No car is on a turn.
pub open spec fn turns_idle(sim: SimView) -> bool {
    forall|t: int| 0 <= t < sim.turns.len() ==> (#[trigger] sim.turns[t]).len() == 0
}

/// No car is on a lane.
pub open spec fn lanes_idle(sim: SimView) -> bool {
    forall|k: int| 0 <= k < sim.lanes.len() ==> (#[trigger] sim.lanes[k]).len() == 0
}

/// No car is on a lane other than lane `l`.
pub open spec fn only_on_lane(sim: SimView, l: int) -> bool {
    forall|k: int| 0 <= k < sim.lanes.len() && k != l ==> (#[trigger] sim.lanes[k]).len() == 0
}

/// Where no car is on a turn, none goes on from one.
proof fn lemma_idle_turns_stay(sim: SimView, t: int)
    requires
        turns_idle(sim),
    ensures
        sim.leave_turns_from(t) == sim,
    decreases sim.turns.len() - t,
{
    if 0 <= t < sim.turns.len() {
        assert(sim.turns[t].len() == 0);
        lemma_idle_turns_stay(sim, t + 1);
    }
}

/// Where no car has just got to the end of its lane, none is noted.
proof fn lemma_no_arrivals(sim: SimView, l: int, now: Time, found: Seq<Request>)
    requires
        forall|k: int| 0 <= k < sim.lanes.len() ==> !#[trigger] sim.arrives(k),
    ensures
        sim.arrivals_from(l, now, found) == (sim, found),
    decreases sim.lanes.len() - l,
{
    if 0 <= l < sim.lanes.len() {
        assert(!sim.arrives(l));
        lemma_no_arrivals(sim, l + 1, now, found);
    }
}

/// Where no car can go on to a turn, none does.
proof fn lemma_no_entries(sim: SimView, l: int)
    requires
        forall|k: int| 0 <= k < sim.lanes.len() ==> !#[trigger] sim.can_enter_turn(k),
    ensures
        sim.enter_turns_from(l) == sim,
    decreases sim.lanes.len() - l,
{
    if 0 <= l < sim.lanes.len() {
        assert(!sim.can_enter_turn(l));
        lemma_no_entries(sim, l + 1);
    }
}

/// Where cars are on lane `l` only, only there do journeys end.
proof fn lemma_retire_on_one_lane(sim: SimView, l: int, k: int)
    requires
        0 <= l < sim.lanes.len(),
        only_on_lane(sim, l),
        0 <= k,
    ensures
        k <= l ==> sim.retire_from(k) == sim.retired_on(l),
        k > l ==> sim.retire_from(k) == sim,
    decreases sim.lanes.len() - k,
{
    reveal(Seq::filter);
    if k < sim.lanes.len() {
        let next = sim.retired_on(k);
        if k == l {
            assert forall|j: int| 0 <= j < next.lanes.len() && j != l implies (#[trigger] next.lanes[j]).len() == 0 by {
                assert(sim.lanes[j].len() == 0);
            }
            lemma_retire_on_one_lane(next, l, k + 1);
        } else {
            assert(sim.lanes[k].len() == 0);
            assert(next.lanes =~= sim.lanes);
            assert(next.finished =~= sim.finished);
            assert(next == sim);
            lemma_retire_on_one_lane(sim, l, k + 1);
        }
    }
}

/// Empty queues show no car.
proof fn lemma_nothing_to_see(queues: Seq<Seq<Car>>)
    requires
        forall|k: int| 0 <= k < queues.len() ==> (#[trigger] queues[k]).len() == 0,
    ensures
        all_snapshots(queues) == Seq::<DrawCarInput>::empty(),
    decreases queues.len(),
{
    if queues.len() > 0 {
        assert forall|k: int| 0 <= k < queues.drop_last().len() implies (#[trigger] queues.drop_last()[k]).len()
            == 0 by {
            assert(queues[k].len() == 0);
        }
        lemma_nothing_to_see(queues.drop_last());
        assert(queues[queues.len() - 1].len() == 0);
        assert(all_snapshots(queues) =~= Seq::<DrawCarInput>::empty());
    }
}

/// A car that waits to appear on an empty road, on a route of a single
/// lane, and whose time has come: one step puts it on its lane and drives
/// it at its free speed for the time that has passed. If that takes it as
/// far as its journey goes, the journey is over: the car is off the road,
/// at the point where it was to end, done or parked as its route says. If
/// not, it is on its lane, as far along as its speed took it.
pub proof fn lemma_a_lone_car_drives_to_its_end(sim: SimView, now: Time)
    requires
        sim.wf(),
        now > sim.time,
        sim.pending.len() == 1,
        sim.pending[0].spawn_time <= now,
        sim.pending[0].route.steps@.len() == 1,
        turns_idle(sim),
        lanes_idle(sim),
    ensures
        ({
            let c = sim.pending[0];
            let l = c.route.steps@[0].lane_index();
            let free = c.vehicle.free_speed_spec(sim.map.lanes@[l].speed_limit);
            let reach = c.dist + travel_spec(free, (now - sim.time) as Duration);
            let after = sim.advance(now);
            &&& 0 <= l < sim.lanes.len()
            &&& after.time == now
            &&& after.pending.len() == 0
            &&& turns_idle(after)
            &&& only_on_lane(after, l)
            &&& reach >= c.end_dist ==> {
                &&& after.lanes[l].len() == 0
                &&& after.all_cars() == Seq::<DrawCarInput>::empty()
                &&& after.finished.len() == sim.finished.len() + 1
                &&& after.finished.subrange(0, sim.finished.len() as int) == sim.finished
                &&& after.finished.last().vehicle == c.vehicle
                &&& after.finished.last().dist == c.end_dist
                &&& after.finished.last().state == c.final_state()
            }
            &&& reach < c.end_dist ==> {
                &&& after.finished == sim.finished
                &&& after.lanes[l] == seq![Car { dist: reach as u64, speed: free, state: CarState::Queued, ..c }]
            }
        }),
{
    reveal_with_fuel(Seq::filter, 3);
    let c = sim.pending[0];
    let l = c.route.steps@[0].lane_index();
    let elapsed = (now - sim.time) as Duration;
    assert(sim.pending_ok(0));
    assert(sim.map.step_ok(c.route.steps@, 0));
    assert(l < sim.map.lanes.len());
    assert(sim.lanes[l].len() == 0);
    // The car appears.
    let appeared = sim.appeared(0);
    assert(sim.can_appear(0, now));
    assert(appeared.pending =~= Seq::<Car>::empty());
    assert(appeared.activate_from(0, now) == appeared);
    assert(sim.activate_from(0, now) == appeared);
    let c1 = c.entered(c.dist);
    assert(appeared.lanes[l] =~= seq![c1]);
    // It drives.
    let moved = appeared.moved(elapsed);
    let lane = sim.map.lanes@[l];
    let c2 = c1.driven(elapsed, lane.speed_limit, c1.target_spec(lane.length) as int);
    assert(moved.lanes[l] =~= seq![c2]) by {
        assert(appeared.lanes[l].drop_last() =~= Seq::<Car>::empty());
        reveal_with_fuel(advanced, 3);
    }
    assert forall|k: int| 0 <= k < moved.lanes.len() && k != l implies (#[trigger] moved.lanes[k]).len() == 0 by {
        assert(sim.lanes[k].len() == 0);
        assert(appeared.lanes[k] == sim.lanes[k]);
    }
    assert forall|t: int| 0 <= t < moved.turns.len() implies (#[trigger] moved.turns[t]).len() == 0 by {
        assert(sim.turns[t].len() == 0);
    }
    // Nothing happens at the intersections.
    lemma_idle_turns_stay(moved, 0);
    assert forall|k: int| 0 <= k < moved.lanes.len() implies !#[trigger] moved.arrives(k) by {
        if k != l {
            assert(moved.lanes[k].len() == 0);
        }
    }
    lemma_no_arrivals(moved, 0, now, Seq::<Request>::empty());
    assert(moved.requests_filed(now) == moved);
    assert forall|k: int| 0 <= k < moved.lanes.len() implies !#[trigger] moved.can_enter_turn(k) by {
        if k != l {
            assert(moved.lanes[k].len() == 0);
        }
    }
    lemma_no_entries(moved, 0);
    // The journey ends, or not yet.
    lemma_retire_on_one_lane(moved, l, 0);
    let retired = moved.retired_on(l);
    assert(moved.lanes[l].drop_last() =~= Seq::<Car>::empty());
    let after = sim.advance(now);
    assert(after == SimView { time: now, ..retired });
    if c2.is_finished_spec() {
        assert(moved.lanes[l].filter(unfinished_cars()) =~= Seq::<Car>::empty());
        assert(moved.lanes[l].filter(finished_cars()) =~= seq![c2]);
        assert(retired.finished =~= sim.finished.push(c2.retired()));
        assert(after.finished.subrange(0, sim.finished.len() as int) =~= sim.finished);
        assert forall|k: int| 0 <= k < after.lanes.len() implies (#[trigger] after.lanes[k]).len() == 0 by {
            if k != l {
                assert(moved.lanes[k].len() == 0);
            }
        }
        lemma_nothing_to_see(after.lanes);
        lemma_nothing_to_see(after.turns);
    } else {
        assert(moved.lanes[l].filter(unfinished_cars()) =~= seq![c2]);
        assert(moved.lanes[l].filter(finished_cars()) =~= Seq::<Car>::empty());
        assert(retired.finished =~= sim.finished);
        assert(retired.lanes[l] =~= seq![c2]);
    }
    assert forall|k: int| 0 <= k < after.lanes.len() && k != l implies (#[trigger] after.lanes[k]).len() == 0 by {
        assert(moved.lanes[k].len() == 0);
    }
}

/// Every car on lane `l` is on the last lane of its route.
pub open spec fn all_on_last_lane(sim: SimView, l: int) -> bool {
    forall|k: int| 0 <= k < sim.lanes[l].len() ==> (#[trigger] sim.lanes[l][k]).is_last_step_spec()
}

/// A car never drives faster than its free speed.
pub proof fn lemma_driven_within_free_speed(c: Car, elapsed: Duration, speed_limit: Speed, ceiling: int)
    ensures
        c.driven(elapsed, speed_limit, ceiling).speed <= c.vehicle.free_speed_spec(speed_limit),
{
    let free = c.vehicle.free_speed_spec(speed_limit);
    let room = if ceiling > c.dist {
        ceiling - c.dist
    } else {
        0
    };
    if travel_spec(free, elapsed) > room {
        assert(elapsed > 0 && room / (elapsed as int) < free) by (nonlinear_arith)
            requires
                0 <= room < free * elapsed,
                0 <= free,
                0 <= elapsed,
        ;
    }
}

/// Where all the cars on the road are on one lane, the last of their
/// routes, and none waits to appear, a step drives them and ends the
/// journeys that are over; nothing else happens.
pub proof fn lemma_last_lane_step(sim: SimView, now: Time, l: int)
    requires
        sim.wf(),
        now > sim.time,
        sim.pending.len() == 0,
        turns_idle(sim),
        0 <= l < sim.lanes.len(),
        only_on_lane(sim, l),
        all_on_last_lane(sim, l),
    ensures
        sim.advance(now) == (SimView { time: now, ..sim.moved((now - sim.time) as Duration).retired_on(l) }),
        sim.advance(now).lanes[l] == advanced(
            sim.lanes[l],
            (now - sim.time) as Duration,
            sim.map.lanes@[l].length,
            sim.map.lanes@[l].speed_limit,
        ).filter(unfinished_cars()),
{
    let elapsed = (now - sim.time) as Duration;
    assert(sim.activate_from(0, now) == sim);
    lemma_moved_is_sound(sim, elapsed);
    let moved = sim.moved(elapsed);
    assert(sim.lane_ok(l));
    lemma_advanced_keeps_order(sim.lanes[l], elapsed, sim.map.lanes@[l].length, sim.map.lanes@[l].speed_limit);
    assert forall|k: int| 0 <= k < moved.lanes.len() && k != l implies (#[trigger] moved.lanes[k]).len() == 0 by {
        assert(sim.lanes[k].len() == 0);
    }
    assert forall|t: int| 0 <= t < moved.turns.len() implies (#[trigger] moved.turns[t]).len() == 0 by {
        assert(sim.turns[t].len() == 0);
    }
    lemma_idle_turns_stay(moved, 0);
    assert(moved.lane_ok(l));
    assert forall|k: int| 0 <= k < moved.lanes.len() implies !#[trigger] moved.arrives(k) && !moved.can_enter_turn(
        k,
    ) by {
        if k != l {
            assert(moved.lanes[k].len() == 0);
        } else if moved.lanes[l].len() > 0 {
            assert(same_car(sim.lanes[l][0], moved.lanes[l][0]));
            assert(sim.lanes[l][0].is_last_step_spec());
            assert(on_road(moved.lanes[l][0]));
        }
    }
    lemma_no_arrivals(moved, 0, now, Seq::<Request>::empty());
    assert(moved.requests_filed(now) == moved);
    assert forall|k: int| 0 <= k < moved.lanes.len() implies !#[trigger] moved.can_enter_turn(k) by {
        assert(!moved.arrives(k) && !moved.can_enter_turn(k));
    }
    lemma_no_entries(moved, 0);
    lemma_retire_on_one_lane(moved, l, 0);
}

/// No car passes another over a whole step where all the cars on the road
/// are on one lane, the last of their routes: any two cars that are on the
/// lane after the step stood on it before, in the same order, neither has
/// gone back, and the one behind keeps its distance from the one ahead.
pub proof fn lemma_last_lane_traffic_keeps_its_order(sim: SimView, now: Time, l: int, i: int, j: int)
    requires
        sim.wf(),
        now > sim.time,
        sim.pending.len() == 0,
        turns_idle(sim),
        0 <= l < sim.lanes.len(),
        only_on_lane(sim, l),
        all_on_last_lane(sim, l),
        0 <= i < j < sim.advance(now).lanes[l].len(),
    ensures
        ({
            let before = sim.lanes[l];
            let after = sim.advance(now).lanes[l];
            let drove = advanced(
                before,
                (now - sim.time) as Duration,
                sim.map.lanes@[l].length,
                sim.map.lanes@[l].speed_limit,
            );
            let p = place_of_picked(drove, unfinished_cars(), i);
            let q = place_of_picked(drove, unfinished_cars(), j);
            &&& 0 <= p < q < before.len()
            &&& same_car(before[p], after[i]) && before[p].dist <= after[i].dist
            &&& same_car(before[q], after[j]) && before[q].dist <= after[j].dist
            &&& after[j].dist + after[j].vehicle.length + FOLLOWING_DISTANCE <= after[i].dist
        }),
{
    let elapsed = (now - sim.time) as Duration;
    let lane = sim.map.lanes@[l];
    lemma_last_lane_step(sim, now, l);
    assert(sim.lane_ok(l));
    lemma_advanced_keeps_order(sim.lanes[l], elapsed, lane.length, lane.speed_limit);
    let drove = advanced(sim.lanes[l], elapsed, lane.length, lane.speed_limit);
    lemma_picked_stay_in_order(drove, unfinished_cars(), i, j);
    lemma_advance_keeps_sound(sim, now);
    assert(sim.advance(now).lane_ok(l));
    let after = sim.advance(now).lanes[l];
    assert(gap_ok(after[i], after[j]));
}

/// A car behind another on the last lane of both their routes, with the
/// road to themselves: as long as both are on the lane, the one ahead stays
/// ahead, the one behind keeps the following distance from it whatever its
/// own speed cap allows, neither goes back, and neither drives faster than
/// its free speed.
pub proof fn lemma_follower_stays_behind(sim: SimView, now: Time, l: int)
    requires
        sim.wf(),
        now > sim.time,
        sim.pending.len() == 0,
        turns_idle(sim),
        0 <= l < sim.lanes.len(),
        only_on_lane(sim, l),
        all_on_last_lane(sim, l),
        sim.lanes[l].len() == 2,
        sim.advance(now).lanes[l].len() == 2,
    ensures
        ({
            let before = sim.lanes[l];
            let after = sim.advance(now).lanes[l];
            let limit = sim.map.lanes@[l].speed_limit;
            &&& same_car(before[0], after[0]) && before[0].dist <= after[0].dist
            &&& same_car(before[1], after[1]) && before[1].dist <= after[1].dist
            &&& after[1].dist + after[1].vehicle.length + FOLLOWING_DISTANCE <= after[0].dist
            &&& after[0].speed <= after[0].vehicle.free_speed_spec(limit)
            &&& after[1].speed <= after[1].vehicle.free_speed_spec(limit)
        }),
{
    let elapsed = (now - sim.time) as Duration;
    let lane = sim.map.lanes@[l];
    let before = sim.lanes[l];
    lemma_last_lane_traffic_keeps_its_order(sim, now, l, 0, 1);
    assert(sim.lane_ok(l));
    lemma_advanced_keeps_order(before, elapsed, lane.length, lane.speed_limit);
    let drove = advanced(before, elapsed, lane.length, lane.speed_limit);
    lemma_last_lane_step(sim, now, l);
    let after = sim.advance(now).lanes[l];
    lemma_picked_stay_in_order(drove, unfinished_cars(), 0, 1);
    assert(after[0] == drove[0] && after[1] == drove[1]);
    let ahead = advanced(before.drop_last(), elapsed, lane.length, lane.speed_limit);
    assert(drove == ahead.push(before[1].driven(elapsed, lane.speed_limit, ceiling_spec(ahead, before[1], lane.length))));
    lemma_driven_within_free_speed(before[1], elapsed, lane.speed_limit, ceiling_spec(ahead, before[1], lane.length));
    assert(before.drop_last().drop_last() =~= Seq::<Car>::empty());
    let none = advanced(before.drop_last().drop_last(), elapsed, lane.length, lane.speed_limit);
    assert(ahead == none.push(before[0].driven(elapsed, lane.speed_limit, ceiling_spec(none, before[0], lane.length))));
    lemma_driven_within_free_speed(before[0], elapsed, lane.speed_limit, ceiling_spec(none, before[0], lane.length));
    assert(drove[0] == ahead[0]);
}

/// Lanes on which no car has just got to the end are passed over when
/// arrivals are noted.
proof fn lemma_arrivals_skip(sim: SimView, from: int, upto: int, now: Time, found: Seq<Request>)
    requires
        0 <= from <= upto,
        forall|k: int| from <= k < upto && k < sim.lanes.len() ==> !#[trigger] sim.arrives(k),
    ensures
        sim.arrivals_from(from, now, found) == sim.arrivals_from(upto, now, found),
    decreases upto - from,
{
    if from < upto {
        if from < sim.lanes.len() {
            assert(!sim.arrives(from));
        }
        lemma_arrivals_skip(sim, from + 1, upto, now, found);
    }
}

/// Lanes from which no car can go on to a turn are passed over.
proof fn lemma_entries_skip(sim: SimView, from: int, upto: int)
    requires
        0 <= from <= upto,
        forall|k: int| from <= k < upto && k < sim.lanes.len() ==> !#[trigger] sim.can_enter_turn(k),
    ensures
        sim.enter_turns_from(from) == sim.enter_turns_from(upto),
    decreases upto - from,
{
    if from < upto {
        if from < sim.lanes.len() {
            assert(!sim.can_enter_turn(from));
        }
        lemma_entries_skip(sim, from + 1, upto);
    }
}

/// Picking from cars that are all picked keeps them all, and picking from
/// cars of which none is picked keeps none.
proof fn lemma_pick_all_or_none(cars: Seq<Car>, pick: spec_fn(Car) -> bool)
    ensures
        (forall|i: int| 0 <= i < cars.len() ==> pick(#[trigger] cars[i])) ==> cars.filter(pick) == cars,
        (forall|i: int| 0 <= i < cars.len() ==> !pick(#[trigger] cars[i])) ==> cars.filter(pick) == Seq::<Car>::empty(),
    decreases cars.len(),
{
    reveal(Seq::filter);
    if cars.len() > 0 {
        lemma_pick_all_or_none(cars.drop_last(), pick);
        if forall|i: int| 0 <= i < cars.len() ==> pick(#[trigger] cars[i]) {
            assert forall|i: int| 0 <= i < cars.drop_last().len() implies pick(#[trigger] cars.drop_last()[i]) by {
                assert(pick(cars[i]));
            }
            assert(pick(cars[cars.len() - 1]));
            assert(cars.drop_last().push(cars.last()) =~= cars);
        }
        if forall|i: int| 0 <= i < cars.len() ==> !pick(#[trigger] cars[i]) {
            assert forall|i: int| 0 <= i < cars.drop_last().len() implies !pick(#[trigger] cars.drop_last()[i]) by {
                assert(!pick(cars[i]));
            }
            assert(!pick(cars[cars.len() - 1]));
        }
    } else {
        assert(cars.filter(pick) =~= cars);
    }
}

/// Where no car on a lane has used up its route, no journey ends.
proof fn lemma_nothing_retires(sim: SimView, l: int)
    requires
        forall|k: int, n: int|
            0 <= k < sim.lanes.len() && 0 <= n < sim.lanes[k].len() ==> !(#[trigger] sim.lanes[k][n]).is_finished_spec(),
    ensures
        sim.retire_from(l) == sim,
    decreases sim.lanes.len() - l,
{
    if 0 <= l < sim.lanes.len() {
        let cars = sim.lanes[l];
        lemma_pick_all_or_none(cars, unfinished_cars());
        lemma_pick_all_or_none(cars, finished_cars());
        assert forall|n: int| 0 <= n < cars.len() implies unfinished_cars()(#[trigger] cars[n]) && !finished_cars()(
            cars[n],
        ) by {
            assert(!sim.lanes[l][n].is_finished_spec());
        }
        let next = sim.retired_on(l);
        assert(next.lanes =~= sim.lanes);
        assert(next.finished =~= sim.finished);
        assert(next == sim);
        lemma_nothing_retires(sim, l + 1);
    }
}

/// The car at the front of lane `l` after it has driven for the step to
/// `now` on a lane that it does not leave.
pub open spec fn driven_to(sim: SimView, now: Time, l: int) -> Car {
    sim.lanes[l][0].driven(
        (now - sim.time) as Duration,
        sim.map.lanes@[l].speed_limit,
        sim.map.lanes@[l].length as int,
    )
}

/// Two cars have the road to themselves, each alone on its lane, `x` on
/// lane `lx` and `y` on lane `ly`. The step to `now` takes both to the end
/// of their lanes, where they want turns of one intersection that conflict.
/// The intersection is idle, and `x` has the lower identity.
pub open spec fn meet_at_crossing(sim: SimView, now: Time, lx: int, ly: int) -> bool {
    let x = sim.lanes[lx][0];
    let y = sim.lanes[ly][0];
    let i = sim.map.turns@[next_turn(x).0 as int].parent.0 as int;
    &&& sim.pending.len() == 0
    &&& turns_idle(sim)
    &&& 0 <= lx < sim.lanes.len() && 0 <= ly < sim.lanes.len() && lx != ly
    &&& forall|k: int| 0 <= k < sim.lanes.len() && k != lx && k != ly ==> (#[trigger] sim.lanes[k]).len() == 0
    &&& sim.lanes[lx].len() == 1 && sim.lanes[ly].len() == 1
    &&& x.state == CarState::Queued && y.state == CarState::Queued
    &&& !x.is_last_step_spec() && !y.is_last_step_spec()
    &&& driven_to(sim, now, lx).dist >= sim.map.lanes@[lx].length
    &&& driven_to(sim, now, ly).dist >= sim.map.lanes@[ly].length
    &&& x.vehicle.id.0 < y.vehicle.id.0
    &&& sim.map.turns@[next_turn(y).0 as int].parent.0 == i
    &&& conflict_in(sim.map.intersections@[i].conflicts@, next_turn(x), next_turn(y))
    &&& sim.intersections[i].active.len() == 0
    &&& sim.intersections[i].waiting.len() == 0
}

/// Of two cars that get to an idle intersection in the same step and want
/// turns that conflict, the one with the lower identity goes first,
/// whichever lane it is on: after the step it is on its turn, and the other
/// waits at the end of its lane, its request held back by the turn in use.
pub proof fn lemma_lower_identity_crosses_first(sim: SimView, now: Time, lx: int, ly: int)
    requires
        sim.wf(),
        now > sim.time,
        meet_at_crossing(sim, now, lx, ly),
    ensures
        ({
            let x = sim.lanes[lx][0];
            let y = sim.lanes[ly][0];
            let tx = next_turn(x);
            let ty = next_turn(y);
            let i = sim.map.turns@[tx.0 as int].parent.0 as int;
            let after = sim.advance(now);
            &&& after.lanes[lx].len() == 0
            &&& after.turns[tx.0 as int] == seq![driven_to(sim, now, lx).waiting().stepped().entered(0)]
            &&& after.turns[ty.0 as int].len() == 0
            &&& after.lanes[ly] == seq![driven_to(sim, now, ly).waiting()]
            &&& after.lanes[ly][0].state == CarState::WaitingAtIntersection
            &&& after.lanes[ly][0].dist == sim.map.lanes@[ly].length
            &&& after.intersections[i].active == seq![Movement { turn: tx, car: x.vehicle.id }]
            &&& after.intersections[i].waiting == seq![Request { turn: ty, car: y.vehicle.id, time: now }]
        }),
{
    reveal_with_fuel(advanced, 3);
    let elapsed = (now - sim.time) as Duration;
    let x = sim.lanes[lx][0];
    let y = sim.lanes[ly][0];
    let tx = next_turn(x);
    let ty = next_turn(y);
    let i = sim.map.turns@[tx.0 as int].parent.0 as int;
    let table = sim.map.intersections@[i].conflicts@;
    // What a sound state says of the two cars.
    assert(sim.lane_ok(lx) && sim.lane_ok(ly));
    assert(car_on(sim.map, x, Traversable::Lane(LaneID(lx as usize))));
    assert(car_on(sim.map, y, Traversable::Lane(LaneID(ly as usize))));
    assert(on_road(x) && on_road(y));
    assert(sim.map.step_ok(x.route.steps@, x.route_idx as int));
    assert(sim.map.step_ok(x.route.steps@, x.route_idx + 1));
    assert(sim.map.step_ok(y.route.steps@, y.route_idx as int));
    assert(sim.map.step_ok(y.route.steps@, y.route_idx + 1));
    assert(sim.map.turn_ok(tx.0 as int) && sim.map.turn_ok(ty.0 as int));
    assert(sim.intersection_ok(i));
    assert(tx != ty);
    // No car appears; the two drive to the ends of their lanes.
    assert(sim.activate_from(0, now) == sim);
    lemma_moved_is_sound(sim, elapsed);
    let moved = sim.moved(elapsed);
    let x2 = driven_to(sim, now, lx);
    let y2 = driven_to(sim, now, ly);
    assert(sim.lanes[lx].drop_last() =~= Seq::<Car>::empty());
    assert(sim.lanes[ly].drop_last() =~= Seq::<Car>::empty());
    assert(moved.lanes[lx] =~= seq![x2]);
    assert(moved.lanes[ly] =~= seq![y2]);
    assert forall|k: int| 0 <= k < moved.lanes.len() && k != lx && k != ly implies (#[trigger] moved.lanes[k]).len()
        == 0 by {
        assert(sim.lanes[k].len() == 0);
    }
    assert forall|t: int| 0 <= t < moved.turns.len() implies (#[trigger] moved.turns[t]).len() == 0 by {
        assert(sim.turns[t].len() == 0);
    }
    lemma_idle_turns_stay(moved, 0);
    // Both are noted as arrived, and their requests stand by identity.
    let rx = Request { turn: tx, car: x.vehicle.id, time: now };
    let ry = Request { turn: ty, car: y.vehicle.id, time: now };
    let a = if lx < ly { lx } else { ly };
    let b = if lx < ly { ly } else { lx };
    let ra = if lx < ly { rx } else { ry };
    let rb = if lx < ly { ry } else { rx };
    let none = Seq::<Request>::empty();
    assert(moved.arrives(lx) && moved.arrives(ly));
    assert(moved.request_at(lx, now) == rx && moved.request_at(ly, now) == ry);
    assert forall|k: int| 0 <= k < moved.lanes.len() && k != lx && k != ly implies !#[trigger] moved.arrives(k) by {
        assert(moved.lanes[k].len() == 0);
    }
    let held_a = moved.held(a);
    let held = held_a.held(b);
    assert(held_a.lanes[b] == moved.lanes[b]);
    assert(held_a.arrives(b) && held_a.request_at(b, now) == rb);
    assert forall|k: int| 0 <= k < held_a.lanes.len() && k != lx && k != ly implies !#[trigger] held_a.arrives(k) by {
        assert(moved.lanes[k].len() == 0);
    }
    assert forall|k: int| 0 <= k < held.lanes.len() && k != lx && k != ly implies !#[trigger] held.arrives(k) by {
        assert(moved.lanes[k].len() == 0);
    }
    let first = enqueued(none, ra);
    assert(first =~= seq![ra]);
    let both = enqueued(first, rb);
    assert(rx.before_spec(ry) && !ry.before_spec(rx));
    assert(both =~= seq![rx, ry]) by {
        reveal_with_fuel(place_for, 3);
    }
    lemma_arrivals_skip(moved, 0, a, now, none);
    lemma_arrivals_skip(held_a, a + 1, b, now, first);
    lemma_arrivals_skip(held, b + 1, held.lanes.len() as int, now, both);
    assert(moved.arrivals_from(0, now, none) == (held, both));
    assert(held.lanes[lx] =~= seq![x2.waiting()]);
    assert(held.lanes[ly] =~= seq![y2.waiting()]);
    // The arbiter grants the first and holds back the second.
    let idle = sim.intersections[i];
    assert(idle.active =~= Seq::<Movement>::empty());
    assert(idle.waiting =~= none);
    let mx = Movement { turn: tx, car: x.vehicle.id };
    let one = idle.requested(tx, x.vehicle.id, now);
    assert(compatible(idle.conflicts, idle.active, tx));
    assert(one.active =~= seq![mx]);
    assert(conflict_in(one.conflicts, one.active[0].turn, ty));
    assert(!compatible(one.conflicts, one.active, ty));
    let two = one.requested(ty, y.vehicle.id, now);
    assert(two.active =~= seq![mx]);
    assert(two.waiting =~= seq![ry]);
    let filed_x = held.filed(rx);
    let filed = filed_x.filed(ry);
    assert(filed_x.intersections[i] == one);
    assert(filed.intersections =~= held.intersections.update(i, two));
    assert(held.filed_from(both, 2) == held) by {
        assert(both.len() == 2);
    }
    assert(filed_x.filed_from(both, 1) == filed) by {
        assert(filed.filed_from(both, 2) == filed);
    }
    assert(held.filed_from(both, 0) == filed);
    assert(moved.requests_filed(now) == filed);
    // The first goes on to its turn; the second cannot.
    assert(filed.can_enter_turn(lx)) by {
        assert(two.active[0] == mx);
        assert(filed.turns[tx.0 as int].len() == 0);
    }
    assert(!filed.can_enter_turn(ly)) by {
        assert(forall|n: int| 0 <= n < two.active.len() ==> two.active[n] != Movement { turn: ty, car: y.vehicle.id });
    }
    assert forall|k: int| 0 <= k < filed.lanes.len() && k != lx implies !#[trigger] filed.can_enter_turn(k) by {
        if k != ly {
            assert(moved.lanes[k].len() == 0);
        }
    }
    let entered = filed.entered_turn(lx);
    assert forall|k: int| 0 <= k < entered.lanes.len() implies !#[trigger] entered.can_enter_turn(k) by {
        if k == ly {
            assert(entered.lanes[ly] == filed.lanes[ly]);
            assert(forall|n: int|
                0 <= n < two.active.len() ==> two.active[n] != Movement { turn: ty, car: y.vehicle.id });
        } else if k != lx {
            assert(moved.lanes[k].len() == 0);
        }
    }
    lemma_entries_skip(filed, 0, lx);
    lemma_no_entries(entered, lx + 1);
    assert(filed.enter_turns_from(0) == entered);
    // No journey ends.
    assert forall|k: int, n: int| 0 <= k < entered.lanes.len() && 0 <= n < entered.lanes[k].len() implies !(
    #[trigger] entered.lanes[k][n]).is_finished_spec() by {
        if k == ly {
            assert(entered.lanes[ly][n] == y2.waiting());
        } else if k != lx {
            assert(moved.lanes[k].len() == 0);
        }
    }
    lemma_nothing_retires(entered, 0);
    let after = sim.advance(now);
    assert(after == SimView { time: now, ..entered });
    assert(after.turns[tx.0 as int] =~= seq![x2.waiting().stepped().entered(0)]);
    assert(after.lanes[ly] =~= seq![y2.waiting()]);
    assert(after.intersections[i].active =~= seq![mx]);
    assert(after.intersections[i].waiting =~= seq![ry]);
    assert(after.lanes[lx].len() == 0);
    assert(after.turns[ty.0 as int].len() == 0) by {
        assert(sim.turns[ty.0 as int].len() == 0);
    }
    assert(y2.dist == sim.map.lanes@[ly].length) by {
        assert(moved.lane_ok(ly));
        assert(ly < sim.map.lanes.len());
        assert(car_on(moved.map, moved.lanes[ly][0], Traversable::Lane(LaneID(ly as usize))));
    }
}

/// Turns whose front car cannot go on are passed over.
proof fn lemma_leaving_skip(sim: SimView, from: int, upto: int)
    requires
        0 <= from <= upto,
        forall|t: int| from <= t < upto && t < sim.turns.len() ==> !#[trigger] sim.can_leave_turn(t),
    ensures
        sim.leave_turns_from(from) == sim.leave_turns_from(upto),
    decreases upto - from,
{
    if from < upto {
        if from < sim.turns.len() {
            assert(!sim.can_leave_turn(from));
        }
        lemma_leaving_skip(sim, from + 1, upto);
    }
}

/// The car at the front of turn `t` after it has driven for the step to
/// `now`.
pub open spec fn driven_on_turn(sim: SimView, now: Time, t: int) -> Car {
    sim.turns[t][0].driven(
        (now - sim.time) as Duration,
        sim.map.turns@[t].speed_limit,
        sim.map.turns@[t].length as int,
    )
}

/// Two cars have the road to themselves: `x` is crossing by turn `tx`, and
/// `y` waits at the end of lane `ly` for a turn of the same intersection
/// that conflicts with `tx`. The arbiter has `x`'s movement in progress and
/// holds `y`'s request, made at `asked`, and nothing else.
pub open spec fn waits_for_crossing(sim: SimView, tx: int, ly: int, asked: Time) -> bool {
    let x = sim.turns[tx][0];
    let y = sim.lanes[ly][0];
    let i = sim.map.turns@[tx].parent.0 as int;
    &&& sim.pending.len() == 0
    &&& 0 <= tx < sim.turns.len() && 0 <= ly < sim.lanes.len()
    &&& forall|t: int| 0 <= t < sim.turns.len() && t != tx ==> (#[trigger] sim.turns[t]).len() == 0
    &&& only_on_lane(sim, ly)
    &&& sim.turns[tx].len() == 1 && sim.lanes[ly].len() == 1
    &&& y.state == CarState::WaitingAtIntersection
    &&& y.dist >= sim.map.lanes@[ly].length
    &&& sim.map.turns@[next_turn(y).0 as int].parent.0 == i
    &&& conflict_in(sim.map.intersections@[i].conflicts@, TurnID(tx as usize), next_turn(y))
    &&& sim.intersections[i].active == seq![Movement { turn: TurnID(tx as usize), car: x.vehicle.id }]
    &&& sim.intersections[i].waiting == seq![Request { turn: next_turn(y), car: y.vehicle.id, time: asked }]
}

/// A car that waits for a turn stays where it is while the turn in its way
/// is in use: as long as the car that crosses has not got to the end of its
/// turn, a step leaves the waiting car at the end of its lane, still
/// waiting, and the arbiter as it was.
pub proof fn lemma_waiting_car_stays_put(sim: SimView, now: Time, tx: int, ly: int, asked: Time)
    requires
        sim.wf(),
        now > sim.time,
        waits_for_crossing(sim, tx, ly, asked),
        driven_on_turn(sim, now, tx).dist < sim.map.turns@[tx].length,
    ensures
        ({
            let y = sim.lanes[ly][0];
            let i = sim.map.turns@[tx].parent.0 as int;
            let after = sim.advance(now);
            &&& after.turns[tx] == seq![driven_on_turn(sim, now, tx)]
            &&& after.turns[next_turn(y).0 as int].len() == 0
            &&& after.lanes[ly] == seq![driven_to(sim, now, ly)]
            &&& after.lanes[ly][0].state == CarState::WaitingAtIntersection
            &&& after.lanes[ly][0].dist == y.dist
            &&& after.intersections[i] == sim.intersections[i]
        }),
{
    reveal_with_fuel(advanced, 3);
    let elapsed = (now - sim.time) as Duration;
    let x = sim.turns[tx][0];
    let y = sim.lanes[ly][0];
    let ty = next_turn(y);
    let i = sim.map.turns@[tx].parent.0 as int;
    assert(sim.lane_ok(ly) && sim.turn_ok(tx));
    assert(car_on(sim.map, y, Traversable::Lane(LaneID(ly as usize))));
    assert(on_road(y));
    assert(sim.map.step_ok(y.route.steps@, y.route_idx as int));
    assert(sim.map.step_ok(y.route.steps@, y.route_idx + 1));
    assert(sim.map.turn_ok(ty.0 as int) && sim.map.turn_ok(tx));
    assert(ly < sim.map.lanes.len() && tx < sim.map.turns.len());
    assert(ty != TurnID(tx as usize));
    assert(sim.activate_from(0, now) == sim);
    lemma_moved_is_sound(sim, elapsed);
    let moved = sim.moved(elapsed);
    let x2 = driven_on_turn(sim, now, tx);
    let y2 = driven_to(sim, now, ly);
    assert(sim.lanes[ly].drop_last() =~= Seq::<Car>::empty());
    assert(sim.turns[tx].drop_last() =~= Seq::<Car>::empty());
    assert(moved.lanes[ly] =~= seq![y2]);
    assert(moved.turns[tx] =~= seq![x2]) by {
        assert(car_on(sim.map, x, Traversable::Turn(TurnID(tx as usize))));
        assert(on_road(x));
        assert(sim.map.step_ok(x.route.steps@, x.route_idx as int));
    }
    assert forall|k: int| 0 <= k < moved.lanes.len() && k != ly implies (#[trigger] moved.lanes[k]).len() == 0 by {
        assert(sim.lanes[k].len() == 0);
    }
    assert forall|t: int| 0 <= t < moved.turns.len() && t != tx implies (#[trigger] moved.turns[t]).len() == 0 by {
        assert(sim.turns[t].len() == 0);
    }
    assert forall|t: int| 0 <= t < moved.turns.len() implies !#[trigger] moved.can_leave_turn(t) by {
        if t != tx {
            assert(moved.turns[t].len() == 0);
        }
    }
    lemma_leaving_skip(moved, 0, moved.turns.len() as int);
    assert forall|k: int| 0 <= k < moved.lanes.len() implies !#[trigger] moved.arrives(k) by {
        if k != ly {
            assert(moved.lanes[k].len() == 0);
        }
    }
    lemma_no_arrivals(moved, 0, now, Seq::<Request>::empty());
    assert(moved.requests_filed(now) == moved);
    assert forall|k: int| 0 <= k < moved.lanes.len() implies !#[trigger] moved.can_enter_turn(k) by {
        if k != ly {
            assert(moved.lanes[k].len() == 0);
        } else {
            let active = moved.intersections[i].active;
            assert(forall|n: int| 0 <= n < active.len() ==> active[n] != Movement { turn: ty, car: y.vehicle.id });
        }
    }
    lemma_no_entries(moved, 0);
    assert forall|k: int, n: int| 0 <= k < moved.lanes.len() && 0 <= n < moved.lanes[k].len() implies !(
    #[trigger] moved.lanes[k][n]).is_finished_spec() by {
        if k != ly {
            assert(moved.lanes[k].len() == 0);
        } else {
            assert(moved.lanes[ly][n] == y2);
        }
    }
    lemma_nothing_retires(moved, 0);
    let after = sim.advance(now);
    assert(after == SimView { time: now, ..moved });
    assert(after.turns[ty.0 as int].len() == 0) by {
        assert(sim.turns[ty.0 as int].len() == 0);
    }
}

/// A car that waits for a turn gets it when the turn in its way is free
/// again: in the step in which the car that crosses gets to the end of its
/// turn and goes on to the lane beyond, the arbiter ends that movement and
/// grants the request it held back, and the waiting car goes on to its
/// turn.
pub proof fn lemma_waiting_car_goes_on_release(sim: SimView, now: Time, tx: int, ly: int, asked: Time)
    requires
        sim.wf(),
        now > sim.time,
        waits_for_crossing(sim, tx, ly, asked),
        driven_on_turn(sim, now, tx).dist >= sim.map.turns@[tx].length,
        sim.map.turns@[tx].dst.0 != ly,
        sim.map.lanes@[sim.map.turns@[tx].dst.0 as int].length > 0,
    ensures
        ({
            let y = sim.lanes[ly][0];
            let ty = next_turn(y);
            let i = sim.map.turns@[tx].parent.0 as int;
            let dst = sim.map.turns@[tx].dst.0 as int;
            let after = sim.advance(now);
            &&& after.turns[tx].len() == 0
            &&& after.lanes[dst] == seq![driven_on_turn(sim, now, tx).stepped().entered(0)].filter(unfinished_cars())
            &&& after.lanes[ly].len() == 0
            &&& after.turns[ty.0 as int] == seq![driven_to(sim, now, ly).stepped().entered(0)]
            &&& after.intersections[i].active == seq![Movement { turn: ty, car: y.vehicle.id }]
            &&& after.intersections[i].waiting.len() == 0
        }),
{
    reveal_with_fuel(advanced, 3);
    let elapsed = (now - sim.time) as Duration;
    let x = sim.turns[tx][0];
    let y = sim.lanes[ly][0];
    let ty = next_turn(y);
    let i = sim.map.turns@[tx].parent.0 as int;
    let dst = sim.map.turns@[tx].dst.0 as int;
    assert(sim.lane_ok(ly) && sim.turn_ok(tx));
    assert(car_on(sim.map, y, Traversable::Lane(LaneID(ly as usize))));
    assert(car_on(sim.map, x, Traversable::Turn(TurnID(tx as usize))));
    assert(on_road(y) && on_road(x));
    assert(sim.map.step_ok(y.route.steps@, y.route_idx as int));
    assert(sim.map.step_ok(y.route.steps@, y.route_idx + 1));
    assert(sim.map.step_ok(x.route.steps@, x.route_idx as int));
    assert(sim.map.turn_ok(ty.0 as int) && sim.map.turn_ok(tx));
    assert(ly < sim.map.lanes.len() && tx < sim.map.turns.len());
    assert(ty != TurnID(tx as usize));
    assert(sim.intersection_ok(i));
    assert(sim.activate_from(0, now) == sim);
    lemma_moved_is_sound(sim, elapsed);
    let moved = sim.moved(elapsed);
    let x2 = driven_on_turn(sim, now, tx);
    let y2 = driven_to(sim, now, ly);
    assert(sim.lanes[ly].drop_last() =~= Seq::<Car>::empty());
    assert(sim.turns[tx].drop_last() =~= Seq::<Car>::empty());
    assert(moved.lanes[ly] =~= seq![y2]);
    assert(moved.turns[tx] =~= seq![x2]);
    assert forall|k: int| 0 <= k < moved.lanes.len() && k != ly implies (#[trigger] moved.lanes[k]).len() == 0 by {
        assert(sim.lanes[k].len() == 0);
    }
    assert forall|t: int| 0 <= t < moved.turns.len() && t != tx implies (#[trigger] moved.turns[t]).len() == 0 by {
        assert(sim.turns[t].len() == 0);
    }
    // The car that crosses goes on, and the arbiter grants what it held.
    assert forall|t: int| 0 <= t < tx implies !#[trigger] moved.can_leave_turn(t) by {
        assert(moved.turns[t].len() == 0);
    }
    lemma_leaving_skip(moved, 0, tx);
    assert(moved.lanes[dst].len() == 0);
    assert(moved.can_leave_turn(tx));
    let left = moved.left_turn(tx);
    let xd = x2.stepped().entered(0);
    assert(left.turns[tx] =~= Seq::<Car>::empty());
    assert(left.lanes[dst] =~= seq![xd]);
    assert forall|t: int| 0 <= t < left.turns.len() implies (#[trigger] left.turns[t]).len() == 0 by {
        if t != tx {
            assert(moved.turns[t].len() == 0);
        }
    }
    lemma_idle_turns_stay(left, tx + 1);
    assert(moved.leave_turns_from(0) == left);
    let held = sim.intersections[i];
    let mx = Movement { turn: TurnID(tx as usize), car: x.vehicle.id };
    let my = Movement { turn: ty, car: y.vehicle.id };
    let ry = Request { turn: ty, car: y.vehicle.id, time: asked };
    let freed = IntersectionView { active: without_first(held.active, mx), ..held };
    assert(freed.active =~= Seq::<Movement>::empty()) by {
        assert(first_place_of(held.active, mx, 0) == 0);
    }
    assert(compatible(freed.conflicts, freed.active, ty));
    let granted = IntersectionView { active: freed.active.push(ry.movement()), waiting: freed.waiting.remove(0), ..freed };
    assert(granted.waiting =~= Seq::<Request>::empty());
    assert(granted.active =~= seq![my]);
    assert(granted.regranted_from(0) == granted);
    assert(freed.regranted_from(0) == granted);
    assert(held.released(TurnID(tx as usize), x.vehicle.id) == granted);
    assert(left.intersections[i] == granted);
    // No car has just got to the end of a lane.
    assert forall|k: int| 0 <= k < left.lanes.len() implies !#[trigger] left.arrives(k) by {
        if k != ly && k != dst {
            assert(moved.lanes[k].len() == 0);
        }
    }
    lemma_no_arrivals(left, 0, now, Seq::<Request>::empty());
    assert(left.requests_filed(now) == left);
    // The car that waited goes on to its turn.
    assert(left.lanes[ly] == moved.lanes[ly]);
    assert(left.can_enter_turn(ly)) by {
        assert(granted.active[0] == my);
        assert(left.turns[ty.0 as int].len() == 0);
        assert(y2.dist >= y.dist);
    }
    assert forall|k: int| 0 <= k < left.lanes.len() && k != ly implies !#[trigger] left.can_enter_turn(k) by {
        if k != dst {
            assert(moved.lanes[k].len() == 0);
        }
    }
    let entered = left.entered_turn(ly);
    assert(entered.lanes[ly] =~= Seq::<Car>::empty());
    assert(entered.lanes[dst] == left.lanes[dst]);
    assert forall|k: int| 0 <= k < entered.lanes.len() implies !#[trigger] entered.can_enter_turn(k) by {
        if k != ly && k != dst {
            assert(moved.lanes[k].len() == 0);
        }
    }
    lemma_entries_skip(left, 0, ly);
    lemma_no_entries(entered, ly + 1);
    assert(left.enter_turns_from(0) == entered);
    // The journey of the car that crossed may end where it now is.
    assert forall|k: int| 0 <= k < entered.lanes.len() && k != dst implies (#[trigger] entered.lanes[k]).len() == 0 by {
        if k != ly {
            assert(moved.lanes[k].len() == 0);
        }
    }
    lemma_retire_on_one_lane(entered, dst, 0);
    let after = sim.advance(now);
    assert(after == SimView { time: now, ..entered.retired_on(dst) });
    assert(after.turns[ty.0 as int] =~= seq![y2.stepped().entered(0)]) by {
        assert(sim.turns[ty.0 as int].len() == 0);
        assert(left.turns[ty.0 as int] =~= Seq::<Car>::empty());
    }
    assert(after.intersections[i].active =~= seq![my]);
}

} // verus!
