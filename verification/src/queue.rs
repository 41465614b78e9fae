//! The cars on one segment, front of the queue first, kept apart by the
//! following distance.

use vstd::prelude::*;
use crate::car::{Car, CarState, DrawCarInput};
use crate::units::{Distance, Duration, Speed, FOLLOWING_DISTANCE};

verus! {

/// The follower's front bumper is at least the following distance behind the
/// leader's rear bumper.
pub open spec fn gap_ok(leader: Car, follower: Car) -> bool {
    follower.dist + follower.vehicle.length + FOLLOWING_DISTANCE <= leader.dist
}

/// Every car keeps its gap to every car ahead of it.
pub open spec fn spaced(cars: Seq<Car>) -> bool {
    forall|i: int, j: int| 0 <= i < j < cars.len() ==> gap_ok(#[trigger] cars[i], #[trigger] cars[j])
}

/// A car with a sound route, in a state in which a car is on the road. One
/// on the last step of its route has no turn to wait for.
pub open spec fn on_road(c: Car) -> bool {
    &&& c.wf()
    &&& c.state.on_road()
    &&& c.is_last_step_spec() ==> c.state == CarState::Queued
}

/// Every car is fit to be on the road.
pub open spec fn roadworthy(cars: Seq<Car>) -> bool {
    forall|i: int| 0 <= i < cars.len() ==> on_road(#[trigger] cars[i])
}

/// A car of the given length put at `at` would keep its gap to the rearmost
/// car, or the segment is empty.
pub open spec fn has_room_spec(cars: Seq<Car>, length: Distance, at: Distance) -> bool {
    cars.len() == 0 || at + length + FOLLOWING_DISTANCE <= cars.last().dist
}

/// The farthest car `c` may get along a segment: where it is heading, or
/// where its gap to the car ahead would close, whichever comes first.
/// `ahead` holds the cars in front of it where they now stand.
pub open spec fn ceiling_spec(ahead: Seq<Car>, c: Car, segment_length: Distance) -> int {
    let goal = c.target_spec(segment_length) as int;
    if ahead.len() == 0 {
        goal
    } else {
        let behind_leader = ahead.last().dist - FOLLOWING_DISTANCE - c.vehicle.length;
        if behind_leader < goal {
            behind_leader
        } else {
            goal
        }
    }
}

/// The cars of a segment after `elapsed`: each has driven as far as its free
/// speed and the car ahead, already moved, allow.
pub open spec fn advanced(cars: Seq<Car>, elapsed: Duration, segment_length: Distance, speed_limit: Speed) -> Seq<Car>
    decreases cars.len(),
{
    if cars.len() == 0 {
        cars
    } else {
        let ahead = advanced(cars.drop_last(), elapsed, segment_length, speed_limit);
        let c = cars.last();
        ahead.push(c.driven(elapsed, speed_limit, ceiling_spec(ahead, c, segment_length)))
    }
}

/// The same car, whatever its place and speed.
pub open spec fn same_car(a: Car, b: Car) -> bool {
    &&& a.vehicle == b.vehicle
    &&& a.route == b.route
    &&& a.route_idx == b.route_idx
    &&& a.state == b.state
    &&& a.spawn_time == b.spawn_time
    &&& a.end_dist == b.end_dist
}

/// Picks the cars whose route is used up.
pub open spec fn finished_cars() -> spec_fn(Car) -> bool {
    |c: Car| c.is_finished_spec()
}

/// Picks the cars that still have somewhere to go.
pub open spec fn unfinished_cars() -> spec_fn(Car) -> bool {
    |c: Car| !c.is_finished_spec()
}

/// Ends a car's journey.
pub open spec fn retire_car() -> spec_fn(Car) -> Car {
    |c: Car| c.retired()
}

/// What a caller may see of each car, front of the queue first.
pub open spec fn snapshots(cars: Seq<Car>) -> Seq<DrawCarInput> {
    Seq::new(cars.len(), |i: int| cars[i].snapshot_spec())
}

/// What a caller may see of the cars of every queue, queue after queue.
pub open spec fn all_snapshots(queues: Seq<Seq<Car>>) -> Seq<DrawCarInput>
    decreases queues.len(),
{
    if queues.len() == 0 {
        Seq::<DrawCarInput>::empty()
    } else {
        all_snapshots(queues.drop_last()) + snapshots(queues.last())
    }
}

/// Driving changes neither which cars are on a segment nor their order,
/// moves no car back, and keeps every car behind the car ahead of it.
pub proof fn lemma_advanced_keeps_order(cars: Seq<Car>, elapsed: Duration, segment_length: Distance, speed_limit: Speed)
    requires
        spaced(cars),
    ensures
        advanced(cars, elapsed, segment_length, speed_limit).len() == cars.len(),
        forall|i: int|
            0 <= i < cars.len() ==> same_car(
                cars[i],
                #[trigger] advanced(cars, elapsed, segment_length, speed_limit)[i],
            ) && advanced(cars, elapsed, segment_length, speed_limit)[i].dist >= cars[i].dist,
        spaced(advanced(cars, elapsed, segment_length, speed_limit)),
    decreases cars.len(),
{
    if cars.len() > 0 {
        let ahead_before = cars.drop_last();
        assert forall|i: int, j: int| 0 <= i < j < ahead_before.len() implies gap_ok(
            #[trigger] ahead_before[i],
            #[trigger] ahead_before[j],
        ) by {
            assert(gap_ok(cars[i], cars[j]));
        }
        lemma_advanced_keeps_order(ahead_before, elapsed, segment_length, speed_limit);
        let ahead = advanced(ahead_before, elapsed, segment_length, speed_limit);
        let after = advanced(cars, elapsed, segment_length, speed_limit);
        let c = cars.last();
        let last = cars.len() - 1;
        assert(after[last] == c.driven(elapsed, speed_limit, ceiling_spec(ahead, c, segment_length)));
        assert forall|i: int| 0 <= i < cars.len() implies same_car(cars[i], #[trigger] after[i]) && after[i].dist
            >= cars[i].dist by {
            if i < last {
                assert(after[i] == ahead[i]);
                assert(cars[i] == ahead_before[i]);
            }
        }
        assert forall|i: int, j: int| 0 <= i < j < after.len() implies gap_ok(
            #[trigger] after[i],
            #[trigger] after[j],
        ) by {
            assert(after[i] == ahead[i]);
            if j < last {
                assert(after[j] == ahead[j]);
                assert(gap_ok(ahead[i], ahead[j]));
            } else {
                assert(gap_ok(cars[i], cars[last]));
                assert(ahead[i].dist >= ahead_before[i].dist);
                if i < last - 1 {
                    assert(gap_ok(ahead[i], ahead[last - 1]));
                }
            }
        }
    }
}

/// The cars keep their gaps and each is fit to be on the road.
pub open spec fn sound(cars: Seq<Car>) -> bool {
    spaced(cars) && roadworthy(cars)
}

/// A car that joins behind the others where there is room for it leaves
/// the queue sound.
pub proof fn lemma_joining_keeps_sound(cars: Seq<Car>, c: Car, at: Distance)
    requires
        sound(cars),
        c.wf(),
        !c.state.is_terminal(),
        has_room_spec(cars, c.vehicle.length, at),
    ensures
        sound(cars.push(c.entered(at))),
{
    let after = cars.push(c.entered(at));
    assert forall|i: int, j: int| 0 <= i < j < after.len() implies gap_ok(#[trigger] after[i], #[trigger] after[j]) by {
        if j == cars.len() {
            if i < cars.len() - 1 {
                assert(gap_ok(cars[i], cars[cars.len() - 1]));
            }
        } else {
            assert(gap_ok(cars[i], cars[j]));
        }
    }
    assert forall|i: int| 0 <= i < after.len() implies on_road(#[trigger] after[i]) by {
        if i < cars.len() {
            assert(on_road(cars[i]));
        }
    }
}

/// Driving leaves the queue sound, and takes no car that drove beyond
/// where it is heading.
pub proof fn lemma_driving_keeps_sound(cars: Seq<Car>, elapsed: Duration, segment_length: Distance, speed_limit: Speed)
    requires
        sound(cars),
    ensures
        sound(advanced(cars, elapsed, segment_length, speed_limit)),
        advanced(cars, elapsed, segment_length, speed_limit).len() == cars.len(),
        forall|i: int|
            0 <= i < cars.len() ==> same_car(
                cars[i],
                #[trigger] advanced(cars, elapsed, segment_length, speed_limit)[i],
            ) && cars[i].dist <= advanced(cars, elapsed, segment_length, speed_limit)[i].dist && (advanced(
                cars,
                elapsed,
                segment_length,
                speed_limit,
            )[i].dist <= cars[i].dist || advanced(cars, elapsed, segment_length, speed_limit)[i].dist
                <= cars[i].target_spec(segment_length)),
    decreases cars.len(),
{
    lemma_advanced_keeps_order(cars, elapsed, segment_length, speed_limit);
    let after = advanced(cars, elapsed, segment_length, speed_limit);
    assert forall|i: int| 0 <= i < after.len() implies on_road(#[trigger] after[i]) by {
        assert(on_road(cars[i]));
        assert(same_car(cars[i], after[i]));
    }
    if cars.len() > 0 {
        let ahead_before = cars.drop_last();
        assert forall|i: int, j: int| 0 <= i < j < ahead_before.len() implies gap_ok(
            #[trigger] ahead_before[i],
            #[trigger] ahead_before[j],
        ) by {
            assert(gap_ok(cars[i], cars[j]));
        }
        assert forall|i: int| 0 <= i < ahead_before.len() implies on_road(#[trigger] ahead_before[i]) by {
            assert(on_road(cars[i]));
        }
        lemma_driving_keeps_sound(ahead_before, elapsed, segment_length, speed_limit);
        let ahead = advanced(ahead_before, elapsed, segment_length, speed_limit);
        let last = cars.len() - 1;
        assert(after[last] == cars[last].driven(elapsed, speed_limit, ceiling_spec(ahead, cars[last], segment_length)));
        assert forall|i: int| 0 <= i < cars.len() implies (#[trigger] after[i]).dist <= cars[i].dist || after[i].dist
            <= cars[i].target_spec(segment_length) by {
            if i < last {
                assert(after[i] == ahead[i]);
                assert(cars[i] == ahead_before[i]);
            }
        }
    }
}

/// The front car leaving leaves the queue sound.
pub proof fn lemma_leaving_keeps_sound(cars: Seq<Car>)
    requires
        sound(cars),
        cars.len() > 0,
    ensures
        sound(cars.drop_first()),
{
    let after = cars.drop_first();
    assert forall|i: int, j: int| 0 <= i < j < after.len() implies gap_ok(#[trigger] after[i], #[trigger] after[j]) by {
        assert(gap_ok(cars[i + 1], cars[j + 1]));
    }
    assert forall|i: int| 0 <= i < after.len() implies on_road(#[trigger] after[i]) by {
        assert(on_road(cars[i + 1]));
    }
}

/// Marking the front car as waiting for its turn leaves the queue sound.
pub proof fn lemma_holding_keeps_sound(cars: Seq<Car>)
    requires
        sound(cars),
        cars.len() > 0,
        cars[0].state == CarState::Queued,
        !cars[0].is_last_step_spec(),
    ensures
        sound(cars.update(0, cars[0].waiting())),
{
    let after = cars.update(0, cars[0].waiting());
    assert forall|i: int, j: int| 0 <= i < j < after.len() implies gap_ok(#[trigger] after[i], #[trigger] after[j]) by {
        assert(gap_ok(cars[i], cars[j]));
    }
    assert forall|i: int| 0 <= i < after.len() implies on_road(#[trigger] after[i]) by {
        assert(on_road(cars[i]));
    }
}

/// Taking cars off a queue leaves it sound, with the cars that stay in the
/// order in which they stood.
pub proof fn lemma_picking_keeps_sound(cars: Seq<Car>, pick: spec_fn(Car) -> bool)
    requires
        sound(cars),
    ensures
        sound(cars.filter(pick)),
        forall|k: int| 0 <= k < cars.filter(pick).len() ==> cars.contains(#[trigger] cars.filter(pick)[k]) && pick(
            cars.filter(pick)[k],
        ),
        cars.filter(pick).len() <= cars.len(),
    decreases cars.len(),
{
    reveal(Seq::filter);
    let kept = cars.filter(pick);
    if cars.len() > 0 {
        let before = cars.drop_last();
        let last = cars.last();
        assert forall|i: int, j: int| 0 <= i < j < before.len() implies gap_ok(
            #[trigger] before[i],
            #[trigger] before[j],
        ) by {
            assert(gap_ok(cars[i], cars[j]));
        }
        assert forall|i: int| 0 <= i < before.len() implies on_road(#[trigger] before[i]) by {
            assert(on_road(cars[i]));
        }
        lemma_picking_keeps_sound(before, pick);
        let kept_before = before.filter(pick);
        assert forall|k: int| 0 <= k < kept.len() implies cars.contains(#[trigger] kept[k]) && pick(kept[k]) by {
            if k < kept_before.len() {
                assert(kept[k] == kept_before[k]);
                assert(before.contains(kept_before[k]));
                let m = choose|m: int| 0 <= m < before.len() && before[m] == kept_before[k];
                assert(cars[m] == kept[k]);
            } else {
                assert(kept[k] == last);
                assert(cars[cars.len() - 1] == last);
            }
        }
        assert forall|i: int, j: int| 0 <= i < j < kept.len() implies gap_ok(#[trigger] kept[i], #[trigger] kept[j]) by {
            assert(kept[i] == kept_before[i]);
            if j < kept_before.len() {
                assert(kept[j] == kept_before[j]);
                assert(gap_ok(kept_before[i], kept_before[j]));
            } else {
                assert(before.contains(kept_before[i]));
                let m = choose|m: int| 0 <= m < before.len() && before[m] == kept_before[i];
                assert(gap_ok(cars[m], cars[cars.len() - 1]));
            }
        }
        assert forall|k: int| 0 <= k < kept.len() implies on_road(#[trigger] kept[k]) by {
            let m = choose|m: int| 0 <= m < cars.len() && cars[m] == kept[k];
            assert(on_road(cars[m]));
        }
    }
}

/// The place in `cars` of the `k`-th of the cars that `pick` picks.
pub open spec fn place_of_picked(cars: Seq<Car>, pick: spec_fn(Car) -> bool, k: int) -> int
    decreases cars.len(),
{
    if cars.len() == 0 {
        0
    } else if k < cars.drop_last().filter(pick).len() {
        place_of_picked(cars.drop_last(), pick, k)
    } else {
        cars.len() - 1
    }
}

/// The `k`-th of the picked cars is the car that stood at its place.
pub proof fn lemma_place_of_picked(cars: Seq<Car>, pick: spec_fn(Car) -> bool, k: int)
    requires
        0 <= k < cars.filter(pick).len(),
    ensures
        0 <= place_of_picked(cars, pick, k) < cars.len(),
        cars[place_of_picked(cars, pick, k)] == cars.filter(pick)[k],
    decreases cars.len(),
{
    reveal(Seq::filter);
    if cars.len() > 0 {
        let before = cars.drop_last();
        if k < before.filter(pick).len() {
            lemma_place_of_picked(before, pick, k);
        }
    }
}

/// Cars that are taken off a queue leave the others in the order in which
/// they stood: of two cars that stay, the one that stood ahead still does.
pub proof fn lemma_picked_stay_in_order(cars: Seq<Car>, pick: spec_fn(Car) -> bool, a: int, b: int)
    requires
        0 <= a < b < cars.filter(pick).len(),
    ensures
        0 <= place_of_picked(cars, pick, a) < place_of_picked(cars, pick, b) < cars.len(),
        cars[place_of_picked(cars, pick, a)] == cars.filter(pick)[a],
        cars[place_of_picked(cars, pick, b)] == cars.filter(pick)[b],
    decreases cars.len(),
{
    reveal(Seq::filter);
    lemma_place_of_picked(cars, pick, a);
    lemma_place_of_picked(cars, pick, b);
    if cars.len() > 0 {
        let before = cars.drop_last();
        if b < before.filter(pick).len() {
            lemma_picked_stay_in_order(before, pick, a, b);
        } else {
            lemma_place_of_picked(before, pick, a);
        }
    }
}

/// Between a car and the car ahead of it there is always at least the
/// following distance: their middles are never closer than that distance
/// and half the length of each.
pub proof fn lemma_no_overlap(cars: Seq<Car>, i: int)
    requires
        spaced(cars),
        0 < i < cars.len(),
    ensures
        cars[i - 1].dist - (cars[i].dist + cars[i].vehicle.length) >= FOLLOWING_DISTANCE,
        (2 * cars[i - 1].dist + cars[i - 1].vehicle.length) - (2 * cars[i].dist + cars[i].vehicle.length) >= 2
            * FOLLOWING_DISTANCE + cars[i - 1].vehicle.length + cars[i].vehicle.length,
{
    assert(gap_ok(cars[i - 1], cars[i]));
}

/// The order of the queue is the order of the cars along the segment: a
/// car nearer the front is strictly farther along.
pub proof fn lemma_queue_order_is_road_order(cars: Seq<Car>, i: int, j: int)
    requires
        spaced(cars),
        0 <= i < j < cars.len(),
    ensures
        cars[i].dist > cars[j].dist,
{
    assert(gap_ok(cars[i], cars[j]));
}

/// No car passes another: after driving, the cars stand in the order in
/// which they stood before, each still strictly behind those ahead of it.
pub proof fn lemma_no_passing(
    cars: Seq<Car>,
    elapsed: Duration,
    segment_length: Distance,
    speed_limit: Speed,
    i: int,
    j: int,
)
    requires
        spaced(cars),
        0 <= i < j < cars.len(),
    ensures
        advanced(cars, elapsed, segment_length, speed_limit).len() == cars.len(),
        same_car(cars[i], advanced(cars, elapsed, segment_length, speed_limit)[i]),
        same_car(cars[j], advanced(cars, elapsed, segment_length, speed_limit)[j]),
        advanced(cars, elapsed, segment_length, speed_limit)[i].dist > advanced(
            cars,
            elapsed,
            segment_length,
            speed_limit,
        )[j].dist,
{
    lemma_advanced_keeps_order(cars, elapsed, segment_length, speed_limit);
    let after = advanced(cars, elapsed, segment_length, speed_limit);
    assert(gap_ok(after[i], after[j]));
}

/// The cars on one segment, front first.
pub struct Queue {
    cars: Vec<Car>,
}

impl Queue {
    /// The cars on the segment, front of the queue first.
    pub closed spec fn view(&self) -> Seq<Car> {
        self.cars@
    }

    /// The cars keep their gaps and each is fit to be on the road.
    pub open spec fn wf(&self) -> bool {
        sound(self@)
    }

    pub fn new() -> (q: Queue)
        ensures
            q.wf(),
            q@ == Seq::<Car>::empty(),
    {
        Queue { cars: Vec::new() }
    }

    pub fn len(&self) -> (n: usize)
        ensures
            n == self@.len(),
    {
        self.cars.len()
    }

    pub fn is_empty(&self) -> (empty: bool)
        ensures
            empty == (self@.len() == 0),
    {
        self.cars.len() == 0
    }

    /// The car nearest the far end of the segment.
    pub fn front(&self) -> (first: Option<&Car>)
        ensures
            self@.len() == 0 ==> first.is_none(),
            self@.len() > 0 ==> first == Some(&self@[0]),
    {
        if self.cars.len() == 0 {
            None
        } else {
            Some(&self.cars[0])
        }
    }

    /// The car at place `i`, counted from the front.
    pub fn get(&self, i: usize) -> (car: &Car)
        requires
            i < self@.len(),
        ensures
            *car == self@[i as int],
    {
        &self.cars[i]
    }

    /// Whether a car of the given length can join at `at`.
    pub fn has_room(&self, length: Distance, at: Distance) -> (room: bool)
        ensures
            room == has_room_spec(self@, length, at),
    {
        let n = self.cars.len();
        if n == 0 {
            return true;
        }
        let rear = self.cars[n - 1].dist;
        if at > rear {
            return false;
        }
        if length > rear - at {
            return false;
        }
        FOLLOWING_DISTANCE <= rear - at - length
    }

    /// Adds a car behind all the others, at `at`.
    pub fn insert(&mut self, car: Car, at: Distance)
        requires
            old(self).wf(),
            car.wf(),
            !car.state.is_terminal(),
            has_room_spec(old(self)@, car.vehicle.length, at),
        ensures
            final(self).wf(),
            final(self)@ == old(self)@.push(car.entered(at)),
    {
        proof {
            lemma_joining_keeps_sound(self@, car, at);
        }
        let mut car = car;
        car.enter(at);
        self.cars.push(car);
    }

    /// Adds a car behind all the others, at `at`, if that leaves the
    /// following distance and the car's own length behind the rearmost car.
    /// A full segment hands the car back.
    pub fn try_insert(&mut self, car: Car, at: Distance) -> (outcome: Result<(), Car>)
        requires
            old(self).wf(),
            car.wf(),
            !car.state.is_terminal(),
        ensures
            final(self).wf(),
            has_room_spec(old(self)@, car.vehicle.length, at) ==> outcome.is_ok() && final(self)@ == old(self)@.push(car.entered(at)),
            !has_room_spec(old(self)@, car.vehicle.length, at) ==> outcome == Err::<(), Car>(car) && final(self)@
                == old(self)@,
    {
        if self.has_room(car.vehicle.length, at) {
            self.insert(car, at);
            Ok(())
        } else {
            Err(car)
        }
    }

    /// Moves every car for `elapsed`, front to back, so that each is held
    /// back only by where the car ahead of it has already got to.
    pub fn advance_positions(&mut self, elapsed: Duration, segment_length: Distance, speed_limit: Speed)
        requires
            old(self).wf(),
        ensures
            final(self).wf(),
            final(self)@ == advanced(old(self)@, elapsed, segment_length, speed_limit),
            final(self)@.len() == old(self)@.len(),
            forall|i: int|
                0 <= i < old(self)@.len() ==> same_car(old(self)@[i], #[trigger] final(self)@[i]) && final(self)@[i].dist >= old(self)@[i].dist,
            forall|i: int|
                0 <= i < old(self)@.len() ==> (#[trigger] final(self)@[i]).dist <= old(self)@[i].dist
                    || final(self)@[i].dist <= old(self)@[i].target_spec(segment_length),
    {
        let ghost before = self.cars@;
        proof {
            lemma_driving_keeps_sound(before, elapsed, segment_length, speed_limit);
        }
        let n = self.cars.len();
        let mut i: usize = 0;
        assert(before.subrange(0, 0) =~= Seq::<Car>::empty());
        while i < n
            invariant
                i <= n,
                n == self.cars@.len(),
                n == before.len(),
                sound(before),
                self.cars@.subrange(0, i as int) == advanced(
                    before.subrange(0, i as int),
                    elapsed,
                    segment_length,
                    speed_limit,
                ),
                self.cars@.subrange(i as int, n as int) == before.subrange(i as int, n as int),
                i > 0 ==> self.cars@[i - 1].dist >= before[i - 1].dist,
            decreases n - i,
        {
            let ghost pre = self.cars@;
            assert(pre[i as int] == pre.subrange(i as int, n as int)[0]);
            assert(before[i as int] == before.subrange(i as int, n as int)[0]);
            assert(on_road(before[i as int]));
            let goal = self.cars[i].target(segment_length);
            let ceiling = if i == 0 {
                goal
            } else {
                let lead = self.cars[i - 1].dist;
                assert(gap_ok(before[i - 1], before[i as int]));
                let behind_leader = lead - FOLLOWING_DISTANCE - self.cars[i].vehicle.length;
                if behind_leader < goal {
                    behind_leader
                } else {
                    goal
                }
            };
            self.cars[i].drive(elapsed, speed_limit, ceiling);
            proof {
                let done = pre.subrange(0, i as int);
                let c = before[i as int];
                assert(before.subrange(0, i + 1).drop_last() =~= before.subrange(0, i as int));
                assert(before.subrange(0, i + 1).last() == c);
                if i > 0 {
                    assert(done.last() == pre[i - 1]);
                }
                assert(ceiling as int == ceiling_spec(done, c, segment_length));
                assert(self.cars@.subrange(0, i + 1) =~= done.push(self.cars@[i as int]));
                assert(self.cars@.subrange(i + 1, n as int) =~= before.subrange(i + 1, n as int)) by {
                    assert forall|k: int| 0 <= k < n - i - 1 implies #[trigger] self.cars@.subrange(
                        i + 1,
                        n as int,
                    )[k] == before.subrange(i + 1, n as int)[k] by {
                        assert(pre.subrange(i as int, n as int)[k + 1] == before.subrange(i as int, n as int)[k
                            + 1]);
                    }
                }
            }
            i += 1;
        }
        assert(self.cars@.subrange(0, n as int) =~= self.cars@);
        assert(before.subrange(0, n as int) =~= before);
    }

    /// Takes the front car off the segment once it has got to the segment's
    /// end, and hands it over.
    pub fn pop_front_if_at_end(&mut self, segment_length: Distance) -> (car: Option<Car>)
        requires
            old(self).wf(),
        ensures
            final(self).wf(),
            old(self)@.len() > 0 && old(self)@[0].at_end_spec(segment_length) ==> car == Some(old(self)@[0])
                && final(self)@ == old(self)@.drop_first(),
            !(old(self)@.len() > 0 && old(self)@[0].at_end_spec(segment_length)) ==> car.is_none() && final(self)@ == old(self)@,
    {
        if self.cars.len() > 0 && self.cars[0].at_end(segment_length) {
            proof {
                lemma_leaving_keeps_sound(self@);
            }
            let car = self.cars.remove(0);
            assert(self.cars@ =~= old(self).cars@.drop_first());
            Some(car)
        } else {
            None
        }
    }

    /// Marks the front car as asking an intersection for its next turn.
    pub fn hold_front(&mut self)
        requires
            old(self).wf(),
            old(self)@.len() > 0,
            old(self)@[0].state == CarState::Queued,
            !old(self)@[0].is_last_step_spec(),
        ensures
            final(self).wf(),
            final(self)@ == old(self)@.update(0, old(self)@[0].waiting()),
    {
        proof {
            lemma_holding_keeps_sound(self@);
        }
        self.cars[0].wait();
        assert(self.cars@ =~= old(self).cars@.update(0, old(self).cars@[0].waiting()));
    }

    /// Takes every car whose route is used up off the segment, ends its
    /// journey and hands it over, front first. The others keep their order.
    pub fn retire_finished(&mut self) -> (gone: Vec<Car>)
        requires
            old(self).wf(),
        ensures
            final(self).wf(),
            final(self)@ == old(self)@.filter(unfinished_cars()),
            gone@ == old(self)@.filter(finished_cars()).map_values(retire_car()),
            forall|k: int| 0 <= k < final(self)@.len() ==> old(self)@.contains(#[trigger] final(self)@[k]),
            final(self)@.len() + gone@.len() == old(self)@.len(),
    {
        let ghost before = self.cars@;
        proof {
            lemma_picking_keeps_sound(before, unfinished_cars());
        }
        let n = self.cars.len();
        let mut gone: Vec<Car> = Vec::new();
        let mut j: usize = 0;
        let mut k: usize = 0;
        proof {
            assert(before.subrange(0, 0) =~= Seq::<Car>::empty());
            reveal(Seq::filter);
            assert(self.cars@.subrange(0, 0) =~= before.subrange(0, 0).filter(unfinished_cars()));
            assert(gone@ =~= before.subrange(0, 0).filter(finished_cars()).map_values(retire_car()));
            assert(self.cars@.subrange(0, n as int) =~= before.subrange(0, n as int));
        }
        while k < n
            invariant
                k <= n,
                n == before.len(),
                j <= k,
                self.cars@.len() == n - (k - j),
                gone@.len() == k - j,
                sound(before),
                self.cars@.subrange(0, j as int) == before.subrange(0, k as int).filter(unfinished_cars()),
                gone@ == before.subrange(0, k as int).filter(finished_cars()).map_values(retire_car()),
                self.cars@.subrange(j as int, self.cars@.len() as int) == before.subrange(k as int, n as int),
            decreases n - k,
        {
            let ghost pre = self.cars@;
            proof {
                assert(pre[j as int] == pre.subrange(j as int, pre.len() as int)[0]);
                assert(before[k as int] == before.subrange(k as int, n as int)[0]);
                assert(on_road(before[k as int]));
                assert(before.subrange(0, k + 1) =~= before.subrange(0, k as int).push(before[k as int]));
                before.subrange(0, k as int).lemma_filter_push(before[k as int], unfinished_cars());
                before.subrange(0, k as int).lemma_filter_push(before[k as int], finished_cars());
            }
            if self.cars[j].is_finished() {
                let mut car = self.cars.remove(j);
                car.retire();
                gone.push(car);
                proof {
                    let done = before.subrange(0, k as int).filter(finished_cars());
                    assert(done.push(before[k as int]).map_values(retire_car()) =~= done.map_values(
                        retire_car(),
                    ).push(before[k as int].retired()));
                    assert(self.cars@.subrange(0, j as int) =~= pre.subrange(0, j as int));
                    assert(self.cars@.subrange(j as int, self.cars@.len() as int) =~= before.subrange(
                        k + 1,
                        n as int,
                    )) by {
                        assert forall|m: int| 0 <= m < self.cars@.len() - j implies #[trigger] self.cars@.subrange(
                            j as int,
                            self.cars@.len() as int,
                        )[m] == before.subrange(k + 1, n as int)[m] by {
                            assert(pre.subrange(j as int, pre.len() as int)[m + 1] == before.subrange(
                                k as int,
                                n as int,
                            )[m + 1]);
                        }
                    }
                }
            } else {
                proof {
                    assert(self.cars@.subrange(0, j + 1) =~= pre.subrange(0, j as int).push(pre[j as int]));
                    assert(self.cars@.subrange(j + 1, self.cars@.len() as int) =~= before.subrange(
                        k + 1,
                        n as int,
                    )) by {
                        assert forall|m: int| 0 <= m < self.cars@.len() - j - 1 implies #[trigger] self.cars@.subrange(
                            j + 1,
                            self.cars@.len() as int,
                        )[m] == before.subrange(k + 1, n as int)[m] by {
                            assert(pre.subrange(j as int, pre.len() as int)[m + 1] == before.subrange(
                                k as int,
                                n as int,
                            )[m + 1]);
                        }
                    }
                }
                j += 1;
            }
            k += 1;
        }
        proof {
            assert(before.subrange(0, n as int) =~= before);
            assert(self.cars@.subrange(0, j as int) =~= self.cars@);
        }
        gone
    }

    /// A copy of what a caller may see of each car, front first.
    pub fn snapshot(&self) -> (seen: Vec<DrawCarInput>)
        requires
            self.wf(),
        ensures
            seen@ == snapshots(self@),
    {
        let mut seen: Vec<DrawCarInput> = Vec::new();
        let mut i: usize = 0;
        while i < self.cars.len()
            invariant
                i <= self.cars@.len(),
                roadworthy(self.cars@),
                seen@.len() == i,
                forall|k: int| 0 <= k < i ==> #[trigger] seen@[k] == self.cars@[k].snapshot_spec(),
            decreases self.cars@.len() - i,
        {
            seen.push(self.cars[i].snapshot());
            i += 1;
        }
        assert(seen@ =~= snapshots(self@));
        seen
    }
}

} // verus!
