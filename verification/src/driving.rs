//! The simulation as a whole: a queue for every lane and turn, an arbiter
//! for every intersection, the cars that wait to appear and those whose
//! journey is over.

use vstd::prelude::*;
use crate::car::{Car, CarState, DrawCarInput, Route};
use crate::intersection::{enqueue, IntersectionController, IntersectionView, Movement, Request};
use crate::model::{
    car_on, carries, controller_views, next_turn, parked, parked_record, queue_views, requests_ok, state_among,
    state_in_queues, SimView,
};
use crate::queue::{all_snapshots, on_road, snapshots, Queue};
use crate::soundness::{
    lemma_advance_keeps_sound, lemma_appeared_is_sound, lemma_enqueued_requests_ok, lemma_entered_turn_is_sound,
    lemma_held_is_sound, lemma_initial_is_sound, lemma_left_turn_is_sound, lemma_moved_is_sound,
    lemma_request_filed_is_sound, lemma_retired_on_is_sound, lemma_spawned_is_sound, lemma_withdrawn_is_sound,
};
use crate::topology::{LaneID, MapTopology, Traversable, TurnID};
use crate::units::{Distance, Duration, Time};
use crate::vehicle::{CarID, ParkedCar, Vehicle, VehicleType};

verus! {

/// Why a car was not accepted.
#[derive(Clone, Copy, Debug, PartialEq, Eq, Hash, Structural)]
pub enum SpawnError {
    /// The route is empty, does not alternate lanes and turns from a lane
    /// to a lane, names something the map does not have, or has a turn that
    /// does not join the lanes on either side of it.
    MalformedRoute,
    /// The route ends in a parking spot, and the vehicle is not a car.
    CannotPark,
    /// The first lane is too short for the vehicle to stand at the start
    /// distance.
    StartOutOfBounds,
    /// The end distance lies beyond the last lane.
    EndOutOfBounds,
    /// The route is a single lane and the car would start at or beyond the
    /// point where it is to end.
    DegenerateTrip,
}

/// The driving simulation of one map. It owns the queues, the arbiters and,
/// through them, every car; callers see copies only.
pub struct DrivingSimState {
    map: MapTopology,
    time: Time,
    lanes: Vec<Queue>,
    turns: Vec<Queue>,
    intersections: Vec<IntersectionController>,
    pending: Vec<Car>,
    finished: Vec<Car>,
}

fn copy_table(table: &Vec<(TurnID, TurnID)>) -> (copy: Vec<(TurnID, TurnID)>)
    ensures
        copy@ == table@,
{
    let mut copy: Vec<(TurnID, TurnID)> = Vec::new();
    let mut k: usize = 0;
    while k < table.len()
        invariant
            k <= table@.len(),
            copy@ == table@.subrange(0, k as int),
        decreases table@.len() - k,
    {
        copy.push(table[k]);
        assert(copy@ =~= table@.subrange(0, k + 1));
        k += 1;
    }
    assert(table@.subrange(0, table@.len() as int) =~= table@);
    copy
}

fn empty_queues(n: usize) -> (queues: Vec<Queue>)
    ensures
        queues@.len() == n,
        forall|j: int| 0 <= j < n ==> (#[trigger] queues@[j])@ == Seq::<Car>::empty(),
{
    let mut queues: Vec<Queue> = Vec::new();
    let mut k: usize = 0;
    while k < n
        invariant
            k <= n,
            queues@.len() == k,
            forall|j: int| 0 <= j < k ==> (#[trigger] queues@[j])@ == Seq::<Car>::empty(),
        decreases n - k,
    {
        queues.push(Queue::new());
        k += 1;
    }
    queues
}

fn idle_controllers(map: &MapTopology) -> (controllers: Vec<IntersectionController>)
    ensures
        controllers@.len() == map.intersections@.len(),
        forall|j: int|
            0 <= j < controllers@.len() ==> (#[trigger] controllers@[j]).wf() && controllers@[j]@ == (
            IntersectionView {
                conflicts: map.intersections@[j].conflicts@,
                active: Seq::<Movement>::empty(),
                waiting: Seq::<Request>::empty(),
            }),
{
    let mut controllers: Vec<IntersectionController> = Vec::new();
    let mut i: usize = 0;
    while i < map.intersections.len()
        invariant
            i <= map.intersections@.len(),
            controllers@.len() == i,
            forall|j: int|
                0 <= j < i ==> (#[trigger] controllers@[j]).wf() && controllers@[j]@ == (IntersectionView {
                    conflicts: map.intersections@[j].conflicts@,
                    active: Seq::<Movement>::empty(),
                    waiting: Seq::<Request>::empty(),
                }),
        decreases map.intersections@.len() - i,
    {
        let table = copy_table(&map.intersections[i].conflicts);
        controllers.push(IntersectionController::new(table));
        i += 1;
    }
    controllers
}

fn holds_id(queue: &Queue, id: CarID) -> (found: bool)
    ensures
        found == carries(queue@, id),
{
    let mut k: usize = 0;
    while k < queue.len()
        invariant
            k <= queue@.len(),
            forall|j: int| 0 <= j < k ==> (#[trigger] queue@[j]).vehicle.id != id,
        decreases queue@.len() - k,
    {
        if queue.get(k).vehicle.id == id {
            return true;
        }
        k += 1;
    }
    false
}

fn find_state(cars: &Vec<Car>, id: CarID) -> (found: Option<CarState>)
    ensures
        found == state_among(cars@, id, 0),
{
    let mut k: usize = 0;
    while k < cars.len()
        invariant
            k <= cars@.len(),
            state_among(cars@, id, k as int) == state_among(cars@, id, 0),
        decreases cars@.len() - k,
    {
        if cars[k].vehicle.id == id {
            return Some(cars[k].state);
        }
        k += 1;
    }
    None
}

fn find_state_in_queue(queue: &Queue, id: CarID) -> (found: Option<CarState>)
    ensures
        found == state_among(queue@, id, 0),
{
    let mut k: usize = 0;
    while k < queue.len()
        invariant
            k <= queue@.len(),
            state_among(queue@, id, k as int) == state_among(queue@, id, 0),
        decreases queue@.len() - k,
    {
        let car = queue.get(k);
        if car.vehicle.id == id {
            return Some(car.state);
        }
        k += 1;
    }
    None
}

fn find_state_in_queues(queues: &Vec<Queue>, id: CarID) -> (found: Option<CarState>)
    ensures
        found == state_in_queues(queue_views(queues@), id, 0),
{
    let mut k: usize = 0;
    while k < queues.len()
        invariant
            k <= queues@.len(),
            state_in_queues(queue_views(queues@), id, k as int) == state_in_queues(queue_views(queues@), id, 0),
        decreases queues@.len() - k,
    {
        let found = find_state_in_queue(&queues[k], id);
        if found.is_some() {
            return found;
        }
        k += 1;
    }
    None
}

fn snapshot_all(queues: &Vec<Queue>) -> (seen: Vec<DrawCarInput>)
    requires
        forall|k: int| 0 <= k < queues@.len() ==> (#[trigger] queues@[k]).wf(),
    ensures
        seen@ == all_snapshots(queue_views(queues@)),
{
    let mut seen: Vec<DrawCarInput> = Vec::new();
    let mut k: usize = 0;
    assert(queue_views(queues@).subrange(0, 0) =~= Seq::<Seq<Car>>::empty());
    while k < queues.len()
        invariant
            k <= queues@.len(),
            forall|j: int| 0 <= j < queues@.len() ==> (#[trigger] queues@[j]).wf(),
            seen@ == all_snapshots(queue_views(queues@).subrange(0, k as int)),
        decreases queues@.len() - k,
    {
        let mut more = queues[k].snapshot();
        seen.append(&mut more);
        proof {
            let views = queue_views(queues@);
            assert(views.subrange(0, k + 1).drop_last() =~= views.subrange(0, k as int));
            assert(views.subrange(0, k + 1).last() == queues@[k as int]@);
        }
        k += 1;
    }
    assert(queue_views(queues@).subrange(0, queues@.len() as int) =~= queue_views(queues@));
    seen
}

impl DrivingSimState {
    pub closed spec fn view(&self) -> SimView {
        SimView {
            map: self.map,
            time: self.time,
            lanes: queue_views(self.lanes@),
            turns: queue_views(self.turns@),
            intersections: controller_views(self.intersections@),
            pending: self.pending@,
            finished: self.finished@,
        }
    }

    /// The queues and arbiters are those of the map, every queue keeps its
    /// cars apart, and no arbiter has two conflicting turns in use.
    pub open spec fn wf(&self) -> bool {
        self@.wf()
    }

    /// An empty queue for every lane and turn of the map and an idle
    /// arbiter for every intersection. The map must be free of dangling
    /// references.
    pub fn new(map: MapTopology) -> (sim: DrivingSimState)
        requires
            map.wf(),
        ensures
            sim.wf(),
            sim@ == SimView::initial(map),
            sim@.population() == 0,
    {
        let lanes = empty_queues(map.lanes.len());
        let turns = empty_queues(map.turns.len());
        let intersections = idle_controllers(&map);
        let sim = DrivingSimState {
            map,
            time: 0,
            lanes,
            turns,
            intersections,
            pending: Vec::new(),
            finished: Vec::new(),
        };
        proof {
            let fresh = SimView::initial(map);
            assert(sim@.lanes =~= fresh.lanes);
            assert(sim@.turns =~= fresh.turns);
            assert(sim@.intersections =~= fresh.intersections);
            assert(sim@.pending =~= fresh.pending);
            assert(sim@.finished =~= fresh.finished);
            lemma_initial_is_sound(map);
        }
        sim
    }

    /// Clears the road: the simulation is again as it was before anything
    /// happened on its map.
    pub fn restart(&mut self)
        requires
            old(self).wf(),
        ensures
            final(self).wf(),
            final(self)@ == SimView::initial(old(self)@.map),
            final(self)@.population() == 0,
    {
        self.time = 0;
        self.lanes = empty_queues(self.map.lanes.len());
        self.turns = empty_queues(self.map.turns.len());
        self.intersections = idle_controllers(&self.map);
        self.pending = Vec::new();
        self.finished = Vec::new();
        proof {
            let fresh = SimView::initial(old(self)@.map);
            assert(self@.lanes =~= fresh.lanes);
            assert(self@.turns =~= fresh.turns);
            assert(self@.intersections =~= fresh.intersections);
            assert(self@.pending =~= fresh.pending);
            assert(self@.finished =~= fresh.finished);
            lemma_initial_is_sound(old(self)@.map);
        }
    }

    /// The instant up to which the simulation has run.
    pub fn time(&self) -> (now: Time)
        ensures
            now == self@.time,
    {
        self.time
    }

    /// How many cars wait to appear.
    pub fn num_pending(&self) -> (n: usize)
        ensures
            n == self@.pending.len(),
    {
        self.pending.len()
    }

    /// How many cars have ended their journey.
    pub fn num_finished(&self) -> (n: usize)
        ensures
            n == self@.finished.len(),
    {
        self.finished.len()
    }

    /// The map the simulation runs on.
    pub fn map(&self) -> (map: &MapTopology)
        ensures
            *map == self@.map,
    {
        &self.map
    }

    /// Takes a car in, to appear on the first lane of its route at
    /// `start_distance` once `spawn_time` has come, and to end its journey
    /// at `end_distance` on the last. A car that is not accepted changes
    /// nothing.
    pub fn spawn(
        &mut self,
        vehicle: Vehicle,
        route: Route,
        spawn_time: Time,
        start_distance: Distance,
        end_distance: Distance,
    ) -> (outcome: Result<(), SpawnError>)
        requires
            old(self).wf(),
        ensures
            final(self).wf(),
            outcome == old(self)@.spawn_outcome(vehicle, route, start_distance, end_distance),
            final(self)@ == old(self)@.spawned(vehicle, route, spawn_time, start_distance, end_distance),
            final(self)@.population() == old(self)@.population() + (if outcome.is_ok() {
                1int
            } else {
                0int
            }),
    {
        proof {
            lemma_spawned_is_sound(self@, vehicle, route, spawn_time, start_distance, end_distance);
        }
        if !self.map.check_route(&route.steps) {
            return Err(SpawnError::MalformedRoute);
        }
        if route.parking.is_some() && vehicle.vehicle_type != VehicleType::Car {
            return Err(SpawnError::CannotPark);
        }
        let steps = route.steps.len();
        assert(self.map.step_ok(route.steps@, 0));
        assert(self.map.step_ok(route.steps@, steps - 1));
        let first = match route.steps[0] {
            Traversable::Lane(l) => l.0,
            Traversable::Turn(_) => 0,
        };
        let last = match route.steps[steps - 1] {
            Traversable::Lane(l) => l.0,
            Traversable::Turn(_) => 0,
        };
        let first_length = self.map.lanes[first].length;
        if start_distance > first_length || vehicle.length > first_length - start_distance {
            return Err(SpawnError::StartOutOfBounds);
        }
        if end_distance > self.map.lanes[last].length {
            return Err(SpawnError::EndOutOfBounds);
        }
        if steps == 1 && start_distance >= end_distance {
            return Err(SpawnError::DegenerateTrip);
        }
        let car = Car::new(vehicle, route, spawn_time, start_distance, end_distance);
        self.pending.push(car);
        Ok(())
    }

    /// Calls back a car that was taken in and whose time to appear has not
    /// yet come. Tells whether there was such a car.
    pub fn withdraw(&mut self, id: CarID) -> (done: bool)
        requires
            old(self).wf(),
        ensures
            final(self).wf(),
            done == (old(self)@.withdrawable(id, 0) < old(self)@.pending.len()),
            final(self)@ == old(self)@.withdrawn(id),
            final(self)@.population() == old(self)@.population() - (if done {
                1int
            } else {
                0int
            }),
    {
        proof {
            lemma_withdrawn_is_sound(self@, id);
        }
        let mut at: usize = 0;
        let mut found = false;
        while at < self.pending.len() && !found
            invariant
                at <= self.pending@.len(),
                self@ == old(self)@,
                self@.withdrawable(id, at as int) == self@.withdrawable(id, 0),
                found ==> at < self.pending@.len() && self.pending@[at as int].vehicle.id == id
                    && self.pending@[at as int].spawn_time > self.time,
            decreases self.pending@.len() - at + (if found { 0int } else { 1int }),
        {
            if self.pending[at].vehicle.id == id && self.pending[at].spawn_time > self.time {
                found = true;
            } else {
                at += 1;
            }
        }
        if found {
            self.pending.remove(at);
        }
        found
    }

    /// Puts every car whose time has come on the lane it starts on, if the
    /// lane has room. The others go on waiting.
    fn activate(&mut self, now: Time)
        requires
            old(self).wf(),
        ensures
            final(self).wf(),
            final(self)@ == old(self)@.activate_from(0, now),
    {
        let ghost start = self@;
        let mut i: usize = 0;
        while i < self.pending.len()
            invariant
                self.wf(),
                i <= self.pending@.len(),
                self@.activate_from(i as int, now) == start.activate_from(0, now),
            decreases self.pending@.len() - i,
        {
            let ghost pre = self@;
            assert(pre.pending_ok(i as int));
            let car = &self.pending[i];
            assert(pre.map.step_ok(car.route.steps@, 0));
            let l = match car.current() {
                Traversable::Lane(l) => l.0,
                Traversable::Turn(_) => 0,
            };
            let at = car.dist;
            if car.spawn_time <= now && self.lanes[l].has_room(car.vehicle.length, at) {
                assert(pre.lane_ok(l as int));
                let car = self.pending.remove(i);
                self.lanes[l].insert(car, at);
                proof {
                    let goal = pre.appeared(i as int);
                    assert(self@.lanes =~= goal.lanes);
                    assert(self@.turns =~= goal.turns);
                    assert(self@.intersections =~= goal.intersections);
                    lemma_appeared_is_sound(pre, i as int, now);
                }
            } else {
                i += 1;
            }
        }
    }

    /// Drives the cars on every lane and turn for `elapsed`.
    fn move_cars(&mut self, elapsed: Duration)
        requires
            old(self).wf(),
        ensures
            final(self).wf(),
            final(self)@ == old(self)@.moved(elapsed),
    {
        let ghost start = self@;
        let mut l: usize = 0;
        while l < self.lanes.len()
            invariant
                start.wf(),
                l <= self.lanes@.len(),
                self@.map == start.map,
                self@.time == start.time,
                self@.turns == start.turns,
                self@.intersections == start.intersections,
                self@.pending == start.pending,
                self@.finished == start.finished,
                self@.lanes.len() == start.lanes.len(),
                forall|j: int| 0 <= j < l ==> #[trigger] self@.lanes[j] == start.moved(elapsed).lanes[j],
                forall|j: int| l <= j < self@.lanes.len() ==> #[trigger] self@.lanes[j] == start.lanes[j],
            decreases self.lanes@.len() - l,
        {
            let ghost pre = self@;
            assert(start.lane_ok(l as int));
            assert(pre.lanes[l as int] == start.lanes[l as int]);
            let length = self.map.lanes[l].length;
            let limit = self.map.lanes[l].speed_limit;
            self.lanes[l].advance_positions(elapsed, length, limit);
            proof {
                let view = self@;
                assert(view.turns =~= pre.turns);
                assert(view.intersections =~= pre.intersections);
                assert(view.lanes[l as int] == start.moved(elapsed).lanes[l as int]);
                assert forall|j: int| 0 <= j < view.lanes.len() && j != l implies #[trigger] view.lanes[j]
                    == pre.lanes[j] by {}
            }
            l += 1;
        }
        let ghost mid = self@;
        let mut t: usize = 0;
        while t < self.turns.len()
            invariant
                start.wf(),
                t <= self.turns@.len(),
                self@.map == start.map,
                self@.time == start.time,
                self@.lanes == mid.lanes,
                self@.intersections == start.intersections,
                self@.pending == start.pending,
                self@.finished == start.finished,
                self@.turns.len() == start.turns.len(),
                forall|j: int| 0 <= j < t ==> #[trigger] self@.turns[j] == start.moved(elapsed).turns[j],
                forall|j: int| t <= j < self@.turns.len() ==> #[trigger] self@.turns[j] == start.turns[j],
            decreases self.turns@.len() - t,
        {
            let ghost pre = self@;
            assert(start.turn_ok(t as int));
            assert(pre.turns[t as int] == start.turns[t as int]);
            let length = self.map.turns[t].length;
            let limit = self.map.turns[t].speed_limit;
            self.turns[t].advance_positions(elapsed, length, limit);
            proof {
                let view = self@;
                assert(view.lanes =~= pre.lanes);
                assert(view.intersections =~= pre.intersections);
                assert(view.turns[t as int] == start.moved(elapsed).turns[t as int]);
                assert forall|j: int| 0 <= j < view.turns.len() && j != t implies #[trigger] view.turns[j]
                    == pre.turns[j] by {}
            }
            t += 1;
        }
        proof {
            assert(self@.lanes =~= start.moved(elapsed).lanes);
            assert(self@.turns =~= start.moved(elapsed).turns);
            lemma_moved_is_sound(start, elapsed);
        }
    }

    /// Lets the front car of turn `t` go on to the lane beyond.
    fn leave_turn(&mut self, t: usize)
        requires
            old(self).wf(),
            t < old(self)@.turns.len(),
            old(self)@.can_leave_turn(t as int),
        ensures
            final(self).wf(),
            final(self)@ == old(self)@.left_turn(t as int),
    {
        let ghost pre = self@;
        assert(pre.turn_ok(t as int));
        assert(pre.map.turn_ok(t as int));
        let dst = self.map.turns[t].dst.0;
        let parent = self.map.turns[t].parent.0;
        let length = self.map.turns[t].length;
        assert(pre.lane_ok(dst as int));
        assert(pre.intersection_ok(parent as int));
        let popped = self.turns[t].pop_front_if_at_end(length);
        match popped {
            Some(car) => {
                let mut car = car;
                proof {
                    assert(car_on(pre.map, car, Traversable::Turn(TurnID(t))));
                    assert(on_road(car));
                    assert(pre.map.step_ok(car.route.steps@, car.route_idx as int));
                }
                let id = car.vehicle.id;
                car.step();
                self.lanes[dst].insert(car, 0);
                self.intersections[parent].release(TurnID(t), id);
                proof {
                    let goal = pre.left_turn(t as int);
                    assert(self@.lanes =~= goal.lanes);
                    assert(self@.turns =~= goal.turns);
                    assert(self@.intersections =~= goal.intersections);
                    lemma_left_turn_is_sound(pre, t as int);
                }
            },
            None => {},
        }
    }

    /// Lets the front car of every turn go on to the lane beyond, if it is
    /// at the turn's end and the lane has room.
    fn leave_turns(&mut self)
        requires
            old(self).wf(),
        ensures
            final(self).wf(),
            final(self)@ == old(self)@.leave_turns_from(0),
    {
        let ghost start = self@;
        let mut t: usize = 0;
        while t < self.turns.len()
            invariant
                self.wf(),
                t <= self.turns@.len(),
                self@.leave_turns_from(t as int) == start.leave_turns_from(0),
            decreases self.turns@.len() - t,
        {
            assert(self@.turn_ok(t as int));
            assert(self@.map.turn_ok(t as int));
            let dst = self.map.turns[t].dst.0;
            let length = self.map.turns[t].length;
            let ready = match self.turns[t].front() {
                Some(car) => car.at_end(length) && self.lanes[dst].has_room(car.vehicle.length, 0),
                None => false,
            };
            if ready {
                self.leave_turn(t);
            }
            t += 1;
        }
    }

    /// Marks the front car of every lane that has just got to the lane's
    /// end as waiting, and collects what those cars ask.
    fn note_arrivals(&mut self, now: Time) -> (found: Vec<Request>)
        requires
            old(self).wf(),
        ensures
            final(self).wf(),
            (final(self)@, found@) == old(self)@.arrivals_from(0, now, Seq::<Request>::empty()),
            requests_ok(final(self)@.map, found@),
    {
        let ghost start = self@;
        let mut found: Vec<Request> = Vec::new();
        let mut l: usize = 0;
        while l < self.lanes.len()
            invariant
                self.wf(),
                l <= self.lanes@.len(),
                requests_ok(self@.map, found@),
                self@.arrivals_from(l as int, now, found@) == start.arrivals_from(0, now, Seq::<Request>::empty()),
            decreases self.lanes@.len() - l,
        {
            let ghost pre = self@;
            let ghost had = found@;
            assert(pre.lane_ok(l as int));
            let length = self.map.lanes[l].length;
            let asked = match self.lanes[l].front() {
                Some(car) => {
                    assert(on_road(*car));
                    assert(car_on(pre.map, *car, Traversable::Lane(LaneID(l))));
                    if car.state == CarState::Queued && !car.is_last_step() && car.dist >= length {
                        assert(pre.map.step_ok(car.route.steps@, car.route_idx as int));
                        assert(pre.map.step_ok(car.route.steps@, car.route_idx + 1));
                        match car.next_step() {
                            Some(Traversable::Turn(t)) => Some(Request { turn: t, car: car.vehicle.id, time: now }),
                            _ => None,
                        }
                    } else {
                        None
                    }
                },
                None => None,
            };
            match asked {
                Some(r) => {
                    assert(pre.arrives(l as int));
                    assert(r == pre.request_at(l as int, now));
                    self.lanes[l].hold_front();
                    enqueue(&mut found, r);
                    proof {
                        let goal = pre.held(l as int);
                        assert(self@.lanes =~= goal.lanes);
                        assert(self@.turns =~= goal.turns);
                        assert(self@.intersections =~= goal.intersections);
                        lemma_held_is_sound(pre, l as int, now);
                        lemma_enqueued_requests_ok(pre.map, had, r);
                    }
                },
                None => {
                    assert(!pre.arrives(l as int));
                },
            }
            l += 1;
        }
        found
    }

    /// Puts the requests to the arbiters, in order.
    fn file_requests(&mut self, requests: &Vec<Request>)
        requires
            old(self).wf(),
            requests_ok(old(self)@.map, requests@),
        ensures
            final(self).wf(),
            final(self)@ == old(self)@.filed_from(requests@, 0),
    {
        let ghost start = self@;
        let mut k: usize = 0;
        while k < requests.len()
            invariant
                self.wf(),
                k <= requests@.len(),
                requests_ok(self@.map, requests@),
                self@.filed_from(requests@, k as int) == start.filed_from(requests@, 0),
            decreases requests@.len() - k,
        {
            let ghost pre = self@;
            let r = requests[k];
            assert(pre.map.turn_ok(r.turn.0 as int));
            let i = self.map.turns[r.turn.0].parent.0;
            assert(pre.intersection_ok(i as int));
            self.intersections[i].request(r.turn, r.car, r.time);
            proof {
                let goal = pre.filed(r);
                assert(self@.lanes =~= goal.lanes);
                assert(self@.turns =~= goal.turns);
                assert(self@.intersections =~= goal.intersections);
                lemma_request_filed_is_sound(pre, r);
            }
            k += 1;
        }
    }

    /// Lets the front car of lane `l` go on to turn `t`, its next.
    fn enter_turn(&mut self, l: usize, t: usize)
        requires
            old(self).wf(),
            l < old(self)@.lanes.len(),
            old(self)@.can_enter_turn(l as int),
            t == next_turn(old(self)@.lanes[l as int][0]).0,
            t < old(self)@.turns.len(),
        ensures
            final(self).wf(),
            final(self)@ == old(self)@.entered_turn(l as int),
    {
        let ghost pre = self@;
        assert(pre.lane_ok(l as int));
        assert(pre.turn_ok(t as int));
        let length = self.map.lanes[l].length;
        let popped = self.lanes[l].pop_front_if_at_end(length);
        match popped {
            Some(car) => {
                let mut car = car;
                proof {
                    assert(car_on(pre.map, car, Traversable::Lane(LaneID(l))));
                    assert(on_road(car));
                    assert(pre.map.step_ok(car.route.steps@, car.route_idx as int));
                    assert(pre.map.step_ok(car.route.steps@, car.route_idx + 1));
                }
                car.step();
                self.turns[t].insert(car, 0);
                proof {
                    let goal = pre.entered_turn(l as int);
                    assert(self@.lanes =~= goal.lanes);
                    assert(self@.turns =~= goal.turns);
                    assert(self@.intersections =~= goal.intersections);
                    lemma_entered_turn_is_sound(pre, l as int);
                }
            },
            None => {},
        }
    }

    /// Lets the front car of every lane go on to its turn, if the turn has
    /// been granted, has room and holds no car of the same identity.
    fn enter_turns(&mut self)
        requires
            old(self).wf(),
        ensures
            final(self).wf(),
            final(self)@ == old(self)@.enter_turns_from(0),
    {
        let ghost start = self@;
        let mut l: usize = 0;
        while l < self.lanes.len()
            invariant
                self.wf(),
                l <= self.lanes@.len(),
                self@.enter_turns_from(l as int) == start.enter_turns_from(0),
            decreases self.lanes@.len() - l,
        {
            let ghost pre = self@;
            assert(pre.lane_ok(l as int));
            let length = self.map.lanes[l].length;
            let ready = match self.lanes[l].front() {
                Some(car) => {
                    assert(on_road(*car));
                    assert(car_on(pre.map, *car, Traversable::Lane(LaneID(l))));
                    if car.state == CarState::WaitingAtIntersection && car.at_end(length) {
                        assert(pre.map.step_ok(car.route.steps@, car.route_idx as int));
                        assert(pre.map.step_ok(car.route.steps@, car.route_idx + 1));
                        match car.next_step() {
                            Some(Traversable::Turn(t)) => {
                                assert(pre.map.turn_ok(t.0 as int));
                                let i = self.map.turns[t.0].parent.0;
                                if self.intersections[i].is_active(t, car.vehicle.id) && self.turns[t.0].has_room(
                                    car.vehicle.length,
                                    0,
                                ) && !holds_id(&self.turns[t.0], car.vehicle.id) {
                                    Some(t.0)
                                } else {
                                    None
                                }
                            },
                            _ => None,
                        }
                    } else {
                        None
                    }
                },
                None => None,
            };
            match ready {
                Some(t) => {
                    assert(pre.can_enter_turn(l as int));
                    self.enter_turn(l, t);
                },
                None => {
                    assert(!pre.can_enter_turn(l as int));
                },
            }
            l += 1;
        }
    }

    /// Ends the journey of every car whose route is used up.
    fn retire(&mut self)
        requires
            old(self).wf(),
        ensures
            final(self).wf(),
            final(self)@ == old(self)@.retire_from(0),
    {
        let ghost start = self@;
        let mut l: usize = 0;
        while l < self.lanes.len()
            invariant
                self.wf(),
                l <= self.lanes@.len(),
                self@.retire_from(l as int) == start.retire_from(0),
            decreases self.lanes@.len() - l,
        {
            let ghost pre = self@;
            assert(pre.lane_ok(l as int));
            let mut gone = self.lanes[l].retire_finished();
            self.finished.append(&mut gone);
            proof {
                let goal = pre.retired_on(l as int);
                assert(self@.lanes =~= goal.lanes);
                assert(self@.turns =~= goal.turns);
                assert(self@.intersections =~= goal.intersections);
                lemma_retired_on_is_sound(pre, l as int);
            }
            l += 1;
        }
    }

    /// Brings the simulation up to `now`. A call with an instant that is not
    /// later than the one the simulation has run up to changes nothing.
    pub fn advance(&mut self, now: Time)
        requires
            old(self).wf(),
        ensures
            final(self).wf(),
            final(self)@ == old(self)@.advance(now),
            now <= old(self)@.time ==> final(self)@ == old(self)@,
            final(self)@.time >= now,
            final(self)@.population() == old(self)@.population(),
    {
        proof {
            lemma_advance_keeps_sound(self@, now);
        }
        if now <= self.time {
            return ;
        }
        let elapsed = now - self.time;
        self.activate(now);
        self.move_cars(elapsed);
        self.leave_turns();
        let requests = self.note_arrivals(now);
        self.file_requests(&requests);
        self.enter_turns();
        self.retire();
        self.time = now;
    }

    /// A copy of what a caller may see of the cars on a segment, front
    /// first, at the instant the simulation has run up to.
    pub fn cars_on(&self, on: Traversable) -> (seen: Vec<DrawCarInput>)
        requires
            self.wf(),
        ensures
            seen@ == self@.cars_on(on),
    {
        match on {
            Traversable::Lane(l) => {
                if l.0 < self.lanes.len() {
                    assert(self@.lane_ok(l.0 as int));
                    self.lanes[l.0].snapshot()
                } else {
                    let none: Vec<DrawCarInput> = Vec::new();
                    assert(none@ =~= snapshots(Seq::<Car>::empty()));
                    none
                }
            },
            Traversable::Turn(t) => {
                if t.0 < self.turns.len() {
                    assert(self@.turn_ok(t.0 as int));
                    self.turns[t.0].snapshot()
                } else {
                    let none: Vec<DrawCarInput> = Vec::new();
                    assert(none@ =~= snapshots(Seq::<Car>::empty()));
                    none
                }
            },
        }
    }

    /// A copy of what a caller may see of every car on the road, at the
    /// instant the simulation has run up to.
    pub fn all_cars(&self) -> (seen: Vec<DrawCarInput>)
        requires
            self.wf(),
        ensures
            seen@ == self@.all_cars(),
    {
        proof {
            assert forall|k: int| 0 <= k < self.lanes@.len() implies (#[trigger] self.lanes@[k]).wf() by {
                assert(self@.lane_ok(k));
            }
            assert forall|k: int| 0 <= k < self.turns@.len() implies (#[trigger] self.turns@[k]).wf() by {
                assert(self@.turn_ok(k));
            }
        }
        let mut seen = snapshot_all(&self.lanes);
        let mut on_turns = snapshot_all(&self.turns);
        seen.append(&mut on_turns);
        seen
    }

    /// The record of each car whose journey ended in a parking spot, for
    /// whoever keeps the spots.
    pub fn parked_cars(&self) -> (records: Vec<ParkedCar>)
        requires
            self.wf(),
        ensures
            records@ == self@.parked_cars(),
    {
        let mut records: Vec<ParkedCar> = Vec::new();
        let mut k: usize = 0;
        proof {
            reveal(Seq::filter);
            assert(self.finished@.subrange(0, 0) =~= Seq::<Car>::empty());
            assert(records@ =~= self.finished@.subrange(0, 0).filter(parked()).map_values(parked_record()));
        }
        while k < self.finished.len()
            invariant
                k <= self.finished@.len(),
                self.wf(),
                records@ == self.finished@.subrange(0, k as int).filter(parked()).map_values(parked_record()),
            decreases self.finished@.len() - k,
        {
            let car = &self.finished[k];
            proof {
                assert(self@.finished_ok(k as int));
                let done = self.finished@.subrange(0, k as int);
                assert(self.finished@.subrange(0, k + 1) =~= done.push(*car));
                done.lemma_filter_push(*car, parked());
                assert(done.filter(parked()).push(*car).map_values(parked_record()) =~= done.filter(
                    parked(),
                ).map_values(parked_record()).push(parked_record()(*car)));
            }
            if car.state == CarState::Parked {
                match car.route.parking {
                    Some(goal) => {
                        records.push(ParkedCar::new(car.vehicle.id, goal.spot, car.vehicle, goal.owner));
                    },
                    None => {},
                }
            }
            k += 1;
        }
        assert(self.finished@.subrange(0, self.finished@.len() as int) =~= self.finished@);
        records
    }

    /// The stage of the journey of the car with the given identity, if the
    /// simulation has a car of that identity.
    pub fn car_state(&self, id: CarID) -> (state: Option<CarState>)
        ensures
            state == self@.car_state(id),
    {
        let waiting = find_state(&self.pending, id);
        if waiting.is_some() {
            return waiting;
        }
        let on_lane = find_state_in_queues(&self.lanes, id);
        if on_lane.is_some() {
            return on_lane;
        }
        let on_turn = find_state_in_queues(&self.turns, id);
        if on_turn.is_some() {
            return on_turn;
        }
        find_state(&self.finished, id)
    }
}

} // verus!
