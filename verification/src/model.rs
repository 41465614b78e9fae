//! What a simulation holds, as plain mathematics, and what each step of
//! bringing it up to date does to it.

use vstd::prelude::*;
use crate::car::{Car, CarState, DrawCarInput, Route};
use crate::driving::SpawnError;
use crate::intersection::{enqueued, IntersectionController, IntersectionView, Movement, Request};
use crate::queue::{
    advanced, all_snapshots, finished_cars, has_room_spec, retire_car, roadworthy, snapshots, spaced,
    unfinished_cars, Queue,
};
use crate::topology::{LaneID, MapTopology, Traversable, TurnID};
use crate::units::{Distance, Duration, Time};
use crate::vehicle::{CarID, ParkedCar, Vehicle, VehicleType};

verus! {

/// What each queue of a list holds.
pub open spec fn queue_views(queues: Seq<Queue>) -> Seq<Seq<Car>> {
    Seq::new(queues.len(), |i: int| queues[i]@)
}

/// What each arbiter of a list holds.
pub open spec fn controller_views(controllers: Seq<IntersectionController>) -> Seq<IntersectionView> {
    Seq::new(controllers.len(), |i: int| controllers[i]@)
}

/// The car's journey ends on the last lane of its route.
pub open spec fn ends_on_route(map: MapTopology, c: Car) -> bool {
    c.end_dist <= map.length_of(c.route.steps@.last())
}

/// The car's route is a route over the map, and the car is on the segment
/// `on`: not beyond its end, and on the last lane of its route not beyond
/// where its journey ends.
pub open spec fn car_on(map: MapTopology, c: Car, on: Traversable) -> bool {
    &&& map.valid_route(c.route.steps@)
    &&& c.current_spec() == on
    &&& ends_on_route(map, c)
    &&& c.dist <= map.length_of(on)
    &&& c.is_last_step_spec() ==> c.dist <= c.end_dist
}

/// Picks the cars at rest in a parking spot.
pub open spec fn parked() -> spec_fn(Car) -> bool {
    |c: Car| c.state == CarState::Parked && c.route.parking.is_some()
}

/// What the keeper of the parking spots is told of a parked car.
pub open spec fn parked_record() -> spec_fn(Car) -> ParkedCar {
    |c: Car|
        ParkedCar {
            car: c.vehicle.id,
            spot: c.route.parking.unwrap().spot,
            vehicle: c.vehicle,
            owner: c.route.parking.unwrap().owner,
        }
}

/// One of the cars has the given identity.
pub open spec fn carries(cars: Seq<Car>, id: CarID) -> bool {
    exists|k: int| 0 <= k < cars.len() && (#[trigger] cars[k]).vehicle.id == id
}

/// The turn that follows the step the car is on.
pub open spec fn next_turn(c: Car) -> TurnID {
    TurnID(c.route.steps@[c.route_idx + 1].turn_index() as usize)
}

/// Every request names a turn of the map.
pub open spec fn requests_ok(map: MapTopology, requests: Seq<Request>) -> bool {
    forall|k: int| 0 <= k < requests.len() ==> (#[trigger] requests[k]).turn.0 < map.turns@.len()
}

/// How many cars the queues hold together.
pub open spec fn cars_in(queues: Seq<Seq<Car>>) -> nat
    decreases queues.len(),
{
    if queues.len() == 0 {
        0
    } else {
        cars_in(queues.drop_last()) + queues.last().len()
    }
}

/// The first car of `cars` at or after place `from` with the given
/// identity, as the stage of its journey.
pub open spec fn state_among(cars: Seq<Car>, id: CarID, from: int) -> Option<CarState>
    decreases cars.len() - from,
{
    if from < 0 || from >= cars.len() {
        None
    } else if cars[from].vehicle.id == id {
        Some(cars[from].state)
    } else {
        state_among(cars, id, from + 1)
    }
}

/// The first car with the given identity in the queues at or after place
/// `from`, as the stage of its journey.
pub open spec fn state_in_queues(queues: Seq<Seq<Car>>, id: CarID, from: int) -> Option<CarState>
    decreases queues.len() - from,
{
    if from < 0 || from >= queues.len() {
        None
    } else if state_among(queues[from], id, 0).is_some() {
        state_among(queues[from], id, 0)
    } else {
        state_in_queues(queues, id, from + 1)
    }
}

/// What the simulation holds.
pub struct SimView {
    pub map: MapTopology,
    /// The instant up to which the simulation has run.
    pub time: Time,
    /// For each lane of the map, the cars on it, front first.
    pub lanes: Seq<Seq<Car>>,
    /// For each turn of the map, the cars on it, front first.
    pub turns: Seq<Seq<Car>>,
    /// For each intersection of the map, what its arbiter holds.
    pub intersections: Seq<IntersectionView>,
    /// The cars that wait to appear, in the order in which they were
    /// accepted.
    pub pending: Seq<Car>,
    /// The cars whose journey is over, in the order in which they ended.
    pub finished: Seq<Car>,
}

impl SimView {
    /// The cars on lane `l` keep their gaps, and each is on that lane by a
    /// route over the map.
    pub open spec fn lane_ok(self, l: int) -> bool {
        &&& spaced(self.lanes[l])
        &&& roadworthy(self.lanes[l])
        &&& forall|k: int|
            0 <= k < self.lanes[l].len() ==> car_on(
                self.map,
                #[trigger] self.lanes[l][k],
                Traversable::Lane(LaneID(l as usize)),
            )
    }

    /// The cars on turn `t` keep their gaps, and each is on that turn by a
    /// route over the map.
    pub open spec fn turn_ok(self, t: int) -> bool {
        &&& spaced(self.turns[t])
        &&& roadworthy(self.turns[t])
        &&& forall|k: int|
            0 <= k < self.turns[t].len() ==> car_on(
                self.map,
                #[trigger] self.turns[t][k],
                Traversable::Turn(TurnID(t as usize)),
            )
    }

    /// Each car on turn `t` has the arbiter's leave to be there, and no two
    /// of them have the same identity.
    pub open spec fn crossing_ok(self, t: int) -> bool {
        let i = self.map.turns@[t].parent.0 as int;
        &&& forall|k: int|
            0 <= k < self.turns[t].len() ==> self.intersections[i].active.contains(
                Movement { turn: TurnID(t as usize), car: (#[trigger] self.turns[t][k]).vehicle.id },
            )
        &&& forall|j: int, k: int|
            0 <= j < k < self.turns[t].len() ==> (#[trigger] self.turns[t][j]).vehicle.id != (
            #[trigger] self.turns[t][k]).vehicle.id
    }

    /// The arbiter of intersection `i` is sound and goes by the map's
    /// conflict table.
    pub open spec fn intersection_ok(self, i: int) -> bool {
        &&& self.intersections[i].wf()
        &&& self.intersections[i].conflicts == self.map.intersections@[i].conflicts@
    }

    /// The car at place `i` among those that wait to appear is at the start
    /// of a route over the map.
    pub open spec fn pending_ok(self, i: int) -> bool {
        let c = self.pending[i];
        &&& c.wf()
        &&& self.map.valid_route(c.route.steps@)
        &&& c.route_idx == 0
        &&& c.state == CarState::Spawning
        &&& ends_on_route(self.map, c)
        &&& c.dist + c.vehicle.length <= self.map.length_of(c.route.steps@[0])
        &&& c.route.steps@.len() == 1 ==> c.dist < c.end_dist
    }

    /// The car at place `i` among those whose journey is over stands where
    /// its journey was to end, in the stage in which it was to end.
    pub open spec fn finished_ok(self, i: int) -> bool {
        let c = self.finished[i];
        &&& c.wf()
        &&& c.state == c.final_state()
        &&& c.is_last_step_spec()
        &&& c.dist == c.end_dist
    }

    pub open spec fn wf(self) -> bool {
        &&& self.map.wf()
        &&& self.lanes.len() == self.map.lanes@.len()
        &&& self.turns.len() == self.map.turns@.len()
        &&& self.intersections.len() == self.map.intersections@.len()
        &&& forall|l: int| 0 <= l < self.lanes.len() ==> #[trigger] self.lane_ok(l)
        &&& forall|t: int| 0 <= t < self.turns.len() ==> #[trigger] self.turn_ok(t)
        &&& forall|t: int| 0 <= t < self.turns.len() ==> #[trigger] self.crossing_ok(t)
        &&& forall|i: int| 0 <= i < self.intersections.len() ==> #[trigger] self.intersection_ok(i)
        &&& forall|i: int| 0 <= i < self.pending.len() ==> #[trigger] self.pending_ok(i)
        &&& forall|i: int| 0 <= i < self.finished.len() ==> #[trigger] self.finished_ok(i)
    }

    /// How many cars the simulation holds: those that wait to appear, those
    /// on the road and those whose journey is over.
    pub open spec fn population(self) -> nat {
        self.pending.len() + cars_in(self.lanes) + cars_in(self.turns) + self.finished.len()
    }

    /// The simulation before anything has happened on the map.
    pub open spec fn initial(map: MapTopology) -> SimView {
        SimView {
            map,
            time: 0,
            lanes: Seq::new(map.lanes@.len(), |l: int| Seq::<Car>::empty()),
            turns: Seq::new(map.turns@.len(), |t: int| Seq::<Car>::empty()),
            intersections: Seq::new(
                map.intersections@.len(),
                |i: int|
                    IntersectionView {
                        conflicts: map.intersections@[i].conflicts@,
                        active: Seq::<Movement>::empty(),
                        waiting: Seq::<Request>::empty(),
                    },
            ),
            pending: Seq::<Car>::empty(),
            finished: Seq::<Car>::empty(),
        }
    }

    /// Why a car is not accepted, or nothing if it is.
    pub open spec fn spawn_error(
        self,
        vehicle: Vehicle,
        route: Route,
        start_distance: Distance,
        end_distance: Distance,
    ) -> Option<SpawnError> {
        let steps = route.steps@;
        if !self.map.valid_route(steps) {
            Some(SpawnError::MalformedRoute)
        } else if route.parking.is_some() && vehicle.vehicle_type != VehicleType::Car {
            Some(SpawnError::CannotPark)
        } else if start_distance + vehicle.length > self.map.lanes@[steps[0].lane_index()].length {
            Some(SpawnError::StartOutOfBounds)
        } else if end_distance > self.map.lanes@[steps.last().lane_index()].length {
            Some(SpawnError::EndOutOfBounds)
        } else if steps.len() == 1 && start_distance >= end_distance {
            Some(SpawnError::DegenerateTrip)
        } else {
            None
        }
    }

    /// What the caller of `spawn` is told.
    pub open spec fn spawn_outcome(
        self,
        vehicle: Vehicle,
        route: Route,
        start_distance: Distance,
        end_distance: Distance,
    ) -> Result<(), SpawnError> {
        match self.spawn_error(vehicle, route, start_distance, end_distance) {
            Some(e) => Err(e),
            None => Ok(()),
        }
    }

    /// The simulation after a car was offered to it: with the car among
    /// those that wait to appear if it was accepted, and as it was if not.
    pub open spec fn spawned(
        self,
        vehicle: Vehicle,
        route: Route,
        spawn_time: Time,
        start_distance: Distance,
        end_distance: Distance,
    ) -> SimView {
        if self.spawn_error(vehicle, route, start_distance, end_distance).is_some() {
            self
        } else {
            self.with_pending(
                Car {
                    vehicle,
                    route,
                    route_idx: 0,
                    dist: start_distance,
                    speed: 0,
                    state: CarState::Spawning,
                    spawn_time,
                    end_dist: end_distance,
                },
            )
        }
    }

    /// The simulation with one more car waiting to appear.
    pub open spec fn with_pending(self, car: Car) -> SimView {
        SimView { pending: self.pending.push(car), ..self }
    }

    /// The place at or after `from` of the first car that waits to appear,
    /// has the given identity and whose time to appear has not yet come; the
    /// number of waiting cars if there is none.
    pub open spec fn withdrawable(self, id: CarID, from: int) -> int
        decreases self.pending.len() - from,
    {
        if from < 0 || from >= self.pending.len() {
            self.pending.len() as int
        } else if self.pending[from].vehicle.id == id && self.pending[from].spawn_time > self.time {
            from
        } else {
            self.withdrawable(id, from + 1)
        }
    }

    /// The simulation after a car was called back before it appeared.
    pub open spec fn withdrawn(self, id: CarID) -> SimView {
        let at = self.withdrawable(id, 0);
        if at < self.pending.len() {
            SimView { pending: self.pending.remove(at), ..self }
        } else {
            self
        }
    }

    /// The time has come for the car at place `i` among those that wait to
    /// appear, and the lane it starts on has room for it.
    pub open spec fn can_appear(self, i: int, now: Time) -> bool {
        let car = self.pending[i];
        car.spawn_time <= now && has_room_spec(
            self.lanes[car.current_spec().lane_index()],
            car.vehicle.length,
            car.dist,
        )
    }

    /// The simulation with the car at place `i` among those that wait to
    /// appear put on the lane it starts on.
    pub open spec fn appeared(self, i: int) -> SimView {
        let car = self.pending[i];
        let l = car.current_spec().lane_index();
        SimView {
            lanes: self.lanes.update(l, self.lanes[l].push(car.entered(car.dist))),
            pending: self.pending.remove(i),
            ..self
        }
    }

    /// The simulation after each car that waits to appear, from place `i`
    /// on and in order, was put on the road if it can appear at `now`. A
    /// car that cannot goes on waiting.
    pub open spec fn activate_from(self, i: int, now: Time) -> SimView
        decreases self.pending.len() - i,
    {
        if i < 0 || i >= self.pending.len() {
            self
        } else if self.can_appear(i, now) {
            self.appeared(i).activate_from(i, now)
        } else {
            self.activate_from(i + 1, now)
        }
    }

    /// The simulation after the cars on every lane and turn have driven
    /// for `elapsed`.
    pub open spec fn moved(self, elapsed: Duration) -> SimView {
        SimView {
            lanes: Seq::new(
                self.lanes.len(),
                |l: int|
                    advanced(self.lanes[l], elapsed, self.map.lanes@[l].length, self.map.lanes@[l].speed_limit),
            ),
            turns: Seq::new(
                self.turns.len(),
                |t: int|
                    advanced(self.turns[t], elapsed, self.map.turns@[t].length, self.map.turns@[t].speed_limit),
            ),
            ..self
        }
    }

    /// The front car of turn `t` is at the turn's end, and the lane beyond
    /// has room for it.
    pub open spec fn can_leave_turn(self, t: int) -> bool {
        let turn = self.map.turns@[t];
        &&& self.turns[t].len() > 0
        &&& self.turns[t][0].at_end_spec(turn.length)
        &&& has_room_spec(self.lanes[turn.dst.0 as int], self.turns[t][0].vehicle.length, 0)
    }

    /// The simulation after the front car of turn `t` went on to the start
    /// of the lane beyond, and the arbiter was told that the turn is free.
    pub open spec fn left_turn(self, t: int) -> SimView {
        let turn = self.map.turns@[t];
        let car = self.turns[t][0];
        let dst = turn.dst.0 as int;
        let i = turn.parent.0 as int;
        SimView {
            turns: self.turns.update(t, self.turns[t].drop_first()),
            lanes: self.lanes.update(dst, self.lanes[dst].push(car.stepped().entered(0))),
            intersections: self.intersections.update(
                i,
                self.intersections[i].released(TurnID(t as usize), car.vehicle.id),
            ),
            ..self
        }
    }

    /// The simulation after every turn from `t` on, in order, let its front
    /// car go if it can leave.
    pub open spec fn leave_turns_from(self, t: int) -> SimView
        decreases self.turns.len() - t,
    {
        if t < 0 || t >= self.turns.len() {
            self
        } else if self.can_leave_turn(t) {
            self.left_turn(t).leave_turns_from(t + 1)
        } else {
            self.leave_turns_from(t + 1)
        }
    }

    /// The front car of lane `l` has just got to the lane's end and has a
    /// turn to take.
    pub open spec fn arrives(self, l: int) -> bool {
        &&& self.lanes[l].len() > 0
        &&& self.lanes[l][0].state == CarState::Queued
        &&& !self.lanes[l][0].is_last_step_spec()
        &&& self.lanes[l][0].dist >= self.map.lanes@[l].length
    }

    /// What the front car of lane `l` asks of the intersection at `now`.
    pub open spec fn request_at(self, l: int, now: Time) -> Request {
        let car = self.lanes[l][0];
        Request { turn: next_turn(car), car: car.vehicle.id, time: now }
    }

    /// The simulation with the front car of lane `l` marked as waiting for
    /// its turn.
    pub open spec fn held(self, l: int) -> SimView {
        SimView { lanes: self.lanes.update(l, self.lanes[l].update(0, self.lanes[l][0].waiting())), ..self }
    }

    /// The simulation after the front car of every lane from `l` on that
    /// has just got to the lane's end was marked as waiting, together with
    /// what those cars ask, added to `found` in the order in which requests
    /// are served.
    pub open spec fn arrivals_from(self, l: int, now: Time, found: Seq<Request>) -> (SimView, Seq<Request>)
        decreases self.lanes.len() - l,
    {
        if l < 0 || l >= self.lanes.len() {
            (self, found)
        } else if self.arrives(l) {
            self.held(l).arrivals_from(l + 1, now, enqueued(found, self.request_at(l, now)))
        } else {
            self.arrivals_from(l + 1, now, found)
        }
    }

    /// The simulation after a request was put to the arbiter of the
    /// intersection that its turn crosses.
    pub open spec fn filed(self, r: Request) -> SimView {
        let i = self.map.turns@[r.turn.0 as int].parent.0 as int;
        SimView {
            intersections: self.intersections.update(i, self.intersections[i].requested(r.turn, r.car, r.time)),
            ..self
        }
    }

    /// The simulation after the requests from place `k` on were put, in
    /// order, to the arbiters of the intersections that their turns cross.
    pub open spec fn filed_from(self, requests: Seq<Request>, k: int) -> SimView
        decreases requests.len() - k,
    {
        if k < 0 || k >= requests.len() {
            self
        } else {
            self.filed(requests[k]).filed_from(requests, k + 1)
        }
    }

    /// The simulation after every car that has just got to the end of its
    /// lane asked for its turn: the requests of one instant are served by
    /// the cars' identities, the lower first.
    pub open spec fn requests_filed(self, now: Time) -> SimView {
        let (held, requests) = self.arrivals_from(0, now, Seq::<Request>::empty());
        held.filed_from(requests, 0)
    }

    /// The front car of lane `l` waits at the lane's end, its turn has been
    /// granted, and the turn has room for it and holds no car of the same
    /// identity.
    pub open spec fn can_enter_turn(self, l: int) -> bool {
        let car = self.lanes[l][0];
        let t = next_turn(car);
        let i = self.map.turns@[t.0 as int].parent.0 as int;
        &&& self.lanes[l].len() > 0
        &&& car.state == CarState::WaitingAtIntersection
        &&& car.at_end_spec(self.map.lanes@[l].length)
        &&& self.intersections[i].active.contains(Movement { turn: t, car: car.vehicle.id })
        &&& has_room_spec(self.turns[t.0 as int], car.vehicle.length, 0)
        &&& !carries(self.turns[t.0 as int], car.vehicle.id)
    }

    /// The simulation after the front car of lane `l` went on to the start
    /// of its turn.
    pub open spec fn entered_turn(self, l: int) -> SimView {
        let car = self.lanes[l][0];
        let t = next_turn(car).0 as int;
        SimView {
            lanes: self.lanes.update(l, self.lanes[l].drop_first()),
            turns: self.turns.update(t, self.turns[t].push(car.stepped().entered(0))),
            ..self
        }
    }

    /// The simulation after every lane from `l` on, in order, let its front
    /// car go if it can enter its turn.
    pub open spec fn enter_turns_from(self, l: int) -> SimView
        decreases self.lanes.len() - l,
    {
        if l < 0 || l >= self.lanes.len() {
            self
        } else if self.can_enter_turn(l) {
            self.entered_turn(l).enter_turns_from(l + 1)
        } else {
            self.enter_turns_from(l + 1)
        }
    }

    /// The simulation after the cars of lane `l` whose route is used up
    /// ended their journey.
    pub open spec fn retired_on(self, l: int) -> SimView {
        SimView {
            lanes: self.lanes.update(l, self.lanes[l].filter(unfinished_cars())),
            finished: self.finished + self.lanes[l].filter(finished_cars()).map_values(retire_car()),
            ..self
        }
    }

    /// The simulation after the cars of every lane from `l` on whose route
    /// is used up ended their journey.
    pub open spec fn retire_from(self, l: int) -> SimView
        decreases self.lanes.len() - l,
    {
        if l < 0 || l >= self.lanes.len() {
            self
        } else {
            self.retired_on(l).retire_from(l + 1)
        }
    }

    /// The simulation brought up to `now`. Nothing happens unless `now` is
    /// later than the instant the simulation has run up to. Otherwise, in
    /// this order: the cars whose time has come appear; every car drives
    /// for the time that has passed; cars at the end of a turn go on to the
    /// next lane; cars that got to the end of a lane ask for their turn;
    /// cars whose turn is granted go on to it; cars whose route is used up
    /// end their journey.
    pub open spec fn advance(self, now: Time) -> SimView {
        if now <= self.time {
            self
        } else {
            let after = self.activate_from(0, now).moved(
                (now - self.time) as Duration,
            ).leave_turns_from(0).requests_filed(now).enter_turns_from(0).retire_from(0);
            SimView { time: now, ..after }
        }
    }

    /// The cars on a segment, front first. A segment that the map does not
    /// have holds none.
    pub open spec fn queue(self, on: Traversable) -> Seq<Car> {
        match on {
            Traversable::Lane(l) => if l.0 < self.lanes.len() {
                self.lanes[l.0 as int]
            } else {
                Seq::<Car>::empty()
            },
            Traversable::Turn(t) => if t.0 < self.turns.len() {
                self.turns[t.0 as int]
            } else {
                Seq::<Car>::empty()
            },
        }
    }

    /// What a caller may see of the cars on a segment, front first.
    pub open spec fn cars_on(self, on: Traversable) -> Seq<DrawCarInput> {
        snapshots(self.queue(on))
    }

    /// What a caller may see of every car on the road: lane after lane,
    /// then turn after turn.
    pub open spec fn all_cars(self) -> Seq<DrawCarInput> {
        all_snapshots(self.lanes) + all_snapshots(self.turns)
    }

    /// The record of each car whose journey ended in a parking spot, in
    /// the order in which they ended.
    pub open spec fn parked_cars(self) -> Seq<ParkedCar> {
        self.finished.filter(parked()).map_values(parked_record())
    }

    /// The stage of the journey of the car with the given identity: looked
    /// for among the cars that wait to appear, then on the lanes, then on
    /// the turns, then among the cars whose journey is over.
    pub open spec fn car_state(self, id: CarID) -> Option<CarState> {
        if state_among(self.pending, id, 0).is_some() {
            state_among(self.pending, id, 0)
        } else if state_in_queues(self.lanes, id, 0).is_some() {
            state_in_queues(self.lanes, id, 0)
        } else if state_in_queues(self.turns, id, 0).is_some() {
            state_in_queues(self.turns, id, 0)
        } else {
            state_among(self.finished, id, 0)
        }
    }
}

/// One call made on a simulation.
pub enum Call {
    /// A car is offered.
    Spawn { vehicle: Vehicle, route: Route, spawn_time: Time, start_distance: Distance, end_distance: Distance },
    /// A car is called back.
    Withdraw { id: CarID },
    /// The simulation is brought up to an instant.
    Advance { now: Time },
}

impl SimView {
    /// The simulation after one call.
    pub open spec fn after_call(self, call: Call) -> SimView {
        match call {
            Call::Spawn { vehicle, route, spawn_time, start_distance, end_distance } => self.spawned(
                vehicle,
                route,
                spawn_time,
                start_distance,
                end_distance,
            ),
            Call::Withdraw { id } => self.withdrawn(id),
            Call::Advance { now } => self.advance(now),
        }
    }

    /// The simulation after a history of calls, the earliest first.
    pub open spec fn after(self, calls: Seq<Call>) -> SimView
        decreases calls.len(),
    {
        if calls.len() == 0 {
            self
        } else {
            self.after(calls.drop_last()).after_call(calls.last())
        }
    }

    /// What may be seen of every car on the road after each call of a
    /// history.
    pub open spec fn trajectory(self, calls: Seq<Call>) -> Seq<Seq<DrawCarInput>> {
        Seq::new(calls.len(), |k: int| self.after(calls.subrange(0, k + 1)).all_cars())
    }
}

} // verus!
