//! One car: its vehicle, its route, where it is on its current segment, and
//! the stage of its journey.
//!
//! A car's distance along a segment is measured at its rear bumper, so a car
//! of length `n` at distance `d` covers the segment from `d` to `d + n`.

use vstd::prelude::*;
use crate::units::{travel, travel_spec, Distance, Duration, Speed, Time};
use crate::topology::Traversable;
use crate::vehicle::{BuildingID, CarID, ParkingSpot, Vehicle, VehicleType};

verus! {

/// The stage of a car's journey.
#[derive(Clone, Copy, Debug, PartialEq, Eq, Hash, Structural)]
pub enum CarState {
    /// Scheduled, not yet on the road.
    Spawning,
    /// On a segment, moving or held up behind another car.
    Queued,
    /// At the end of a lane, asking the intersection for a turn.
    WaitingAtIntersection,
    /// At rest in a parking spot: the journey is over.
    Parked,
    /// At its destination and gone from the road.
    Done,
}

impl CarState {
    /// A car in a terminal state has left the simulation for good.
    pub open spec fn is_terminal(self) -> bool {
        self == CarState::Parked || self == CarState::Done
    }

    /// A car in one of these states is on a segment.
    pub open spec fn on_road(self) -> bool {
        self == CarState::Queued || self == CarState::WaitingAtIntersection
    }

    /// The steps a journey can take from one stage to the next.
    pub open spec fn may_become(self, next: CarState) -> bool {
        match self {
            CarState::Spawning => next == CarState::Queued,
            CarState::Queued => next == CarState::WaitingAtIntersection || next == CarState::Parked
                || next == CarState::Done,
            CarState::WaitingAtIntersection => next == CarState::Queued,
            CarState::Parked => false,
            CarState::Done => false,
        }
    }

    /// Either nothing happened or the journey took one of its steps.
    pub open spec fn stays_or_becomes(self, next: CarState) -> bool {
        self == next || self.may_become(next)
    }
}

/// No step leads out of a terminal state.
pub proof fn lemma_terminal_states_are_final(state: CarState, next: CarState)
    requires
        state.is_terminal(),
    ensures
        !state.may_become(next),
{
}

/// Where a car that ends its journey by parking comes to rest.
#[derive(Clone, Copy, Debug, PartialEq)]
pub struct ParkingGoal {
    pub spot: ParkingSpot,
    pub owner: Option<BuildingID>,
}

/// The segments a car drives over, first to last: lanes joined by turns.
#[derive(Clone, Debug)]
pub struct Route {
    pub steps: Vec<Traversable>,
    /// Set for a car that parks where its route ends.
    pub parking: Option<ParkingGoal>,
}

impl Route {
    /// A route that ends with the car leaving the road.
    pub fn new(steps: Vec<Traversable>) -> (route: Route)
        ensures
            route.steps == steps,
            route.parking.is_none(),
    {
        Route { steps, parking: None }
    }

    /// A route that ends with the car in a parking spot.
    pub fn ending_parked(steps: Vec<Traversable>, spot: ParkingSpot, owner: Option<BuildingID>) -> (route: Route)
        ensures
            route.steps == steps,
            route.parking == Some(ParkingGoal { spot, owner }),
    {
        Route { steps, parking: Some(ParkingGoal { spot, owner }) }
    }
}

/// What a caller gets to see of a car: a copy, good for the instant it was
/// taken.
#[derive(Clone, Copy, Debug, PartialEq)]
pub struct DrawCarInput {
    pub id: CarID,
    pub vehicle_type: VehicleType,
    pub on: Traversable,
    /// The rear bumper's distance along `on`.
    pub dist: Distance,
    pub length: Distance,
    pub speed: Speed,
    pub state: CarState,
}

#[derive(Debug)]
pub struct Car {
    pub vehicle: Vehicle,
    pub route: Route,
    /// Which step of the route the car is on.
    pub route_idx: usize,
    /// The rear bumper's distance along the current segment. Before the car
    /// is on the road, the distance at which it will start.
    pub dist: Distance,
    /// The speed the car made over the latest interval of simulated time.
    pub speed: Speed,
    pub state: CarState,
    /// When the car is to appear on the road.
    pub spawn_time: Time,
    /// How far along its last lane the journey ends.
    pub end_dist: Distance,
}

impl Car {
    /// The route has a current step, and only a vehicle of the class `Car`
    /// is sent to park.
    pub open spec fn wf(&self) -> bool {
        &&& self.route_idx < self.route.steps@.len()
        &&& self.route.parking.is_some() ==> self.vehicle.vehicle_type == VehicleType::Car
    }

    pub open spec fn id(&self) -> CarID {
        self.vehicle.id
    }

    pub open spec fn current_spec(&self) -> Traversable {
        self.route.steps@[self.route_idx as int]
    }

    pub open spec fn is_last_step_spec(&self) -> bool {
        self.route_idx + 1 == self.route.steps@.len()
    }

    /// How far along a segment of the given length the car is heading: to
    /// the segment's end, or on its last lane to where its journey ends.
    pub open spec fn target_spec(&self, segment_length: Distance) -> Distance {
        if self.is_last_step_spec() && self.end_dist < segment_length {
            self.end_dist
        } else {
            segment_length
        }
    }

    /// The car has got to the end of a segment of the given length.
    pub open spec fn at_end_spec(&self, segment_length: Distance) -> bool {
        self.dist >= segment_length
    }

    /// The route is used up: the car is on its last lane and as far along it
    /// as it meant to go.
    pub open spec fn is_finished_spec(&self) -> bool {
        self.is_last_step_spec() && self.dist >= self.end_dist
    }

    /// The car after `elapsed` on a segment with the given speed limit,
    /// where `ceiling` is the farthest it may get. It goes as far as its
    /// free speed takes it, stops at the ceiling, and never goes back.
    pub open spec fn driven(self, elapsed: Duration, speed_limit: Speed, ceiling: int) -> Car {
        let free = self.vehicle.free_speed_spec(speed_limit);
        let room = if ceiling > self.dist {
            ceiling - self.dist
        } else {
            0
        };
        let want = travel_spec(free, elapsed);
        if want <= room {
            Car { dist: (self.dist + want) as u64, speed: free, ..self }
        } else {
            Car { dist: (self.dist + room) as u64, speed: (room / (elapsed as int)) as u64, ..self }
        }
    }

    /// The car as it joins a queue at distance `at`.
    pub open spec fn entered(self, at: Distance) -> Car {
        Car { dist: at, state: CarState::Queued, ..self }
    }

    /// The car with its route moved on by one step.
    pub open spec fn stepped(self) -> Car {
        Car { route_idx: (self.route_idx + 1) as usize, ..self }
    }

    /// The car as it asks an intersection for its next turn.
    pub open spec fn waiting(self) -> Car {
        Car { state: CarState::WaitingAtIntersection, ..self }
    }

    /// The stage in which the journey ends.
    pub open spec fn final_state(&self) -> CarState {
        if self.route.parking.is_some() {
            CarState::Parked
        } else {
            CarState::Done
        }
    }

    /// The car at the end of its journey.
    pub open spec fn retired(self) -> Car {
        Car { state: self.final_state(), ..self }
    }

    pub open spec fn snapshot_spec(&self) -> DrawCarInput {
        DrawCarInput {
            id: self.vehicle.id,
            vehicle_type: self.vehicle.vehicle_type,
            on: self.current_spec(),
            dist: self.dist,
            length: self.vehicle.length,
            speed: self.speed,
            state: self.state,
        }
    }

    /// A car that waits to appear at `start_dist` on the first step of its
    /// route.
    pub fn new(vehicle: Vehicle, route: Route, spawn_time: Time, start_dist: Distance, end_dist: Distance) -> (car: Car)
        requires
            route.steps@.len() > 0,
            route.parking.is_some() ==> vehicle.vehicle_type == VehicleType::Car,
        ensures
            car.wf(),
            car == (Car {
                vehicle,
                route,
                route_idx: 0,
                dist: start_dist,
                speed: 0,
                state: CarState::Spawning,
                spawn_time,
                end_dist,
            }),
    {
        Car {
            vehicle,
            route,
            route_idx: 0,
            dist: start_dist,
            speed: 0,
            state: CarState::Spawning,
            spawn_time,
            end_dist,
        }
    }

    /// The segment the car is on.
    #[verifier::when_used_as_spec(current_spec)]
    pub fn current(&self) -> (on: Traversable)
        requires
            self.wf(),
        ensures
            on == self.current_spec(),
    {
        self.route.steps[self.route_idx]
    }

    /// Whether the car is on the last step of its route.
    #[verifier::when_used_as_spec(is_last_step_spec)]
    pub fn is_last_step(&self) -> (last: bool)
        requires
            self.wf(),
        ensures
            last == self.is_last_step_spec(),
    {
        self.route_idx == self.route.steps.len() - 1
    }

    /// The step after the current one, where the route has one.
    pub fn next_step(&self) -> (next: Option<Traversable>)
        requires
            self.wf(),
        ensures
            self.is_last_step_spec() ==> next.is_none(),
            !self.is_last_step_spec() ==> next == Some(self.route.steps@[self.route_idx + 1]),
    {
        if self.route_idx == self.route.steps.len() - 1 {
            None
        } else {
            Some(self.route.steps[self.route_idx + 1])
        }
    }

    /// How far along a segment of the given length the car is heading.
    #[verifier::when_used_as_spec(target_spec)]
    pub fn target(&self, segment_length: Distance) -> (goal: Distance)
        requires
            self.wf(),
        ensures
            goal == self.target_spec(segment_length),
    {
        if self.is_last_step() && self.end_dist < segment_length {
            self.end_dist
        } else {
            segment_length
        }
    }

    /// Whether the car has got to the end of a segment of the given length.
    #[verifier::when_used_as_spec(at_end_spec)]
    pub fn at_end(&self, segment_length: Distance) -> (there: bool)
        ensures
            there == self.at_end_spec(segment_length),
    {
        self.dist >= segment_length
    }

    /// Whether the route is used up.
    #[verifier::when_used_as_spec(is_finished_spec)]
    pub fn is_finished(&self) -> (finished: bool)
        requires
            self.wf(),
        ensures
            finished == self.is_finished_spec(),
    {
        self.is_last_step() && self.dist >= self.end_dist
    }

    /// Moves the car for `elapsed` on a segment with the given speed limit,
    /// no farther than `ceiling`.
    pub fn drive(&mut self, elapsed: Duration, speed_limit: Speed, ceiling: Distance)
        ensures
            *final(self) == old(self).driven(elapsed, speed_limit, ceiling as int),
            final(self).dist >= old(self).dist,
            final(self).dist <= old(self).dist || final(self).dist <= ceiling,
            final(self).speed <= old(self).vehicle.free_speed_spec(speed_limit),
    {
        let free = self.vehicle.free_speed(speed_limit);
        let room: u64 = if ceiling > self.dist {
            ceiling - self.dist
        } else {
            0
        };
        let want = travel(free, elapsed);
        if want <= room as u128 {
            self.dist = self.dist + want as u64;
            self.speed = free;
        } else {
            assert(elapsed > 0) by (nonlinear_arith)
                requires
                    free * elapsed > 0,
                    free >= 0,
                    elapsed >= 0,
            ;
            assert(room / elapsed < free) by (nonlinear_arith)
                requires
                    0 <= room < free * elapsed,
                    elapsed > 0,
            ;
            self.dist = self.dist + room;
            self.speed = room / elapsed;
        }
    }

    /// Puts the car on a segment at distance `at`.
    pub fn enter(&mut self, at: Distance)
        requires
            !old(self).state.is_terminal(),
        ensures
            *final(self) == old(self).entered(at),
            old(self).state.stays_or_becomes(final(self).state),
    {
        self.dist = at;
        self.state = CarState::Queued;
    }

    /// Moves the car's route on by one step.
    pub fn step(&mut self)
        requires
            old(self).wf(),
            !old(self).is_last_step_spec(),
        ensures
            *final(self) == old(self).stepped(),
            final(self).wf(),
    {
        let steps = self.route.steps.len();
        assert(self.route_idx + 1 < steps);
        self.route_idx = self.route_idx + 1;
    }

    /// Marks the car as asking an intersection for its next turn.
    pub fn wait(&mut self)
        requires
            old(self).state == CarState::Queued,
        ensures
            *final(self) == old(self).waiting(),
            old(self).state.may_become(final(self).state),
    {
        self.state = CarState::WaitingAtIntersection;
    }

    /// Ends the journey: the car is parked if its route says so, and done
    /// otherwise.
    pub fn retire(&mut self)
        requires
            old(self).state == CarState::Queued,
        ensures
            *final(self) == old(self).retired(),
            old(self).state.may_become(final(self).state),
            final(self).state.is_terminal(),
    {
        if self.route.parking.is_some() {
            self.state = CarState::Parked;
        } else {
            self.state = CarState::Done;
        }
    }

    /// A copy of what a caller may see of the car.
    pub fn snapshot(&self) -> (seen: DrawCarInput)
        requires
            self.wf(),
        ensures
            seen == self.snapshot_spec(),
    {
        DrawCarInput {
            id: self.vehicle.id,
            vehicle_type: self.vehicle.vehicle_type,
            on: self.current(),
            dist: self.dist,
            length: self.vehicle.length,
            speed: self.speed,
            state: self.state,
        }
    }
}

} // verus!
