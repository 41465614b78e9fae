use driving_sim::car::{CarState, DrawCarInput, Route};
use driving_sim::driving::{DrivingSimState, SpawnError};
use driving_sim::topology::{
    Intersection, IntersectionID, Lane, LaneID, LaneType, MapTopology, Traversable, Turn, TurnID, TurnType,
};
use driving_sim::units::{meters, meters_per_second, seconds, FOLLOWING_DISTANCE};
use driving_sim::vehicle::{BuildingID, CarID, ParkingSpot, Vehicle, VehicleType};

fn lane(length_m: u32, limit_mps: u32) -> Lane {
    Lane {
        length: meters(length_m),
        speed_limit: meters_per_second(limit_mps),
        lane_type: LaneType::Driving,
        other_side: None,
    }
}

fn turn(src: usize, dst: usize, length_m: u32) -> Turn {
    Turn {
        src: LaneID(src),
        dst: LaneID(dst),
        parent: IntersectionID(0),
        length: meters(length_m),
        speed_limit: meters_per_second(10),
        turn_type: TurnType::Straight,
    }
}

fn single_lane_map() -> MapTopology {
    MapTopology { lanes: vec![lane(100, 10)], turns: vec![], intersections: vec![] }
}

/// Lanes 0 and 1 run into one intersection; turn 0 leads from lane 0 to lane
/// 2 and turn 1 from lane 1 to lane 3. The two turns cross.
fn crossing_map() -> MapTopology {
    MapTopology {
        lanes: vec![lane(100, 10), lane(100, 10), lane(100, 10), lane(100, 10)],
        turns: vec![turn(0, 2, 10), turn(1, 3, 10)],
        intersections: vec![Intersection { conflicts: vec![(TurnID(0), TurnID(1))] }],
    }
}

fn car(id: usize, length_m: u32, cap: Option<u64>) -> Vehicle {
    Vehicle { id: CarID(id), vehicle_type: VehicleType::Car, length: meters(length_m), max_speed: cap }
}

fn on_lane(l: usize) -> Route {
    Route::new(vec![Traversable::Lane(LaneID(l))])
}

fn through(src: usize, t: usize, dst: usize) -> Route {
    Route::new(vec![Traversable::Lane(LaneID(src)), Traversable::Turn(TurnID(t)), Traversable::Lane(LaneID(dst))])
}

fn find(cars: &[DrawCarInput], id: usize) -> DrawCarInput {
    *cars.iter().find(|c| c.id == CarID(id)).unwrap()
}

fn assert_no_overlap(sim: &DrivingSimState, segments: &[Traversable]) {
    for on in segments {
        let cars = sim.cars_on(*on);
        for i in 1..cars.len() {
            assert!(cars[i].dist + cars[i].length + FOLLOWING_DISTANCE <= cars[i - 1].dist);
            // The same, said of the middles of the two cars.
            assert!(
                (2 * cars[i - 1].dist + cars[i - 1].length) - (2 * cars[i].dist + cars[i].length)
                    >= 2 * FOLLOWING_DISTANCE + cars[i - 1].length + cars[i].length
            );
        }
    }
}

#[test]
fn a_fresh_simulation_is_empty() {
    let sim = DrivingSimState::new(crossing_map());
    assert_eq!(sim.time(), 0);
    assert!(sim.all_cars().is_empty());
    assert!(sim.cars_on(Traversable::Lane(LaneID(0))).is_empty());
    assert!(sim.cars_on(Traversable::Turn(TurnID(1))).is_empty());
    assert_eq!(sim.num_pending(), 0);
    assert_eq!(sim.num_finished(), 0);
    assert_eq!(sim.car_state(CarID(0)), None);
    assert_eq!(sim.map().lanes.len(), 4);
}

#[test]
fn single_car_on_an_empty_road_is_done_after_distance_over_speed() {
    let mut sim = DrivingSimState::new(single_lane_map());
    assert_eq!(sim.spawn(car(1, 4, None), on_lane(0), 0, 0, meters(90)), Ok(()));
    assert_eq!(sim.car_state(CarID(1)), Some(CarState::Spawning));
    // 90 m at 10 m/s.
    sim.advance(seconds(9));
    assert_eq!(sim.car_state(CarID(1)), Some(CarState::Done));
    assert!(sim.all_cars().is_empty());
    assert_eq!(sim.num_finished(), 1);
    assert_eq!(sim.time(), seconds(9));
}

#[test]
fn single_car_is_not_done_a_moment_too_early() {
    let mut sim = DrivingSimState::new(single_lane_map());
    assert_eq!(sim.spawn(car(1, 4, None), on_lane(0), 0, 0, meters(90)), Ok(()));
    sim.advance(seconds(9) - 1);
    assert_eq!(sim.car_state(CarID(1)), Some(CarState::Queued));
    let seen = sim.cars_on(Traversable::Lane(LaneID(0)));
    assert_eq!(seen.len(), 1);
    assert_eq!(seen[0].dist, meters(90) - 10_000);
    assert_eq!(seen[0].speed, meters_per_second(10));
    sim.advance(seconds(9));
    assert_eq!(sim.car_state(CarID(1)), Some(CarState::Done));
}

#[test]
fn single_car_in_small_steps_is_done_at_the_same_time() {
    let mut sim = DrivingSimState::new(single_lane_map());
    assert_eq!(sim.spawn(car(1, 4, None), on_lane(0), 0, 0, meters(90)), Ok(()));
    for tick in 1..=90u64 {
        assert_ne!(sim.car_state(CarID(1)), Some(CarState::Done));
        sim.advance(tick * 100);
    }
    assert_eq!(sim.car_state(CarID(1)), Some(CarState::Done));
}

#[test]
fn a_follower_never_closes_the_gap_to_its_leader() {
    let map = MapTopology { lanes: vec![lane(1000, 30)], turns: vec![], intersections: vec![] };
    let mut sim = DrivingSimState::new(map);
    // A at 50 m, slow; B behind it at 10 m, four times as fast.
    assert_eq!(sim.spawn(car(1, 5, Some(5_000)), on_lane(0), 0, meters(50), meters(900)), Ok(()));
    assert_eq!(sim.spawn(car(2, 4, Some(20_000)), on_lane(0), 0, meters(10), meters(900)), Ok(()));
    let mut caught_up = false;
    for tick in 1..=600u64 {
        sim.advance(tick * 100);
        let seen = sim.cars_on(Traversable::Lane(LaneID(0)));
        assert_eq!(seen.len(), 2);
        assert_eq!(seen[0].id, CarID(1));
        assert_eq!(seen[1].id, CarID(2));
        let a = seen[0];
        let b = seen[1];
        assert!(b.dist + b.length + FOLLOWING_DISTANCE <= a.dist);
        assert!(b.dist <= a.dist - FOLLOWING_DISTANCE - b.length);
        if b.dist + b.length + FOLLOWING_DISTANCE == a.dist {
            caught_up = true;
            assert!(b.speed <= 20_000);
        }
    }
    assert!(caught_up);
    let seen = sim.cars_on(Traversable::Lane(LaneID(0)));
    // A has driven 60 s at 5 m/s from 50 m.
    assert_eq!(seen[0].dist, meters(350));
    assert_eq!(seen[1].dist, meters(350) - FOLLOWING_DISTANCE - meters(4));
    assert_eq!(seen[1].speed, 5_000);
}

#[test]
fn of_two_cars_at_conflicting_turns_the_lower_identity_goes_first() {
    let mut sim = DrivingSimState::new(crossing_map());
    // The car with the higher identity is offered first and stands on the
    // lane with the lower number.
    assert_eq!(sim.spawn(car(7, 4, None), through(0, 0, 2), 0, 0, meters(50)), Ok(()));
    assert_eq!(sim.spawn(car(3, 4, None), through(1, 1, 3), 0, 0, meters(50)), Ok(()));
    // Both get to the end of their lane in the same step.
    sim.advance(seconds(10));
    assert_eq!(sim.car_state(CarID(3)), Some(CarState::Queued));
    assert_eq!(sim.car_state(CarID(7)), Some(CarState::WaitingAtIntersection));
    let on_turn = sim.cars_on(Traversable::Turn(TurnID(1)));
    assert_eq!(on_turn.len(), 1);
    assert_eq!(on_turn[0].id, CarID(3));
    assert_eq!(on_turn[0].dist, 0);
    assert!(sim.cars_on(Traversable::Turn(TurnID(0))).is_empty());
    let waiting = sim.cars_on(Traversable::Lane(LaneID(0)));
    assert_eq!(waiting[0].id, CarID(7));
    assert_eq!(waiting[0].dist, meters(100));
    // While car 3 is on its turn, car 7 stays where it is.
    sim.advance(seconds(10) + 500);
    assert_eq!(sim.car_state(CarID(7)), Some(CarState::WaitingAtIntersection));
    assert_eq!(sim.cars_on(Traversable::Turn(TurnID(1)))[0].dist, meters(5));
    // Car 3 leaves the turn; car 7 is let go in the same step.
    sim.advance(seconds(11));
    assert!(sim.cars_on(Traversable::Turn(TurnID(1))).is_empty());
    assert_eq!(sim.cars_on(Traversable::Lane(LaneID(3)))[0].id, CarID(3));
    assert_eq!(sim.car_state(CarID(7)), Some(CarState::Queued));
    assert_eq!(sim.cars_on(Traversable::Turn(TurnID(0)))[0].id, CarID(7));
    // Both end their journeys.
    for tick in 1..=100u64 {
        sim.advance(seconds(11) + tick * 100);
    }
    assert_eq!(sim.car_state(CarID(3)), Some(CarState::Done));
    assert_eq!(sim.car_state(CarID(7)), Some(CarState::Done));
}

#[test]
fn cars_at_turns_that_do_not_conflict_cross_together() {
    let mut map = crossing_map();
    map.intersections[0].conflicts.clear();
    let mut sim = DrivingSimState::new(map);
    assert_eq!(sim.spawn(car(7, 4, None), through(0, 0, 2), 0, 0, meters(50)), Ok(()));
    assert_eq!(sim.spawn(car(3, 4, None), through(1, 1, 3), 0, 0, meters(50)), Ok(()));
    sim.advance(seconds(10));
    assert_eq!(sim.cars_on(Traversable::Turn(TurnID(0))).len(), 1);
    assert_eq!(sim.cars_on(Traversable::Turn(TurnID(1))).len(), 1);
}

#[test]
fn advancing_twice_to_the_same_instant_changes_nothing() {
    let mut sim = DrivingSimState::new(crossing_map());
    assert_eq!(sim.spawn(car(7, 4, None), through(0, 0, 2), 0, 0, meters(50)), Ok(()));
    assert_eq!(sim.spawn(car(3, 4, Some(3_000)), through(1, 1, 3), 500, meters(5), meters(50)), Ok(()));
    sim.advance(seconds(4));
    let once = sim.all_cars();
    let states = (sim.car_state(CarID(7)), sim.car_state(CarID(3)));
    sim.advance(seconds(4));
    assert_eq!(sim.all_cars(), once);
    assert_eq!((sim.car_state(CarID(7)), sim.car_state(CarID(3))), states);
    assert_eq!(sim.time(), seconds(4));
    // Nor does a step into the past.
    sim.advance(seconds(1));
    assert_eq!(sim.all_cars(), once);
    assert_eq!(sim.time(), seconds(4));
    sim.advance(0);
    assert_eq!(sim.all_cars(), once);
}

#[test]
fn advancing_to_instant_zero_does_nothing() {
    let mut sim = DrivingSimState::new(single_lane_map());
    assert_eq!(sim.spawn(car(1, 4, None), on_lane(0), 0, 0, meters(90)), Ok(()));
    sim.advance(0);
    assert_eq!(sim.car_state(CarID(1)), Some(CarState::Spawning));
    sim.advance(1);
    assert_eq!(sim.car_state(CarID(1)), Some(CarState::Queued));
    assert_eq!(sim.cars_on(Traversable::Lane(LaneID(0)))[0].dist, 10_000);
}

fn replay() -> Vec<Vec<DrawCarInput>> {
    let mut sim = DrivingSimState::new(crossing_map());
    let mut history = Vec::new();
    for k in 0..12usize {
        let (route, cap) = if k % 2 == 0 {
            (through(0, 0, 2), None)
        } else {
            (through(1, 1, 3), Some(2_000 + 1_000 * k as u64))
        };
        let offered = sim.spawn(car(k, 2 + (k % 5) as u32, cap), route, 700 * k as u64, meters(k as u32), meters(60));
        assert_eq!(offered, Ok(()));
    }
    for tick in 1..=400u64 {
        sim.advance(tick * 250);
        history.push(sim.all_cars());
    }
    assert_eq!(sim.num_finished(), 12);
    history
}

#[test]
fn the_same_calls_give_the_same_trajectories() {
    let first = replay();
    let second = replay();
    assert_eq!(first, second);
    assert!(first.iter().any(|seen| !seen.is_empty()));
}

#[test]
fn spacing_and_order_hold_throughout_a_busy_run() {
    let mut sim = DrivingSimState::new(crossing_map());
    for k in 0..16usize {
        let route = if k % 2 == 0 { through(0, 0, 2) } else { through(1, 1, 3) };
        let cap = if k % 3 == 0 { Some(3_000) } else { None };
        assert_eq!(sim.spawn(car(k, 2 + (k % 6) as u32, cap), route, 300 * k as u64, 0, meters(80)), Ok(()));
    }
    let segments = [
        Traversable::Lane(LaneID(0)),
        Traversable::Lane(LaneID(1)),
        Traversable::Lane(LaneID(2)),
        Traversable::Lane(LaneID(3)),
        Traversable::Turn(TurnID(0)),
        Traversable::Turn(TurnID(1)),
    ];
    let mut before: Vec<Vec<DrawCarInput>> = segments.iter().map(|on| sim.cars_on(*on)).collect();
    for tick in 1..=1200u64 {
        sim.advance(tick * 100);
        assert_no_overlap(&sim, &segments);
        // The two turns cross: they are never in use together.
        assert!(
            sim.cars_on(Traversable::Turn(TurnID(0))).is_empty()
                || sim.cars_on(Traversable::Turn(TurnID(1))).is_empty()
        );
        let after: Vec<Vec<DrawCarInput>> = segments.iter().map(|on| sim.cars_on(*on)).collect();
        for (was, is) in before.iter().zip(after.iter()) {
            // Cars that stay on a segment keep their order, and none moves
            // back.
            let stayed: Vec<&DrawCarInput> = is.iter().filter(|c| was.iter().any(|w| w.id == c.id)).collect();
            let kept: Vec<&DrawCarInput> = was.iter().filter(|w| is.iter().any(|c| c.id == w.id)).collect();
            assert_eq!(stayed.len(), kept.len());
            for (now, then) in stayed.iter().zip(kept.iter()) {
                assert_eq!(now.id, then.id);
                assert!(now.dist >= then.dist);
            }
        }
        before = after;
    }
    assert_eq!(sim.num_finished(), 16);
    assert!(sim.all_cars().is_empty());
}

#[test]
fn a_car_appears_only_when_its_time_has_come() {
    let mut sim = DrivingSimState::new(single_lane_map());
    assert_eq!(sim.spawn(car(1, 4, None), on_lane(0), 2_000, meters(10), meters(90)), Ok(()));
    sim.advance(1_999);
    assert_eq!(sim.car_state(CarID(1)), Some(CarState::Spawning));
    assert!(sim.all_cars().is_empty());
    sim.advance(2_000);
    assert_eq!(sim.car_state(CarID(1)), Some(CarState::Queued));
    // It drives for the whole step in which it appears.
    assert_eq!(sim.cars_on(Traversable::Lane(LaneID(0)))[0].dist, meters(10) + 10_000);
}

#[test]
fn a_car_without_room_appears_later() {
    let mut sim = DrivingSimState::new(single_lane_map());
    assert_eq!(sim.spawn(car(1, 4, Some(1_000)), on_lane(0), 0, meters(10), meters(90)), Ok(()));
    // Wants to start two metres behind the rear of car 1: too close.
    assert_eq!(sim.spawn(car(2, 4, None), on_lane(0), 0, meters(8), meters(90)), Ok(()));
    sim.advance(1_000);
    assert_eq!(sim.car_state(CarID(1)), Some(CarState::Queued));
    assert_eq!(sim.car_state(CarID(2)), Some(CarState::Spawning));
    assert_eq!(sim.num_pending(), 1);
    // Car 1 is at 11 m; at 13 m the gap is there: 8 + 4 + 1.
    sim.advance(2_000);
    assert_eq!(sim.car_state(CarID(2)), Some(CarState::Spawning));
    sim.advance(3_000);
    assert_eq!(sim.car_state(CarID(2)), Some(CarState::Spawning));
    sim.advance(4_000);
    assert_eq!(sim.car_state(CarID(2)), Some(CarState::Queued));
    assert_eq!(sim.num_pending(), 0);
    let seen = sim.cars_on(Traversable::Lane(LaneID(0)));
    assert_eq!(find(&seen, 1).dist, meters(14));
    assert_eq!(find(&seen, 2).dist, meters(9));
}

#[test]
fn a_malformed_route_is_rejected() {
    let mut sim = DrivingSimState::new(crossing_map());
    let empty = Route::new(vec![]);
    assert_eq!(sim.spawn(car(1, 4, None), empty, 0, 0, 0), Err(SpawnError::MalformedRoute));
    let unknown_lane = on_lane(4);
    assert_eq!(sim.spawn(car(1, 4, None), unknown_lane, 0, 0, 0), Err(SpawnError::MalformedRoute));
    let starts_on_turn = Route::new(vec![Traversable::Turn(TurnID(0))]);
    assert_eq!(sim.spawn(car(1, 4, None), starts_on_turn, 0, 0, 0), Err(SpawnError::MalformedRoute));
    let ends_on_turn = Route::new(vec![Traversable::Lane(LaneID(0)), Traversable::Turn(TurnID(0))]);
    assert_eq!(sim.spawn(car(1, 4, None), ends_on_turn, 0, 0, 0), Err(SpawnError::MalformedRoute));
    let two_lanes = Route::new(vec![Traversable::Lane(LaneID(0)), Traversable::Lane(LaneID(2))]);
    assert_eq!(sim.spawn(car(1, 4, None), two_lanes, 0, 0, 0), Err(SpawnError::MalformedRoute));
    let wrong_source = through(1, 0, 2);
    assert_eq!(sim.spawn(car(1, 4, None), wrong_source, 0, 0, 0), Err(SpawnError::MalformedRoute));
    let wrong_destination = through(0, 0, 3);
    assert_eq!(sim.spawn(car(1, 4, None), wrong_destination, 0, 0, 0), Err(SpawnError::MalformedRoute));
    let unknown_turn = through(0, 2, 2);
    assert_eq!(sim.spawn(car(1, 4, None), unknown_turn, 0, 0, 0), Err(SpawnError::MalformedRoute));
    assert_eq!(sim.num_pending(), 0);
    assert_eq!(sim.car_state(CarID(1)), None);
}

#[test]
fn distances_out_of_bounds_are_rejected() {
    let mut sim = DrivingSimState::new(crossing_map());
    // 96 m + 4 m is the whole lane: accepted.
    assert_eq!(sim.spawn(car(1, 4, None), through(0, 0, 2), 0, meters(96), meters(100)), Ok(()));
    assert_eq!(
        sim.spawn(car(2, 4, None), through(0, 0, 2), 0, meters(96) + 1, meters(100)),
        Err(SpawnError::StartOutOfBounds)
    );
    assert_eq!(
        sim.spawn(car(2, 4, None), through(0, 0, 2), 0, u64::MAX, meters(100)),
        Err(SpawnError::StartOutOfBounds)
    );
    assert_eq!(
        sim.spawn(car(2, 4, None), through(0, 0, 2), 0, 0, meters(100) + 1),
        Err(SpawnError::EndOutOfBounds)
    );
    let too_long = Vehicle { id: CarID(2), vehicle_type: VehicleType::Bus, length: meters(101), max_speed: None };
    assert_eq!(sim.spawn(too_long, through(0, 0, 2), 0, 0, 0), Err(SpawnError::StartOutOfBounds));
    assert_eq!(sim.num_pending(), 1);
}

#[test]
fn a_trip_to_where_it_starts_is_rejected() {
    let mut sim = DrivingSimState::new(crossing_map());
    assert_eq!(sim.spawn(car(1, 4, None), on_lane(0), 0, meters(50), meters(50)), Err(SpawnError::DegenerateTrip));
    assert_eq!(sim.spawn(car(1, 4, None), on_lane(0), 0, meters(50), meters(20)), Err(SpawnError::DegenerateTrip));
    assert_eq!(sim.spawn(car(1, 4, None), on_lane(0), 0, meters(50), meters(50) + 1), Ok(()));
    // On a longer route the end may lie before the start: they are on
    // different lanes.
    assert_eq!(sim.spawn(car(2, 4, None), through(0, 0, 2), 0, meters(50), meters(20)), Ok(()));
}

#[test]
fn only_cars_are_sent_to_park() {
    let mut sim = DrivingSimState::new(single_lane_map());
    let spot = ParkingSpot::new(LaneID(0), 3);
    let bike = Vehicle { id: CarID(1), vehicle_type: VehicleType::Bike, length: meters(2), max_speed: Some(4_000) };
    let to_spot = Route::ending_parked(vec![Traversable::Lane(LaneID(0))], spot, None);
    assert_eq!(sim.spawn(bike, to_spot, 0, 0, meters(40)), Err(SpawnError::CannotPark));
    let bus = Vehicle { id: CarID(2), vehicle_type: VehicleType::Bus, length: meters(7), max_speed: None };
    let to_spot = Route::ending_parked(vec![Traversable::Lane(LaneID(0))], spot, None);
    assert_eq!(sim.spawn(bus, to_spot, 0, 0, meters(40)), Err(SpawnError::CannotPark));
    assert_eq!(sim.spawn(bike, on_lane(0), 0, 0, meters(40)), Ok(()));
}

#[test]
fn a_car_sent_to_park_ends_parked_and_is_reported() {
    let mut sim = DrivingSimState::new(single_lane_map());
    let spot = ParkingSpot::new(LaneID(0), 3);
    let to_spot = Route::ending_parked(vec![Traversable::Lane(LaneID(0))], spot, Some(BuildingID(5)));
    assert_eq!(sim.spawn(car(1, 4, None), to_spot, 0, 0, meters(40)), Ok(()));
    assert_eq!(sim.spawn(car(2, 4, None), on_lane(0), 5_000, 0, meters(40)), Ok(()));
    assert!(sim.parked_cars().is_empty());
    sim.advance(seconds(4));
    assert_eq!(sim.car_state(CarID(1)), Some(CarState::Parked));
    let parked = sim.parked_cars();
    assert_eq!(parked.len(), 1);
    assert_eq!(parked[0].car, CarID(1));
    assert_eq!(parked[0].spot, spot);
    assert_eq!(parked[0].owner, Some(BuildingID(5)));
    assert_eq!(parked[0].vehicle, car(1, 4, None));
    sim.advance(seconds(20));
    assert_eq!(sim.car_state(CarID(2)), Some(CarState::Done));
    assert_eq!(sim.parked_cars().len(), 1);
    assert_eq!(sim.num_finished(), 2);
}

#[test]
fn a_car_can_be_withdrawn_only_before_its_time() {
    let mut sim = DrivingSimState::new(single_lane_map());
    assert_eq!(sim.spawn(car(1, 4, None), on_lane(0), 5_000, 0, meters(90)), Ok(()));
    assert_eq!(sim.spawn(car(2, 4, None), on_lane(0), 1_000, 0, meters(90)), Ok(()));
    assert!(!sim.withdraw(CarID(3)));
    sim.advance(1_000);
    // Car 2 is on the road.
    assert!(!sim.withdraw(CarID(2)));
    assert!(sim.withdraw(CarID(1)));
    assert_eq!(sim.car_state(CarID(1)), None);
    assert!(!sim.withdraw(CarID(1)));
    sim.advance(seconds(60));
    assert_eq!(sim.num_finished(), 1);
}

#[test]
fn a_car_whose_time_has_come_cannot_be_withdrawn_even_if_it_still_waits() {
    let mut sim = DrivingSimState::new(single_lane_map());
    assert_eq!(sim.spawn(car(1, 4, Some(100)), on_lane(0), 0, meters(10), meters(90)), Ok(()));
    assert_eq!(sim.spawn(car(2, 4, None), on_lane(0), 1_000, meters(8), meters(90)), Ok(()));
    sim.advance(1_000);
    assert_eq!(sim.car_state(CarID(2)), Some(CarState::Spawning));
    assert!(!sim.withdraw(CarID(2)));
    // At instant zero nothing has come yet.
    let mut fresh = DrivingSimState::new(single_lane_map());
    assert_eq!(fresh.spawn(car(1, 4, None), on_lane(0), 0, 0, meters(90)), Ok(()));
    assert!(!fresh.withdraw(CarID(1)));
    assert_eq!(fresh.spawn(car(2, 4, None), on_lane(0), 1, 0, meters(90)), Ok(()));
    assert!(fresh.withdraw(CarID(2)));
}

#[test]
fn a_turn_lets_cars_follow_each_other() {
    let mut sim = DrivingSimState::new(crossing_map());
    assert_eq!(sim.spawn(car(1, 2, None), through(0, 0, 2), 0, meters(90), meters(50)), Ok(()));
    assert_eq!(sim.spawn(car(2, 2, None), through(0, 0, 2), 0, meters(80), meters(50)), Ok(()));
    sim.advance(seconds(1));
    // Car 1 is at the end and goes on to the turn; car 2 is held behind.
    assert_eq!(sim.cars_on(Traversable::Turn(TurnID(0)))[0].id, CarID(1));
    assert_eq!(sim.cars_on(Traversable::Lane(LaneID(0)))[0].dist, meters(90));
    sim.advance(seconds(2));
    // Car 1 is at the end of the turn and leaves it; car 2 reaches the end
    // of the lane and follows through the same turn.
    assert_eq!(sim.cars_on(Traversable::Lane(LaneID(2)))[0].id, CarID(1));
    assert_eq!(sim.cars_on(Traversable::Turn(TurnID(0)))[0].id, CarID(2));
    for tick in 1..=100u64 {
        sim.advance(seconds(2) + tick * 100);
    }
    assert_eq!(sim.num_finished(), 2);
}

#[test]
fn a_full_lane_holds_a_car_on_its_turn() {
    let mut map = crossing_map();
    map.lanes[2].speed_limit = 100;
    let mut sim = DrivingSimState::new(map);
    assert_eq!(sim.spawn(car(1, 4, None), through(0, 0, 2), 0, meters(90), meters(50)), Ok(()));
    assert_eq!(sim.spawn(car(2, 4, None), through(0, 0, 2), 0, meters(80), meters(50)), Ok(()));
    for tick in 1..=40u64 {
        sim.advance(tick * 1_000);
        assert_no_overlap(&sim, &[Traversable::Lane(LaneID(2)), Traversable::Turn(TurnID(0))]);
    }
    // Car 1 crawls along lane 2 at a tenth of a metre per second. Car 2
    // needs five metres behind it and waits at the end of the turn.
    let ahead = sim.cars_on(Traversable::Lane(LaneID(2)));
    assert_eq!(ahead.len(), 1);
    assert_eq!(ahead[0].id, CarID(1));
    assert!(ahead[0].dist < meters(5));
    let held = sim.cars_on(Traversable::Turn(TurnID(0)));
    assert_eq!(held.len(), 1);
    assert_eq!(held[0].id, CarID(2));
    assert_eq!(held[0].dist, meters(10));
    for tick in 41..=60u64 {
        sim.advance(tick * 1_000);
    }
    assert_eq!(sim.cars_on(Traversable::Lane(LaneID(2))).len(), 2);
}

#[test]
fn one_long_step_takes_a_car_over_one_segment_boundary_at_most() {
    let mut sim = DrivingSimState::new(crossing_map());
    assert_eq!(sim.spawn(car(1, 4, None), through(0, 0, 2), 0, 0, meters(50)), Ok(()));
    sim.advance(seconds(1_000));
    let seen = sim.all_cars();
    assert_eq!(seen.len(), 1);
    assert_eq!(seen[0].on, Traversable::Turn(TurnID(0)));
    assert_eq!(seen[0].dist, 0);
    sim.advance(seconds(2_000));
    let seen = sim.all_cars();
    assert_eq!(seen[0].on, Traversable::Lane(LaneID(2)));
    assert_eq!(seen[0].dist, 0);
    sim.advance(seconds(3_000));
    assert_eq!(sim.car_state(CarID(1)), Some(CarState::Done));
}

#[test]
fn two_cars_of_one_identity_are_never_on_a_turn_together() {
    let mut map = crossing_map();
    map.turns[0].length = meters(40);
    let mut sim = DrivingSimState::new(map);
    assert_eq!(sim.spawn(car(5, 2, None), through(0, 0, 2), 0, meters(90), meters(50)), Ok(()));
    assert_eq!(sim.spawn(car(5, 2, None), through(0, 0, 2), 0, meters(80), meters(50)), Ok(()));
    let mut both_seen = false;
    for tick in 1..=400u64 {
        sim.advance(tick * 100);
        let on_turn = sim.cars_on(Traversable::Turn(TurnID(0)));
        assert!(on_turn.len() <= 1);
        if !on_turn.is_empty() && !sim.cars_on(Traversable::Lane(LaneID(0))).is_empty() {
            // The second car is at the end of the lane while the first is
            // still on the turn, with room enough to follow.
            both_seen = true;
        }
    }
    assert!(both_seen);
    assert_eq!(sim.num_finished(), 2);
}

#[test]
fn no_car_is_ever_beyond_the_end_of_its_segment() {
    let mut sim = DrivingSimState::new(crossing_map());
    for k in 0..10usize {
        let route = if k % 2 == 0 { through(0, 0, 2) } else { through(1, 1, 3) };
        assert_eq!(sim.spawn(car(k, 3, None), route, 250 * k as u64, meters(9 * k as u32), meters(70)), Ok(()));
    }
    for tick in 1..=500u64 {
        sim.advance(tick * 333);
        for seen in sim.all_cars() {
            let length = match seen.on {
                Traversable::Lane(_) => meters(100),
                Traversable::Turn(_) => meters(10),
            };
            assert!(seen.dist <= length);
            if seen.on == Traversable::Lane(LaneID(2)) || seen.on == Traversable::Lane(LaneID(3)) {
                assert!(seen.dist < meters(70));
            }
            assert!(seen.speed <= meters_per_second(10));
        }
    }
    assert_eq!(sim.num_finished(), 10);
}

#[test]
fn no_car_is_lost_and_none_appears_from_nowhere() {
    let mut sim = DrivingSimState::new(crossing_map());
    let count = |sim: &DrivingSimState| sim.num_pending() + sim.all_cars().len() + sim.num_finished();
    assert_eq!(count(&sim), 0);
    for k in 0..9usize {
        let route = if k % 2 == 0 { through(0, 0, 2) } else { through(1, 1, 3) };
        assert_eq!(sim.spawn(car(k, 3, None), route, 4_000 * k as u64, 0, meters(70)), Ok(()));
        assert_eq!(count(&sim), k + 1);
    }
    assert_eq!(sim.spawn(car(9, 3, None), on_lane(0), 0, meters(5), meters(5)), Err(SpawnError::DegenerateTrip));
    assert_eq!(count(&sim), 9);
    for tick in 1..=300u64 {
        sim.advance(tick * 100);
        assert_eq!(count(&sim), 9);
    }
    assert!(sim.withdraw(CarID(8)));
    assert_eq!(count(&sim), 8);
    assert!(!sim.withdraw(CarID(0)));
    assert_eq!(count(&sim), 8);
    for tick in 301..=900u64 {
        sim.advance(tick * 100);
        assert_eq!(count(&sim), 8);
    }
    assert_eq!(sim.num_finished(), 8);
}

#[test]
fn a_lane_of_no_length_is_crossed_within_the_step() {
    let mut map = MapTopology {
        lanes: vec![lane(100, 10), lane(0, 10), lane(100, 10)],
        turns: vec![turn(0, 1, 10), turn(1, 2, 10)],
        intersections: vec![Intersection { conflicts: vec![] }],
    };
    map.lanes[1].length = 0;
    let mut sim = DrivingSimState::new(map);
    let route = Route::new(vec![
        Traversable::Lane(LaneID(0)),
        Traversable::Turn(TurnID(0)),
        Traversable::Lane(LaneID(1)),
        Traversable::Turn(TurnID(1)),
        Traversable::Lane(LaneID(2)),
    ]);
    assert_eq!(sim.spawn(car(1, 4, None), route, 0, meters(90), meters(50)), Ok(()));
    sim.advance(seconds(1));
    assert_eq!(sim.all_cars()[0].on, Traversable::Turn(TurnID(0)));
    // The car comes off the first turn onto the lane of no length, is at
    // its end at once, and goes on to the second turn.
    sim.advance(seconds(2));
    let seen = sim.all_cars();
    assert_eq!(seen.len(), 1);
    assert_eq!(seen[0].on, Traversable::Turn(TurnID(1)));
    assert_eq!(seen[0].dist, 0);
    sim.advance(seconds(3));
    assert_eq!(sim.all_cars()[0].on, Traversable::Lane(LaneID(2)));
}

#[test]
fn a_query_for_a_segment_the_map_lacks_sees_nothing() {
    let sim = DrivingSimState::new(single_lane_map());
    assert!(sim.cars_on(Traversable::Lane(LaneID(9))).is_empty());
    assert!(sim.cars_on(Traversable::Turn(TurnID(0))).is_empty());
}

#[test]
fn all_cars_lists_lanes_then_turns() {
    let mut sim = DrivingSimState::new(crossing_map());
    assert_eq!(sim.spawn(car(1, 2, None), through(0, 0, 2), 0, meters(90), meters(50)), Ok(()));
    assert_eq!(sim.spawn(car(2, 2, None), through(1, 1, 3), 0, meters(10), meters(50)), Ok(()));
    assert_eq!(sim.spawn(car(3, 2, None), through(0, 0, 2), 0, meters(20), meters(50)), Ok(()));
    sim.advance(seconds(1));
    let ids: Vec<usize> = sim.all_cars().iter().map(|c| c.id.0).collect();
    assert_eq!(ids, vec![3, 2, 1]);
    let on: Vec<Traversable> = sim.all_cars().iter().map(|c| c.on).collect();
    assert_eq!(
        on,
        vec![Traversable::Lane(LaneID(0)), Traversable::Lane(LaneID(1)), Traversable::Turn(TurnID(0))]
    );
}

#[test]
fn restart_clears_the_road() {
    let mut sim = DrivingSimState::new(single_lane_map());
    assert_eq!(sim.spawn(car(1, 4, None), on_lane(0), 0, 0, meters(90)), Ok(()));
    assert_eq!(sim.spawn(car(2, 4, None), on_lane(0), 9_000, 0, meters(90)), Ok(()));
    sim.advance(seconds(3));
    sim.restart();
    assert_eq!(sim.time(), 0);
    assert!(sim.all_cars().is_empty());
    assert_eq!(sim.num_pending(), 0);
    assert_eq!(sim.num_finished(), 0);
    assert_eq!(sim.map().lanes.len(), 1);
}
