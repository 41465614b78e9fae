use driving_sim::car::{Car, CarState, Route};
use driving_sim::topology::{LaneID, Traversable, TurnID};
use driving_sim::units::{meters, meters_per_second, seconds};
use driving_sim::vehicle::{BuildingID, CarID, ParkingSpot, Vehicle, VehicleType};

fn vehicle(id: usize) -> Vehicle {
    Vehicle { id: CarID(id), vehicle_type: VehicleType::Car, length: meters(4), max_speed: None }
}

fn three_steps() -> Vec<Traversable> {
    vec![Traversable::Lane(LaneID(0)), Traversable::Turn(TurnID(2)), Traversable::Lane(LaneID(5))]
}

#[test]
fn a_new_car_waits_to_appear() {
    let c = Car::new(vehicle(1), Route::new(three_steps()), 700, meters(3), meters(40));
    assert_eq!(c.state, CarState::Spawning);
    assert_eq!(c.route_idx, 0);
    assert_eq!(c.dist, meters(3));
    assert_eq!(c.speed, 0);
    assert_eq!(c.spawn_time, 700);
    assert_eq!(c.end_dist, meters(40));
    assert_eq!(c.current(), Traversable::Lane(LaneID(0)));
    assert!(!c.is_last_step());
    assert_eq!(c.next_step(), Some(Traversable::Turn(TurnID(2))));
}

#[test]
fn a_car_heads_for_the_segment_end_until_its_last_lane() {
    let mut c = Car::new(vehicle(1), Route::new(three_steps()), 0, 0, meters(40));
    assert_eq!(c.target(meters(100)), meters(100));
    assert!(!c.is_finished());
    c.step();
    assert_eq!(c.current(), Traversable::Turn(TurnID(2)));
    assert_eq!(c.target(meters(10)), meters(10));
    c.step();
    assert_eq!(c.current(), Traversable::Lane(LaneID(5)));
    assert!(c.is_last_step());
    assert_eq!(c.next_step(), None);
    assert_eq!(c.target(meters(100)), meters(40));
    // A lane shorter than the end distance is driven to its end.
    assert_eq!(c.target(meters(30)), meters(30));
}

#[test]
fn driving_goes_as_far_as_speed_and_ceiling_allow() {
    let mut c = Car::new(vehicle(1), Route::new(three_steps()), 0, meters(10), meters(40));
    c.enter(meters(10));
    c.drive(seconds(2), meters_per_second(5), meters(100));
    assert_eq!(c.dist, meters(20));
    assert_eq!(c.speed, meters_per_second(5));
    c.drive(seconds(2), meters_per_second(5), meters(26));
    assert_eq!(c.dist, meters(26));
    assert_eq!(c.speed, meters_per_second(3));
    c.drive(seconds(2), meters_per_second(5), meters(20));
    assert_eq!(c.dist, meters(26));
    assert_eq!(c.speed, 0);
}

#[test]
fn driving_with_huge_numbers_stays_within_the_ceiling() {
    let mut c = Car::new(vehicle(1), Route::new(three_steps()), 0, 0, 0);
    c.enter(5);
    c.drive(u64::MAX, u64::MAX, u64::MAX);
    assert_eq!(c.dist, u64::MAX);
    assert_eq!(c.speed, (u64::MAX - 5) / u64::MAX);
}

#[test]
fn a_journey_goes_through_its_stages() {
    let mut c = Car::new(vehicle(1), Route::new(vec![Traversable::Lane(LaneID(0))]), 0, 0, meters(40));
    assert_eq!(c.state, CarState::Spawning);
    c.enter(0);
    assert_eq!(c.state, CarState::Queued);
    c.wait();
    assert_eq!(c.state, CarState::WaitingAtIntersection);
    c.enter(0);
    assert_eq!(c.state, CarState::Queued);
    c.retire();
    assert_eq!(c.state, CarState::Done);
}

#[test]
fn a_journey_with_a_parking_goal_ends_parked() {
    let route = Route::ending_parked(
        vec![Traversable::Lane(LaneID(0))],
        ParkingSpot::new(LaneID(1), 4),
        Some(BuildingID(8)),
    );
    let mut c = Car::new(vehicle(1), route, 0, 0, meters(40));
    c.enter(0);
    c.retire();
    assert_eq!(c.state, CarState::Parked);
}

#[test]
fn a_snapshot_shows_the_car_where_it_is() {
    let mut c = Car::new(vehicle(6), Route::new(three_steps()), 0, meters(3), meters(40));
    c.enter(meters(3));
    let seen = c.snapshot();
    assert_eq!(seen.id, CarID(6));
    assert_eq!(seen.on, Traversable::Lane(LaneID(0)));
    assert_eq!(seen.dist, meters(3));
    assert_eq!(seen.length, meters(4));
    assert_eq!(seen.state, CarState::Queued);
}
