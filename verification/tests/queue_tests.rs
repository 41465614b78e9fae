use driving_sim::car::{Car, CarState, Route};
use driving_sim::queue::Queue;
use driving_sim::topology::{LaneID, Traversable, TurnID};
use driving_sim::units::{meters, meters_per_second, seconds, FOLLOWING_DISTANCE};
use driving_sim::vehicle::{CarID, Vehicle, VehicleType};

fn car(id: usize, length_m: u32, cap: Option<u64>, steps: Vec<Traversable>, end_m: u32) -> Car {
    let vehicle = Vehicle { id: CarID(id), vehicle_type: VehicleType::Car, length: meters(length_m), max_speed: cap };
    Car::new(vehicle, Route::new(steps), 0, 0, meters(end_m))
}

fn one_lane() -> Vec<Traversable> {
    vec![Traversable::Lane(LaneID(0))]
}

fn lane_then_more() -> Vec<Traversable> {
    vec![Traversable::Lane(LaneID(0)), Traversable::Turn(TurnID(0)), Traversable::Lane(LaneID(1))]
}

#[test]
fn an_empty_queue_takes_any_car() {
    let mut q = Queue::new();
    assert!(q.is_empty());
    assert!(q.has_room(meters(7), meters(500)));
    assert!(q.try_insert(car(1, 4, None, one_lane(), 90), meters(50)).is_ok());
    assert_eq!(q.len(), 1);
    let front = q.front().unwrap();
    assert_eq!(front.dist, meters(50));
    assert_eq!(front.state, CarState::Queued);
}

#[test]
fn a_car_joins_only_with_the_gap_and_its_own_length_behind_the_rearmost() {
    let mut q = Queue::new();
    assert!(q.try_insert(car(1, 4, None, one_lane(), 90), meters(50)).is_ok());
    // 45 + 4 + 1 = 50: just fits.
    assert!(q.has_room(meters(4), meters(45)));
    // One micrometre more does not.
    assert!(!q.has_room(meters(4), meters(45) + 1));
    let refused = q.try_insert(car(2, 4, None, one_lane(), 90), meters(46));
    let back = refused.unwrap_err();
    assert_eq!(back.vehicle.id, CarID(2));
    assert_eq!(back.state, CarState::Spawning);
    assert_eq!(q.len(), 1);
    assert!(q.try_insert(back, meters(45)).is_ok());
    assert_eq!(q.len(), 2);
    assert_eq!(q.get(1).vehicle.id, CarID(2));
    assert_eq!(q.get(1).dist, meters(45));
}

#[test]
fn a_car_cannot_join_ahead_of_the_rearmost() {
    let mut q = Queue::new();
    assert!(q.try_insert(car(1, 4, None, one_lane(), 90), meters(10)).is_ok());
    assert!(q.try_insert(car(2, 4, None, one_lane(), 90), meters(50)).is_err());
}

#[test]
fn a_sum_too_large_for_the_machine_is_no_room() {
    let mut q = Queue::new();
    assert!(q.try_insert(car(1, 4, None, one_lane(), 90), meters(10)).is_ok());
    assert!(!q.has_room(u64::MAX, 5));
    assert!(!q.has_room(5, u64::MAX));
}

#[test]
fn the_leader_drives_at_its_free_speed() {
    let mut q = Queue::new();
    assert!(q.try_insert(car(1, 4, None, lane_then_more(), 0), meters(20)).is_ok());
    q.advance_positions(seconds(3), meters(1000), meters_per_second(10));
    assert_eq!(q.get(0).dist, meters(50));
    assert_eq!(q.get(0).speed, meters_per_second(10));
}

#[test]
fn the_speed_cap_binds_below_the_limit() {
    let mut q = Queue::new();
    assert!(q.try_insert(car(1, 4, Some(4_470), lane_then_more(), 0), 0).is_ok());
    q.advance_positions(1_000, meters(1000), meters_per_second(10));
    assert_eq!(q.get(0).dist, 4_470_000);
    assert_eq!(q.get(0).speed, 4_470);
}

#[test]
fn the_leader_stops_at_the_end_of_the_segment() {
    let mut q = Queue::new();
    assert!(q.try_insert(car(1, 4, None, lane_then_more(), 0), meters(95)).is_ok());
    q.advance_positions(seconds(2), meters(100), meters_per_second(10));
    assert_eq!(q.get(0).dist, meters(100));
    // Five metres in two seconds.
    assert_eq!(q.get(0).speed, 2_500);
    q.advance_positions(seconds(2), meters(100), meters_per_second(10));
    assert_eq!(q.get(0).dist, meters(100));
    assert_eq!(q.get(0).speed, 0);
}

#[test]
fn a_car_on_its_last_lane_stops_where_its_journey_ends() {
    let mut q = Queue::new();
    assert!(q.try_insert(car(1, 4, None, one_lane(), 90), meters(80)).is_ok());
    q.advance_positions(seconds(5), meters(100), meters_per_second(10));
    assert_eq!(q.get(0).dist, meters(90));
    assert!(q.get(0).is_finished());
}

#[test]
fn a_follower_is_held_behind_its_leader() {
    let mut q = Queue::new();
    // The leader crawls, the follower would go ten times as fast.
    assert!(q.try_insert(car(1, 5, Some(1_000), lane_then_more(), 0), meters(50)).is_ok());
    assert!(q.try_insert(car(2, 4, None, lane_then_more(), 0), meters(10)).is_ok());
    q.advance_positions(seconds(10), meters(1000), meters_per_second(10));
    assert_eq!(q.get(0).dist, meters(60));
    // 60 m minus one metre of gap minus its own four metres.
    assert_eq!(q.get(1).dist, meters(55));
    assert_eq!(q.get(1).speed, 4_500);
    assert!(q.get(1).dist + q.get(1).vehicle.length + FOLLOWING_DISTANCE <= q.get(0).dist);
}

#[test]
fn no_car_moves_back_and_no_time_moves_no_car() {
    let mut q = Queue::new();
    assert!(q.try_insert(car(1, 4, None, lane_then_more(), 0), meters(50)).is_ok());
    assert!(q.try_insert(car(2, 4, None, lane_then_more(), 0), meters(10)).is_ok());
    q.advance_positions(0, meters(1000), meters_per_second(10));
    assert_eq!(q.get(0).dist, meters(50));
    assert_eq!(q.get(1).dist, meters(10));
    // A segment shorter than where the cars stand moves them nowhere.
    q.advance_positions(seconds(1), meters(5), meters_per_second(10));
    assert_eq!(q.get(0).dist, meters(50));
    assert_eq!(q.get(1).dist, meters(10));
}

#[test]
fn order_and_spacing_survive_many_steps() {
    let mut q = Queue::new();
    assert!(q.try_insert(car(1, 7, Some(3_000), lane_then_more(), 0), meters(60)).is_ok());
    assert!(q.try_insert(car(2, 2, Some(9_000), lane_then_more(), 0), meters(40)).is_ok());
    assert!(q.try_insert(car(3, 5, None, lane_then_more(), 0), meters(5)).is_ok());
    for _ in 0..1000 {
        q.advance_positions(137, meters(300), meters_per_second(12));
        assert_eq!(q.len(), 3);
        assert_eq!(q.get(0).vehicle.id, CarID(1));
        assert_eq!(q.get(1).vehicle.id, CarID(2));
        assert_eq!(q.get(2).vehicle.id, CarID(3));
        for i in 1..3 {
            let leader = q.get(i - 1);
            let follower = q.get(i);
            assert!(follower.dist + follower.vehicle.length + FOLLOWING_DISTANCE <= leader.dist);
            assert!(follower.dist < leader.dist);
        }
    }
    assert_eq!(q.get(0).dist, meters(300));
    assert_eq!(q.get(1).dist, meters(300) - meters(1) - meters(2));
    assert_eq!(q.get(2).dist, meters(300) - meters(1) - meters(2) - meters(1) - meters(5));
}

#[test]
fn the_front_car_leaves_only_at_the_end() {
    let mut q = Queue::new();
    assert!(q.try_insert(car(1, 4, None, lane_then_more(), 0), meters(90)).is_ok());
    assert!(q.try_insert(car(2, 4, None, lane_then_more(), 0), meters(10)).is_ok());
    assert!(q.pop_front_if_at_end(meters(100)).is_none());
    assert_eq!(q.len(), 2);
    q.advance_positions(seconds(1), meters(100), meters_per_second(10));
    let gone = q.pop_front_if_at_end(meters(100)).unwrap();
    assert_eq!(gone.vehicle.id, CarID(1));
    assert_eq!(gone.dist, meters(100));
    assert_eq!(q.len(), 1);
    assert_eq!(q.front().unwrap().vehicle.id, CarID(2));
    assert!(q.pop_front_if_at_end(meters(100)).is_none());
}

#[test]
fn an_empty_queue_hands_over_nothing() {
    let mut q = Queue::new();
    assert!(q.pop_front_if_at_end(0).is_none());
    assert!(q.front().is_none());
    assert!(q.retire_finished().is_empty());
    assert!(q.snapshot().is_empty());
}

#[test]
fn finished_cars_retire_and_the_rest_keep_their_order() {
    let mut q = Queue::new();
    assert!(q.try_insert(car(1, 4, None, lane_then_more(), 0), meters(80)).is_ok());
    assert!(q.try_insert(car(2, 4, None, one_lane(), 60), meters(60)).is_ok());
    assert!(q.try_insert(car(3, 4, None, one_lane(), 90), meters(40)).is_ok());
    assert!(q.try_insert(car(4, 4, None, one_lane(), 20), meters(20)).is_ok());
    let gone = q.retire_finished();
    assert_eq!(gone.len(), 2);
    assert_eq!(gone[0].vehicle.id, CarID(2));
    assert_eq!(gone[0].state, CarState::Done);
    assert_eq!(gone[1].vehicle.id, CarID(4));
    assert_eq!(gone[1].state, CarState::Done);
    assert_eq!(q.len(), 2);
    assert_eq!(q.get(0).vehicle.id, CarID(1));
    assert_eq!(q.get(1).vehicle.id, CarID(3));
}

#[test]
fn the_front_car_can_be_marked_as_waiting() {
    let mut q = Queue::new();
    assert!(q.try_insert(car(1, 4, None, lane_then_more(), 0), meters(100)).is_ok());
    q.hold_front();
    assert_eq!(q.front().unwrap().state, CarState::WaitingAtIntersection);
}

#[test]
fn a_snapshot_copies_what_may_be_seen() {
    let mut q = Queue::new();
    assert!(q.try_insert(car(1, 4, Some(2_000), lane_then_more(), 0), meters(50)).is_ok());
    assert!(q.try_insert(car(2, 3, None, lane_then_more(), 0), meters(10)).is_ok());
    let seen = q.snapshot();
    assert_eq!(seen.len(), 2);
    assert_eq!(seen[0].id, CarID(1));
    assert_eq!(seen[0].on, Traversable::Lane(LaneID(0)));
    assert_eq!(seen[0].dist, meters(50));
    assert_eq!(seen[0].length, meters(4));
    assert_eq!(seen[0].vehicle_type, VehicleType::Car);
    assert_eq!(seen[0].state, CarState::Queued);
    assert_eq!(seen[1].id, CarID(2));
    assert_eq!(seen[1].dist, meters(10));
}
