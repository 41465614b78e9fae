use driving_sim::topology::{
    Intersection, IntersectionID, Lane, LaneID, LaneType, MapTopology, Traversable, Turn, TurnID, TurnType,
};
use driving_sim::units::{meters, meters_per_second};

fn lane() -> Lane {
    Lane { length: meters(100), speed_limit: meters_per_second(10), lane_type: LaneType::Driving, other_side: None }
}

fn turn(src: usize, dst: usize, parent: usize) -> Turn {
    Turn {
        src: LaneID(src),
        dst: LaneID(dst),
        parent: IntersectionID(parent),
        length: meters(10),
        speed_limit: meters_per_second(10),
        turn_type: TurnType::Left,
    }
}

fn sound() -> MapTopology {
    MapTopology {
        lanes: vec![lane(), lane(), lane()],
        turns: vec![turn(0, 1, 0), turn(0, 2, 0), turn(1, 2, 1)],
        intersections: vec![
            Intersection { conflicts: vec![(TurnID(0), TurnID(1))] },
            Intersection { conflicts: vec![] },
        ],
    }
}

#[test]
fn a_sound_map_is_well_formed() {
    assert!(sound().is_well_formed());
    let nothing = MapTopology { lanes: vec![], turns: vec![], intersections: vec![] };
    assert!(nothing.is_well_formed());
}

#[test]
fn a_dangling_turn_end_is_found() {
    let mut map = sound();
    map.turns[1].dst = LaneID(3);
    assert!(!map.is_well_formed());
    let mut map = sound();
    map.turns[2].src = LaneID(7);
    assert!(!map.is_well_formed());
    let mut map = sound();
    map.turns[0].parent = IntersectionID(2);
    assert!(!map.is_well_formed());
}

#[test]
fn a_conflict_entry_that_names_a_stranger_is_found() {
    let mut map = sound();
    map.intersections[0].conflicts.push((TurnID(0), TurnID(3)));
    assert!(!map.is_well_formed());
    // Turn 2 crosses the other intersection.
    let mut map = sound();
    map.intersections[0].conflicts.push((TurnID(2), TurnID(0)));
    assert!(!map.is_well_formed());
}

#[test]
fn a_dangling_other_side_is_found() {
    let mut map = sound();
    map.lanes[1].other_side = Some(LaneID(2));
    assert!(map.is_well_formed());
    map.lanes[1].other_side = Some(LaneID(3));
    assert!(!map.is_well_formed());
}

#[test]
fn routes_are_checked_against_the_map() {
    let map = sound();
    let l = |n| Traversable::Lane(LaneID(n));
    let t = |n| Traversable::Turn(TurnID(n));
    assert!(map.check_route(&vec![l(0)]));
    assert!(map.check_route(&vec![l(0), t(0), l(1)]));
    assert!(map.check_route(&vec![l(0), t(0), l(1), t(2), l(2)]));
    assert!(!map.check_route(&vec![]));
    assert!(!map.check_route(&vec![t(0)]));
    assert!(!map.check_route(&vec![l(3)]));
    assert!(!map.check_route(&vec![l(0), t(0)]));
    assert!(!map.check_route(&vec![l(0), l(1)]));
    assert!(!map.check_route(&vec![l(0), t(0), l(2)]));
    assert!(!map.check_route(&vec![l(1), t(0), l(1)]));
    assert!(!map.check_route(&vec![l(0), t(3), l(1)]));
    assert!(!map.check_route(&vec![l(0), t(0), t(2)]));
}

#[test]
fn turns_from_a_lane_come_in_map_order() {
    let map = sound();
    assert_eq!(map.turns_from_lane(LaneID(0)), vec![TurnID(0), TurnID(1)]);
    assert_eq!(map.turns_from_lane(LaneID(1)), vec![TurnID(2)]);
    assert!(map.turns_from_lane(LaneID(2)).is_empty());
    assert!(map.turns_from_lane(LaneID(9)).is_empty());
}

#[test]
fn only_driving_lanes_are_driving() {
    let mut l = lane();
    assert!(l.is_driving());
    l.lane_type = LaneType::Parking;
    assert!(!l.is_driving());
    l.lane_type = LaneType::Bus;
    assert!(!l.is_driving());
}
