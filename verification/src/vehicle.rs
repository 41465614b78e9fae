//! Vehicles and the records that describe where one is parked.

use vstd::prelude::*;
use crate::units::{Distance, Speed};
use crate::topology::LaneID;

verus! {

/// The identity of a vehicle. Ties between cars are broken by it, the lower
/// number first.
#[derive(Clone, Copy, Debug, PartialEq, Eq, Hash, Structural)]
pub struct CarID(pub usize);

/// The identity of a building.
#[derive(Clone, Copy, Debug, PartialEq, Eq, Hash, Structural)]
pub struct BuildingID(pub usize);

#[derive(Clone, Copy, Debug, PartialEq, Eq, Hash, Structural)]
pub enum VehicleType {
    Car,
    Bike,
    Bus,
}

/// What a vehicle is, fixed when it is made.
#[derive(Clone, Copy, Debug, PartialEq)]
pub struct Vehicle {
    pub id: CarID,
    pub vehicle_type: VehicleType,
    pub length: Distance,
    /// The fastest this vehicle can go, where it has such a limit.
    pub max_speed: Option<Speed>,
}

impl Vehicle {
    /// The fastest this vehicle goes on a segment with the given limit.
    pub open spec fn free_speed_spec(self, speed_limit: Speed) -> Speed {
        match self.max_speed {
            Some(cap) => if cap < speed_limit {
                cap
            } else {
                speed_limit
            },
            None => speed_limit,
        }
    }

    /// The fastest this vehicle goes on a segment with the given limit: the
    /// lower of the limit and its own cap.
    pub fn free_speed(&self, speed_limit: Speed) -> (s: Speed)
        ensures
            s == self.free_speed_spec(speed_limit),
    {
        match self.max_speed {
            Some(cap) => if cap < speed_limit {
                cap
            } else {
                speed_limit
            },
            None => speed_limit,
        }
    }
}

/// One parking place beside a lane.
#[derive(Clone, Copy, Debug, PartialEq, Eq, Structural)]
pub struct ParkingSpot {
    pub lane: LaneID,
    pub idx: usize,
}

impl ParkingSpot {
    pub fn new(lane: LaneID, idx: usize) -> (spot: ParkingSpot)
        ensures
            spot.lane == lane,
            spot.idx == idx,
    {
        ParkingSpot { lane, idx }
    }
}

/// A car at rest in a parking spot.
#[derive(Clone, Copy, Debug, PartialEq)]
pub struct ParkedCar {
    pub car: CarID,
    pub spot: ParkingSpot,
    pub vehicle: Vehicle,
    pub owner: Option<BuildingID>,
}

impl ParkedCar {
    /// Only a vehicle of the class `Car` parks.
    pub fn new(car: CarID, spot: ParkingSpot, vehicle: Vehicle, owner: Option<BuildingID>) -> (parked: ParkedCar)
        requires
            vehicle.vehicle_type == VehicleType::Car,
        ensures
            parked.car == car,
            parked.spot == spot,
            parked.vehicle == vehicle,
            parked.owner == owner,
    {
        ParkedCar { car, spot, vehicle, owner }
    }
}

} // verus!
