//! A driving simulation engine: cars queue on lanes and turns, keep a
//! following distance, and cross intersections only on movements that do not
//! conflict with one already in progress.
//!
//! Distances are whole micrometres, times whole milliseconds and speeds
//! whole millimetres per second, so that a speed times a time is a distance
//! with nothing rounded away. A car's place on a segment is that of its rear
//! bumper.
//!
//! The simulation runs in steps: each call of
//! [`driving::DrivingSimState::advance`] lets the cars whose time has come
//! appear, drives every car for the time that has passed, hands cars over
//! from one segment to the next, and ends the journeys that are over. In a
//! step a car goes on from a turn to the lane beyond at most once and from a
//! lane to a turn at most once, in that order, so it does both only by way
//! of a lane of no length. What is left of the step when a car gets to the
//! end of a segment is not driven.
//!
//! What a state of the simulation is and what a step does to it is written
//! down as mathematics in [`model`]. That every step takes a sound state to
//! a sound state is proved in [`soundness`], and what follows for every
//! state the simulation can get into is stated in [`laws`]. Where a step
//! takes cars that have the road to themselves is worked out in
//! [`journeys`].

pub mod units;
pub mod vehicle;
pub mod topology;
pub mod car;
pub mod queue;
pub mod intersection;
pub mod model;
pub mod driving;
pub mod soundness;
pub mod laws;
pub mod journeys;
pub mod random;
pub mod controller;
pub mod alignment;
