//! Units of measure. Everything is an integer, chosen so that a speed times
//! a duration is a distance with nothing rounded away.

use vstd::prelude::*;

verus! {

/// A length in micrometres.
pub type Distance = u64;

/// A span of simulated time in milliseconds.
pub type Duration = u64;

/// An instant of simulated time: milliseconds since the simulation began.
pub type Time = u64;

/// A speed in millimetres per second, which is micrometres per millisecond.
pub type Speed = u64;

/// How many units of distance make a metre.
pub const MICROMETRES_PER_METRE: u64 = 1_000_000;

/// How many units of time make a second.
pub const MILLIS_PER_SECOND: u64 = 1_000;

/// The shortest vehicle the scenario generator makes: two metres.
pub const MIN_VEHICLE_LENGTH: Distance = 2_000_000;

/// The longest vehicle the scenario generator makes: seven metres.
pub const MAX_VEHICLE_LENGTH: Distance = 7_000_000;

/// The gap every car keeps between its front bumper and the rear bumper of
/// the car ahead: one metre.
pub const FOLLOWING_DISTANCE: Distance = 1_000_000;

/// Ten miles per hour, the cap of a slow vehicle.
pub const SLOW_VEHICLE_SPEED: Speed = 4_470;

/// A whole number of metres as a distance.
pub fn meters(m: u32) -> (d: Distance)
    ensures
        d == m * MICROMETRES_PER_METRE,
{
    let wide: u64 = m as u64;
    wide * MICROMETRES_PER_METRE
}

/// A whole number of seconds as a duration.
pub fn seconds(s: u32) -> (d: Duration)
    ensures
        d == s * MILLIS_PER_SECOND,
{
    let wide: u64 = s as u64;
    wide * MILLIS_PER_SECOND
}

/// A whole number of metres per second as a speed.
pub fn meters_per_second(v: u32) -> (s: Speed)
    ensures
        s == v * 1000,
{
    let wide: u64 = v as u64;
    wide * 1000
}

/// How far a body moving at `speed` gets in `elapsed`, as a mathematical
/// integer.
pub open spec fn travel_spec(speed: Speed, elapsed: Duration) -> int {
    speed * elapsed
}

/// How far a body moving at `speed` gets in `elapsed`. The product of two
/// 64-bit numbers always fits in 128 bits.
pub fn travel(speed: Speed, elapsed: Duration) -> (d: u128)
    ensures
        d == travel_spec(speed, elapsed),
{
    assert(speed * elapsed <= u64::MAX * u64::MAX) by (nonlinear_arith)
        requires
            0 <= speed <= u64::MAX,
            0 <= elapsed <= u64::MAX,
    ;
    (speed as u128) * (elapsed as u128)
}

} // verus!
