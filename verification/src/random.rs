//! Random choices, drawn from a seeded generator of the `rand` family. No
//! proof here looks inside the generator: each function says only what holds
//! of every draw.

use vstd::prelude::*;
use rand::seq::SliceRandom;
use rand::{Rng, SeedableRng};
use rand_xorshift::XorShiftRng;
use crate::topology::TurnID;
use crate::units::Distance;

verus! {

/// The generator `rand_xorshift::XorShiftRng`. Its state is opaque to every
/// proof.
#[verifier::external_type_specification]
#[verifier::external_body]
pub struct ExXorShiftRng(rand_xorshift::XorShiftRng);

/// Calls `XorShiftRng::from_seed` with a seed of sixteen bytes, all equal to
/// `byte`. Nothing is claimed of the generator that comes back.
#[verifier::external_body]
pub(crate) fn seeded_rng(byte: u8) -> XorShiftRng {
    XorShiftRng::from_seed([byte; 16])
}

/// Calls `Rng::gen_range` on 64-bit unsigned integers. The call panics
/// unless `low < high`, and is documented to yield a value from `low` up to
/// but not including `high`.
#[verifier::external_body]
pub(crate) fn gen_range(rng: &mut XorShiftRng, low: u64, high: u64) -> (drawn: u64)
    requires
        low < high,
    ensures
        low <= drawn < high,
{
    rng.gen_range(low, high)
}

/// Calls `Rng::gen_range` on 32-bit signed integers, which draws from the
/// generator otherwise than the call on 64-bit ones. The call panics unless
/// `low < high`, and is documented to yield a value from `low` up to but
/// not including `high`.
#[verifier::external_body]
pub(crate) fn gen_range_i32(rng: &mut XorShiftRng, low: i32, high: i32) -> (drawn: i32)
    requires
        low < high,
    ensures
        low <= drawn < high,
{
    rng.gen_range(low, high)
}

/// Calls `Rng::gen_ratio`. The call panics if the denominator is zero or
/// less than the numerator. It is documented to yield `true` always when
/// the two are equal and never when the numerator is zero.
#[verifier::external_body]
pub(crate) fn gen_ratio(rng: &mut XorShiftRng, numerator: u32, denominator: u32) -> (yes: bool)
    requires
        0 < denominator,
        numerator <= denominator,
    ensures
        numerator == denominator ==> yes,
        numerator == 0 ==> !yes,
{
    rng.gen_ratio(numerator, denominator)
}

/// Calls `SliceRandom::choose` on the turns. It yields one of them, and
/// nothing only if there is none.
#[verifier::external_body]
pub(crate) fn choose_turn(turns: &Vec<TurnID>, rng: &mut XorShiftRng) -> (pick: Option<TurnID>)
    ensures
        turns@.len() == 0 ==> pick.is_none(),
        turns@.len() > 0 ==> pick.is_some() && turns@.contains(pick.unwrap()),
{
    turns.choose(rng).copied()
}

/// A distance drawn from `low` up to but not including `high`.
pub fn rand_dist(rng: &mut XorShiftRng, low: Distance, high: Distance) -> (drawn: Distance)
    requires
        low < high,
    ensures
        low <= drawn < high,
{
    gen_range(rng, low, high)
}

} // verus!
