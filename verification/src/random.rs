//! The source of chance: the generator of the `macroquad` crate.
//!
//! What the generator hands out depends on its seed and on the calls made
//! before, so nothing is stated of a draw but its type.

use vstd::prelude::*;
use macroquad::rand::{ChooseRandom, RandGenerator};

verus! {

/// `macroquad::rand::RandGenerator`, the generator of pseudo-random numbers.
#[verifier::external_type_specification]
#[verifier::external_body]
pub struct ExRandGenerator(RandGenerator);

/// `RandGenerator::rand`: the next number of the generator. Any `u32` may
/// come back.
#[verifier::external_body]
pub(crate) fn draw(rng: &RandGenerator) -> (number: u32) {
    rng.rand()
}

/// `ChooseRandom::choose_with_state` on a slice: an item of the slice that
/// the generator picks. What comes back, if anything does, is one of the items.
#[verifier::external_body]
pub(crate) fn pick<'a, T>(items: &'a [T], rng: &RandGenerator) -> (item: Option<&'a T>)
    ensures
        item matches Some(it) ==> items@.contains(*it),
{
    items.choose_with_state(rng)
}

/// The share of the draws at which a cell is spawned: one in three.
pub open spec fn spawns(number: u32) -> bool {
    number < u32::MAX / 3
}

/// Whether a cell is spawned at a draw of `number`: at one draw in three.
pub fn should_spawn(number: u32) -> (yes: bool)
    ensures
        yes == spawns(number),
{
    number < u32::MAX / 3
}

} // verus!
