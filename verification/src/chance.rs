//! The random draws of a rollout, taken from the thread-local generator of
//! the `rand` crate.

use vstd::prelude::*;
use rand::rngs::ThreadRng;
use rand::seq::SliceRandom;
use rand::Rng;
use crate::action::Action;

verus! {

/// `ThreadRng` of `rand`, the handle to the thread-local generator. Its
/// state is opaque here: a value is only carried to the two draws below.
#[verifier::external_type_specification]
#[verifier::external_body]
pub struct ExThreadRng(ThreadRng);

/// Calls `Rng::gen_range` of `rand` on the half-open range from `low` to
/// `high`. Trusted: the value lies in that range. `gen_range` panics on an
/// empty range, which the precondition rules out. Nothing is said of which
/// value of the range comes back.
#[verifier::external_body]
pub(crate) fn draw_between(rng: &mut ThreadRng, low: i32, high: i32) -> (value: i32)
    requires
        low < high,
    ensures
        low <= value < high,
{
    rng.gen_range(low..high)
}

/// Calls `SliceRandom::choose` of `rand` on `choices`. Trusted: an empty
/// list gives `None`, any other list gives one of its elements. Nothing is
/// said of which element comes back.
#[verifier::external_body]
pub(crate) fn pick_action(rng: &mut ThreadRng, choices: &Vec<Action>) -> (picked: Option<Action>)
    ensures
        choices.len() == 0 ==> picked is None,
        choices.len() > 0 ==> picked is Some && choices@.contains(picked->0),
{
    choices.choose(rng).copied()
}

} // verus!
