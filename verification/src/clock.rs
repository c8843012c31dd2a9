//! The wall clock that bounds the planner's sampling.

use vstd::prelude::*;
use std::time::{Duration, Instant};

verus! {

/// `Instant` of `std::time`, a reading of the clock. It is opaque here.
#[verifier::external_type_specification]
#[verifier::external_body]
pub struct ExInstant(Instant);

/// `Instant::now` reads the clock. Nothing is promised of the result.
pub assume_specification[ Instant::now ]() -> (now: Instant);

/// `Instant::elapsed` gives the time since the instant was taken. Nothing
/// is promised of the result.
pub assume_specification[ Instant::elapsed ](start: &Instant) -> (elapsed: Duration);

/// `Duration::as_millis` gives the whole milliseconds of a duration.
/// Nothing is promised of the result.
pub assume_specification[ Duration::as_millis ](duration: &Duration) -> (millis: u128);

} // verus!
