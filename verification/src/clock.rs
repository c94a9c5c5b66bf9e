//! Time, as the machine's clock tells it.

use std::time::{Duration, Instant};
use vstd::prelude::*;

verus! {

/// `std::time::Instant`, a moment that only its own clock can tell.
#[verifier::external_type_specification]
#[verifier::external_body]
pub struct ExInstant(Instant);

/// The nanoseconds in a `std::time::Duration`.
pub uninterp spec fn nanoseconds(duration: Duration) -> u128;

/// `Instant::now` reads the machine's clock. Which moment it is, is left
/// unsaid.
pub assume_specification[ Instant::now ]() -> (now: Instant);

/// `Instant::elapsed` reads the machine's clock again. How much time has
/// passed since `start` is left unsaid.
pub assume_specification[ Instant::elapsed ](start: &Instant) -> (elapsed: Duration);

/// `Duration::as_nanos` gives a duration in nanoseconds. A duration is at most
/// `u64::MAX` seconds and 999 999 999 nanoseconds.
pub assume_specification[ Duration::as_nanos ](duration: &Duration) -> (nanos: u128)
    ensures
        nanos == nanoseconds(*duration),
        nanos <= u64::MAX * 1_000_000_000 + 999_999_999,
;

/// `Duration::from_secs` gives a duration of whole seconds.
pub assume_specification[ Duration::from_secs ](seconds: u64) -> (duration: Duration)
    ensures
        nanoseconds(duration) == seconds * 1_000_000_000,
;

} // verus!
