//! Time that work takes. What a clock shows is not fixed by anything, so that nothing is known
//! of it but that time adds up.

use std::time::{Duration, Instant};

use vstd::prelude::*;

verus! {

/// A moment that the clock of the machine showed.
#[verifier::external_type_specification]
#[verifier::external_body]
pub struct ExInstant(Instant);

/// The present moment. Nothing is claimed of it.
pub assume_specification[ Instant::now ]() -> Instant
;

/// The time since a moment. Nothing is claimed of it.
pub assume_specification[ Instant::elapsed ](since: &Instant) -> Duration
;

/// A duration in whole nanoseconds. Nothing is claimed of it, as durations are not modelled.
pub assume_specification[ Duration::as_nanos ](time: &Duration) -> u128
;

/// Adds the nanoseconds since a moment to a total that stops at the largest number that fits.
pub fn add_time(total: &mut u64, since: &Instant)
    ensures
        *final(total) >= *old(total),
{
    let nanos: u128 = since.elapsed().as_nanos();
    let nanos: u64 = if nanos <= 0xffff_ffff_ffff_ffffu128 {
        nanos as u64
    } else {
        u64::MAX
    };
    *total = total.saturating_add(nanos);
}

} // verus!
