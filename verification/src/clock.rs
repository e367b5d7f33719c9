//! Trusted access to the wall clock, for the time-budgeted search.

use vstd::prelude::*;

verus! {

#[verifier::external_type_specification]
#[verifier::external_body]
pub struct ExInstant(std::time::Instant);

/// Relies on std::time::Instant::now: an opaque point in time.
#[verifier::external_body]
pub(crate) fn now_instant() -> std::time::Instant {
    std::time::Instant::now()
}

/// Relies on std::time::Instant::elapsed: the time since `start`, taken
/// here in whole milliseconds and capped at `u64::MAX`; nothing is promised
/// of the clock's pace, so callers must hold for every reading.
#[verifier::external_body]
pub(crate) fn elapsed_millis(start: &std::time::Instant) -> u64 {
    let ms = start.elapsed().as_millis();
    if ms > u64::MAX as u128 {
        u64::MAX
    } else {
        ms as u64
    }
}

} // verus!
