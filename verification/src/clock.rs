//! The wall clock that bounds generation. The generator polls it at loop
//! boundaries; what it answers depends on the machine, so nothing is promised
//! of it, and every caller states what holds whichever way it answers.

use vstd::prelude::*;

verus! {

#[verifier::external_type_specification]
#[verifier::external_body]
pub struct ExInstant(std::time::Instant);

/// Relies on std::time::Instant::now: the current instant.
#[verifier::external_body]
pub fn now() -> std::time::Instant {
    std::time::Instant::now()
}

/// Relies on std::time::Duration::from_secs: the duration of `n` seconds.
#[verifier::external_body]
pub fn seconds(n: u64) -> std::time::Duration {
    std::time::Duration::from_secs(n)
}

/// Relies on std::time::Instant::elapsed: whether more than `timeout` has
/// passed since `start`. What it answers depends on the clock.
#[verifier::external_body]
pub fn elapsed_exceeds(start: &std::time::Instant, timeout: &std::time::Duration) -> bool {
    start.elapsed() > *timeout
}

} // verus!
