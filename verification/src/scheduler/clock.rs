//! The clock of the machine.

use vstd::prelude::*;

verus! {

#[verifier::external_type_specification]
#[verifier::external_body]
pub struct ExInstant(std::time::Instant);

/// The present moment, as `std::time::Instant::now` gives it. Nothing is
/// known of it.
#[verifier::external_body]
pub(crate) fn instant_now() -> (now: std::time::Instant) {
    std::time::Instant::now()
}

/// The time that has passed since `since`, as `std::time::Instant::elapsed`
/// gives it. Nothing is known of it.
#[verifier::external_body]
pub(crate) fn elapsed_since(since: &std::time::Instant) -> (passed: std::time::Duration) {
    since.elapsed()
}

/// The whole microseconds of a duration, as `std::time::Duration::as_micros`
/// gives them. Nothing is known of their number.
#[verifier::external_body]
pub(crate) fn whole_micros(duration: &std::time::Duration) -> (micros: u128) {
    duration.as_micros()
}

/// The microseconds that have passed since `since`, and `u64::MAX` where
/// they are more than that.
pub(crate) fn elapsed_micros(since: &std::time::Instant) -> (micros: u64) {
    let passed = elapsed_since(since);
    saturate(whole_micros(&passed))
}

/// `micros` as a `u64`, and `u64::MAX` where it is larger.
pub fn saturate(micros: u128) -> (fitted: u64)
    ensures
        fitted == if micros > u64::MAX {
            u64::MAX
        } else {
            micros as u64
        },
{
    if micros > u64::MAX as u128 {
        u64::MAX
    } else {
        micros as u64
    }
}

} // verus!
