//! The system clock, used only to seed generators from entropy.
use vstd::prelude::*;
use std::time::{SystemTime, SystemTimeError, UNIX_EPOCH};
use core::time::Duration;

verus! {

#[verifier::external_type_specification]
#[verifier::external_body]
pub struct ExSystemTime(SystemTime);

#[verifier::external_type_specification]
#[verifier::external_body]
pub struct ExSystemTimeError(SystemTimeError);

/// `SystemTime::now`: the current wall-clock time; nothing is promised of it.
#[verifier::external_body]
pub(crate) fn now() -> SystemTime {
    SystemTime::now()
}

/// `SystemTime::duration_since(UNIX_EPOCH)`: the time since the epoch, or an error
/// when the clock lies before it; nothing is promised of the value.
#[verifier::external_body]
pub(crate) fn elapsed_since_epoch(t: &SystemTime) -> Result<Duration, SystemTimeError> {
    t.duration_since(UNIX_EPOCH)
}

/// `Duration::as_nanos`: the whole nanoseconds of the duration; nothing is promised
/// of the value.
#[verifier::external_body]
pub(crate) fn nanos(d: &Duration) -> u128 {
    d.as_nanos()
}

} // verus!
