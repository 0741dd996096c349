//! The system clock.
use vstd::prelude::*;

use std::time::{Duration, SystemTime, SystemTimeError};

verus! {

/// A reading of the system clock.
#[verifier::external_type_specification]
#[verifier::external_body]
pub struct ExSystemTime(std::time::SystemTime);

/// The error of a clock reading earlier than the time it is compared with.
#[verifier::external_type_specification]
#[verifier::external_body]
pub struct ExSystemTimeError(std::time::SystemTimeError);

/// Calls `std::time::SystemTime::now`: the current reading of the system
/// clock. It depends on the time of the call, so nothing is promised of it.
#[verifier::external_body]
fn system_now() -> SystemTime {
    SystemTime::now()
}

/// Calls `SystemTime::duration_since` with `std::time::UNIX_EPOCH`: the time
/// elapsed since the Unix epoch, or an error when `t` lies before it. Nothing
/// is promised of which, nor of the duration.
#[verifier::external_body]
fn since_epoch(t: &SystemTime) -> Result<Duration, SystemTimeError> {
    t.duration_since(std::time::UNIX_EPOCH)
}

/// Gives `std::time::Duration::ZERO`, the empty duration (what
/// `Duration::default` gives). Nothing about `Duration` is visible to the
/// verifier, so nothing is stated of it.
#[verifier::external_body]
fn no_time() -> Duration {
    Duration::ZERO
}

/// Calls `Duration::as_millis`: the number of whole milliseconds in `d`.
/// Nothing about `Duration` is visible to the verifier, so nothing is stated
/// of it.
#[verifier::external_body]
fn whole_millis(d: &Duration) -> u128 {
    d.as_millis()
}

/// The current time in whole milliseconds since the Unix epoch (0 when the
/// clock reads earlier than the epoch), truncated to 64 bits. It depends on
/// the time of the call, so nothing is promised of it.
pub(crate) fn now_millis() -> u64 {
    let elapsed = match since_epoch(&system_now()) {
        Ok(d) => d,
        Err(_) => no_time(),
    };
    whole_millis(&elapsed) as u64
}

} // verus!
