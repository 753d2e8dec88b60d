//! The wall clock, in whole seconds since the Unix epoch.
//!
//! Nothing is known of what the clock reads. The functions of this crate that
//! read it say what holds whatever it reads; each has a twin that takes the
//! time as an argument and says exactly what it does.

use vstd::prelude::*;
use std::time::{Duration, SystemTime, SystemTimeError, UNIX_EPOCH};

verus! {

/// A point in time as the system clock gives it.
#[verifier::external_type_specification]
#[verifier::external_body]
pub struct ExSystemTime(std::time::SystemTime);

/// The failure of measuring from a later point in time to an earlier one.
#[verifier::external_type_specification]
#[verifier::external_body]
pub struct ExSystemTimeError(std::time::SystemTimeError);

/// Reads the system clock.
///
/// Trusted: wraps `SystemTime::now` of the standard library. Nothing is
/// claimed of what it returns.
#[verifier::external_body]
fn system_now() -> SystemTime {
    SystemTime::now()
}

/// The time that has passed from the Unix epoch to `t`, or an error if `t`
/// lies before the epoch.
///
/// Trusted: wraps `SystemTime::duration_since` of the standard library,
/// called with `UNIX_EPOCH`. Nothing is claimed of what it returns.
#[verifier::external_body]
fn since_epoch(t: &SystemTime) -> Result<Duration, SystemTimeError> {
    t.duration_since(UNIX_EPOCH)
}

/// The whole seconds of a span of time.
///
/// Trusted: wraps `Duration::as_secs` of the standard library. Nothing is
/// claimed of what it returns.
#[verifier::external_body]
fn whole_seconds(d: &Duration) -> u64 {
    d.as_secs()
}

/// The whole seconds that have passed since the Unix epoch; 0 if the clock
/// stands before the epoch.
pub fn unix_seconds() -> u64 {
    let now = system_now();
    match since_epoch(&now) {
        Ok(d) => whole_seconds(&d),
        Err(_) => 0,
    }
}

} // verus!
