//! The clock of the machine, read as milliseconds since the Unix epoch.
//!
//! Nothing is known of what the clock shows: a function that reads it states
//! what holds whatever the time is.

use std::time::{Duration, SystemTime, SystemTimeError, UNIX_EPOCH};
use vstd::prelude::*;

verus! {

/// `std::time::SystemTime`, a point in time on the clock of the machine.
/// Nothing of its value is visible here.
#[verifier::external_type_specification]
#[verifier::external_body]
pub struct ExSystemTime(std::time::SystemTime);

/// `std::time::SystemTimeError`, the error of `SystemTime::duration_since`
/// for a time that lies before the one it is measured from. Nothing of its
/// value is visible here.
#[verifier::external_type_specification]
#[verifier::external_body]
pub struct ExSystemTimeError(std::time::SystemTimeError);

/// `SystemTime::now` returns the time that the clock shows. Nothing is
/// claimed of it.
pub assume_specification[ std::time::SystemTime::now ]() -> (t: std::time::SystemTime)
;

/// `Duration::as_millis` returns the whole milliseconds of a duration.
/// Nothing is claimed of the number.
pub assume_specification[ core::time::Duration::as_millis ](d: &core::time::Duration) -> (ms: u128)
;

/// `SystemTime::duration_since`, measured from `UNIX_EPOCH`: the time that
/// has passed since the epoch, or an error where `t` lies before it. Nothing
/// is claimed of which of the two comes back, nor of the duration.
#[verifier::external_body]
fn since_epoch(t: &SystemTime) -> (r: Result<Duration, SystemTimeError>) {
    t.duration_since(UNIX_EPOCH)
}

/// The time now, in milliseconds since the Unix epoch; `None` where the
/// clock is set before the epoch.
pub fn unix_millis() -> (now: Option<u128>) {
    let t = SystemTime::now();
    match since_epoch(&t) {
        Ok(d) => Some(d.as_millis()),
        Err(_) => None,
    }
}

} // verus!
