//! The current time as whole seconds since the Unix epoch.
use std::time::{Duration, SystemTime, UNIX_EPOCH};
use vstd::prelude::*;

verus! {

#[verifier::external_type_specification]
#[verifier::external_body]
pub struct ExSystemTime(SystemTime);

/// `SystemTime::now`. Nothing is claimed of the instant it reads from the system clock.
#[verifier::external_body]
fn clock_now() -> SystemTime {
    SystemTime::now()
}

/// `SystemTime::duration_since(UNIX_EPOCH)`, with its error (a clock set before the epoch)
/// turned into `None`. Nothing is claimed of the duration.
#[verifier::external_body]
fn since_epoch(t: &SystemTime) -> Option<Duration> {
    t.duration_since(UNIX_EPOCH).ok()
}

/// `Duration::as_secs`. Nothing is claimed of the number: the duration is opaque here.
#[verifier::external_body]
fn whole_seconds(d: &Duration) -> u64 {
    d.as_secs()
}

/// The timestamp stored for a clock reading: the whole seconds since the epoch, as a
/// signed number (wrapping as `as i64` does), or 0 when the clock is before the epoch.
pub fn timestamp_from_secs(secs: Option<u64>) -> (r: i64)
    ensures
        r == match secs {
            Some(s) => s as i64,
            None => 0i64,
        },
{
    match secs {
        Some(s) => s as i64,
        None => 0,
    }
}

/// Seconds since the Unix epoch, now; 0 when the clock reads a time before the epoch.
/// What the system clock reads is not known here, so nothing is claimed of the value.
pub fn now() -> i64 {
    let t = clock_now();
    let secs = match since_epoch(&t) {
        Some(d) => Some(whole_seconds(&d)),
        None => None,
    };
    timestamp_from_secs(secs)
}

} // verus!
