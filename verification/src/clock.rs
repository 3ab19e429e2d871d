use vstd::prelude::*;
use std::time::{Duration, SystemTime, SystemTimeError};

verus! {

#[verifier::external_type_specification]
#[verifier::external_body]
pub struct ExSystemTime(std::time::SystemTime);

#[verifier::external_type_specification]
#[verifier::external_body]
pub struct ExSystemTimeError(std::time::SystemTimeError);

/// Reads the system clock (std `SystemTime::now`). Trusted; nothing is claimed of the reading.
#[verifier::external_body]
fn clock_now() -> (t: SystemTime) {
    SystemTime::now()
}

/// The time from the Unix epoch to `t` (std `SystemTime::duration_since` with `UNIX_EPOCH`),
/// or an error when `t` is before the epoch. Trusted; nothing is claimed of the duration.
#[verifier::external_body]
fn since_epoch(t: &SystemTime) -> (r: Result<Duration, SystemTimeError>) {
    t.duration_since(std::time::UNIX_EPOCH)
}

/// The whole seconds of a duration (std `Duration::as_secs`). Trusted; the duration is opaque
/// here, so nothing is claimed of the count.
#[verifier::external_body]
fn whole_seconds(d: &Duration) -> (s: u64) {
    d.as_secs()
}

/// Seconds since the Unix epoch by the system clock; a clock set before the epoch reads 0.
pub(crate) fn unix_seconds_now() -> u64 {
    match since_epoch(&clock_now()) {
        Ok(d) => whole_seconds(&d),
        Err(_) => 0,
    }
}

/// The fraction of a second of a duration, in nanoseconds (std `Duration::subsec_nanos`).
/// Trusted: always below one billion, as std documents; nothing more is claimed.
#[verifier::external_body]
fn sub_second_nanos(d: &Duration) -> (n: u32)
    ensures
        n < 1_000_000_000,
{
    d.subsec_nanos()
}

/// The nanoseconds within the current second by the system clock (0 for a clock set before
/// the Unix epoch).
pub(crate) fn clock_subsec_nanos() -> (n: u32)
    ensures
        n < 1_000_000_000,
{
    match since_epoch(&clock_now()) {
        Ok(d) => sub_second_nanos(&d),
        Err(_) => 0,
    }
}

} // verus!
