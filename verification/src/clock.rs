//! The wall clock, in milliseconds.
use std::time::{Duration, SystemTime, SystemTimeError};

use vstd::prelude::*;

verus! {

/// A point in time of the system clock.
#[verifier::external_type_specification]
#[verifier::external_body]
pub struct ExSystemTime(std::time::SystemTime);

/// Error of a clock that stands before the point it is measured from.
#[verifier::external_type_specification]
#[verifier::external_body]
pub struct ExSystemTimeError(std::time::SystemTimeError);

/// `SystemTime::now` reads the clock. Nothing is said of what it reads.
pub assume_specification[ std::time::SystemTime::now ]() -> (now: SystemTime)
;

/// `SystemTime::duration_since`. Nothing is said of the span: it comes from the
/// clock.
pub assume_specification[ std::time::SystemTime::duration_since ](
    time: &SystemTime,
    earlier: SystemTime,
) -> (span: Result<Duration, SystemTimeError>)
;

/// `Duration::as_millis`. Nothing is said of the number: it comes from the clock.
pub assume_specification[ std::time::Duration::as_millis ](span: &Duration) -> (ms: u128)
;

/// `SystemTime::UNIX_EPOCH`, the point that times are counted from.
#[verifier::external_body]
fn unix_epoch() -> (epoch: SystemTime) {
    SystemTime::UNIX_EPOCH
}

/// The clock's reading as a 64-bit number of milliseconds: zero where the clock
/// stands before the epoch.
pub fn clock_ms(since_epoch: Option<u128>) -> (ms: u64)
    ensures
        ms == (match since_epoch {
            Some(span) => span % 0x1_0000_0000_0000_0000,
            None => 0,
        }),
{
    match since_epoch {
        Some(span) => (span % 0x1_0000_0000_0000_0000) as u64,
        None => 0,
    }
}

/// Milliseconds since the Unix epoch. Nothing is said of the number but what
/// [`clock_ms`] makes of the clock.
pub fn now_ms() -> (ms: u64) {
    let span: Option<u128> = match SystemTime::now().duration_since(unix_epoch()) {
        Ok(span) => Some(span.as_millis()),
        Err(_) => None,
    };
    clock_ms(span)
}

} // verus!
