use vstd::prelude::*;
use std::time::{Duration, SystemTime, SystemTimeError, UNIX_EPOCH};

verus! {

/// `std::time::SystemTime`, carried through opaquely.
#[verifier::external_type_specification]
#[verifier::external_body]
pub struct ExSystemTime(SystemTime);

/// `std::time::SystemTimeError`, carried through opaquely.
#[verifier::external_type_specification]
#[verifier::external_body]
pub struct ExSystemTimeError(SystemTimeError);

/// Relies on `SystemTime::now`: reads the wall clock; nothing is known of the value.
pub assume_specification[ SystemTime::now ]() -> SystemTime;

/// Relies on `SystemTime::duration_since` with `UNIX_EPOCH`: the span since the
/// epoch, or an error when `t` lies before it; which depends on the clock.
#[verifier::external_body]
fn since_epoch(t: &SystemTime) -> Result<Duration, SystemTimeError> {
    t.duration_since(UNIX_EPOCH)
}

/// Relies on `Duration::as_secs`: the whole seconds of a span.
pub assume_specification[ Duration::as_secs ](d: &Duration) -> u64;

/// A clock reading in whole seconds since the Unix epoch, cut to 32 bits;
/// `None` (a clock before the epoch) gives 0.
pub fn secs_u32(secs: Option<u64>) -> (r: u32)
    ensures
        r == match secs {
            Some(s) => s as u32,
            None => 0u32,
        },
{
    match secs {
        Some(s) => {
            #[verifier::truncate]
            (s as u32)
        },
        None => 0,
    }
}

/// Seconds since the Unix epoch, cut to 32 bits as `secs_u32` does; 0 when
/// the wall clock reads a time before the epoch.
pub fn now_secs() -> u32 {
    let now = SystemTime::now();
    match since_epoch(&now) {
        Ok(d) => secs_u32(Some(d.as_secs())),
        Err(_) => secs_u32(None),
    }
}

} // verus!
