//! The current time in whole seconds since the Unix epoch.
use vstd::prelude::*;
use crate::error::AuthError;
use crate::outside::{duration_as_secs, duration_since_unix_epoch, system_time_now};

verus! {

/// What a clock reading comes to: `elapsed` is the whole seconds since the
/// epoch, or `None` where the clock stood before it. The seconds are taken as
/// an `i64` as `as` takes them, which keeps them unchanged up to `i64::MAX`.
pub fn clock_reading(elapsed: Option<u64>) -> (r: Result<i64, AuthError>)
    ensures
        match elapsed {
            Some(secs) => r == Ok::<i64, AuthError>(secs as i64),
            None => r == Err::<i64, AuthError>(AuthError::InvalidClock),
        },
        elapsed is Some && elapsed->0 <= i64::MAX ==> (r is Ok && r->Ok_0 == elapsed->0),
{
    match elapsed {
        Some(secs) => Ok(secs as i64),
        None => Err(AuthError::InvalidClock),
    }
}

/// Seconds since the Unix epoch by the system clock; `InvalidClock` when the
/// clock reads a time before the epoch. Nothing more can be said of a clock
/// reading: two calls may differ. What a reading comes to is `clock_reading`.
pub fn now_seconds() -> (r: Result<i64, AuthError>)
    ensures
        r matches Err(e) ==> e == AuthError::InvalidClock,
{
    let now = system_time_now();
    let elapsed = match duration_since_unix_epoch(now) {
        Ok(since) => Some(duration_as_secs(since)),
        Err(_) => None,
    };
    clock_reading(elapsed)
}

} // verus!
