//! The time of the system clock.

use crate::error::{Error, ErrorKind};
use std::time::{Duration, SystemTime, SystemTimeError};
use vstd::prelude::*;

verus! {

/// Seconds since the start of the Unix epoch.
pub type Epoch = u64;

/// `std::time::SystemTime`, carried and never looked into.
#[verifier::external_type_specification]
#[verifier::external_body]
pub struct ExSystemTime(SystemTime);

/// `std::time::SystemTimeError`, carried and never looked into.
#[verifier::external_type_specification]
#[verifier::external_body]
pub struct ExSystemTimeError(SystemTimeError);

/// The whole seconds that a duration holds, as `Duration::as_secs` gives
/// them.
pub uninterp spec fn seconds_of(elapsed: Duration) -> u64;

/// `SystemTime::now`: the reading of the clock; nothing is known of it.
#[verifier::external_body]
fn system_now() -> SystemTime {
    SystemTime::now()
}

/// `SystemTime::duration_since`, from the start of the Unix epoch: fails
/// where `time` lies before it. Nothing is stated of the result.
#[verifier::external_body]
fn since_epoch(time: &SystemTime) -> Result<Duration, SystemTimeError> {
    time.duration_since(SystemTime::UNIX_EPOCH)
}

/// `Duration::as_secs`: the result is named, not stated.
#[verifier::external_body]
fn whole_seconds(elapsed: &Duration) -> (r: u64)
    ensures
        r == seconds_of(*elapsed),
{
    elapsed.as_secs()
}

/// The epoch time for what the clock gave: the whole seconds that have
/// passed since the start of the epoch, or an error where the clock stands
/// before it.
pub fn epoch_from(elapsed: Result<Duration, SystemTimeError>) -> (r: Result<Epoch, Error>)
    ensures
        match elapsed {
            Ok(passed) => r matches Ok(seconds) && seconds == seconds_of(passed),
            Err(_) => r matches Err(e) && e.kind == ErrorKind::ClockBeforeEpoch && e.path@.len()
                == 0,
        },
{
    match elapsed {
        Ok(passed) => Ok(whole_seconds(&passed)),
        Err(_) => Err(Error { kind: ErrorKind::ClockBeforeEpoch, path: Vec::new() }),
    }
}

/// The time of the system clock, in seconds since the start of the epoch.
pub fn current_time() -> (r: Result<Epoch, Error>)
    ensures
        r matches Err(e) ==> e.kind == ErrorKind::ClockBeforeEpoch && e.path@.len() == 0,
{
    let now = system_now();
    epoch_from(since_epoch(&now))
}

} // verus!
