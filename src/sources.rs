//! What the library reads from outside itself: the clock and random draws.
use std::time::{Duration, SystemTime};
use vstd::prelude::*;

verus! {

#[verifier::external_type_specification]
#[verifier::external_body]
pub struct ExSystemTime(SystemTime);

/// A uniformly random value from the thread-local generator; nothing is
/// known of which.
pub assume_specification<T>[ rand::random::<T> ]() -> (r: T)
    where
        rand::distributions::Standard: rand::distributions::Distribution<T>,
;

/// Relies on `SystemTime::now` and `SystemTime::duration_since(UNIX_EPOCH)`:
/// the whole milliseconds since the Unix epoch, or `None` where the clock
/// reads earlier. The reading depends on the time, so nothing is promised of it.
#[verifier::external_body]
fn millis_since_epoch() -> (r: Option<u128>) {
    match SystemTime::now().duration_since(SystemTime::UNIX_EPOCH) {
        Ok(elapsed) => Some(elapsed.as_millis()),
        Err(_) => None,
    }
}

/// The milliseconds since the Unix epoch, 0 for a clock set before it.
pub(crate) fn unix_millis_now() -> (r: u128) {
    match millis_since_epoch() {
        Some(millis) => millis,
        None => 0,
    }
}

/// Relies on `Duration::from_millis` and adding it to `SystemTime::UNIX_EPOCH`:
/// the instant `millis` milliseconds after the epoch. Below 2 to the power 48
/// the sum stays far inside the range of a `SystemTime`.
#[verifier::external_body]
pub(crate) fn time_after_epoch(millis: u64) -> (r: SystemTime)
    requires
        millis < 0x1_0000_0000_0000,
{
    SystemTime::UNIX_EPOCH + Duration::from_millis(millis)
}

} // verus!
