//! The wall clock, read through the `time` crate.
use vstd::prelude::*;
use time::OffsetDateTime;

verus! {

/// A date and time with a UTC offset.
#[verifier::external_type_specification]
#[verifier::external_body]
pub struct ExOffsetDateTime(OffsetDateTime);

/// Calls `time::OffsetDateTime::now_utc`. The result is the current time, so nothing is
/// claimed of it.
#[verifier::external_body]
fn now_utc() -> (r: OffsetDateTime) {
    OffsetDateTime::now_utc()
}

/// Calls `time::OffsetDateTime::unix_timestamp`. The value held in an `OffsetDateTime`
/// is opaque here, so nothing is claimed of the number of seconds it gives.
#[verifier::external_body]
fn unix_timestamp(t: &OffsetDateTime) -> (r: i64) {
    t.unix_timestamp()
}

/// The current UNIX timestamp, in seconds. It depends on the clock, so the contract
/// states nothing of it.
pub fn now_unix_timestamp() -> (r: i64) {
    let now = now_utc();
    unix_timestamp(&now)
}

} // verus!
