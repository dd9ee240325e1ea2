//! Wall-clock time in whole seconds since the Unix epoch.

use vstd::prelude::*;

verus! {

/// The system clock's time type.
#[verifier::external_type_specification]
#[verifier::external_body]
pub struct ExSystemTime(std::time::SystemTime);

/// `std::time::SystemTime::now`: the current time; nothing is promised of it.
#[verifier::external_body]
fn system_now() -> std::time::SystemTime {
    std::time::SystemTime::now()
}

/// `std::time::SystemTime::duration_since` with the Unix epoch as the earlier time:
/// `None` when the clock is set before the epoch; nothing more is promised.
#[verifier::external_body]
fn duration_since_epoch(t: std::time::SystemTime) -> Option<std::time::Duration> {
    t.duration_since(std::time::UNIX_EPOCH).ok()
}

/// `std::time::Duration::as_secs`: whole seconds of a duration; nothing is promised of it here.
#[verifier::external_body]
fn duration_secs(d: std::time::Duration) -> u64 {
    d.as_secs()
}

/// Seconds since the Unix epoch, zero when the clock reads earlier than the epoch.
pub fn unix_time_secs() -> u64 {
    match duration_since_epoch(system_now()) {
        Some(d) => duration_secs(d),
        None => 0,
    }
}

/// Seconds since the Unix epoch, truncated to 32 bits as in the wire formats.
pub fn unix_time_secs_u32() -> u32 {
    let t = unix_time_secs();
    (t & 0xffff_ffff) as u32
}

} // verus!
