//! Wall-clock timestamps of history entries.

use std::time::{Duration, SystemTime};

use vstd::prelude::*;

verus! {

/// `std::time::SystemTime`, carried opaquely.
#[verifier::external_type_specification]
#[verifier::external_body]
pub struct ExSystemTime(SystemTime);

/// Calls `SystemTime::now`. Nothing is stated of the result: it is the
/// current wall-clock time.
#[verifier::external_body]
pub(crate) fn system_time_now() -> SystemTime {
    SystemTime::now()
}

/// Calls `SystemTime::duration_since(UNIX_EPOCH)`; `None` stands for its error
/// (a time before the epoch). Nothing is stated of the result: a `SystemTime`
/// is opaque to the library.
#[verifier::external_body]
fn since_unix_epoch(t: &SystemTime) -> Option<Duration> {
    t.duration_since(std::time::UNIX_EPOCH).ok()
}

/// Calls `Duration::as_millis`. Nothing is stated of the result: a
/// `Duration` is opaque to the library.
#[verifier::external_body]
fn duration_millis(d: &Duration) -> u128 {
    d.as_millis()
}

/// What a timestamp in milliseconds comes to: `Some(m)` is cut to its low 64
/// bits (as `m as u64` does), `None` (a time before the epoch) gives 0.
pub open spec fn millis_or_zero_spec(ms: Option<u128>) -> u64 {
    match ms {
        Some(m) => (m % 0x1_0000_0000_0000_0000u128) as u64,
        None => 0,
    }
}

/// The stored timestamp for `ms`, the milliseconds since the Unix epoch if
/// the time is not before it: the low 64 bits of `ms`, or 0 for `None`.
pub fn millis_or_zero(ms: Option<u128>) -> (r: u64)
    ensures
        r == millis_or_zero_spec(ms),
{
    match ms {
        Some(m) => (m % 0x1_0000_0000_0000_0000u128) as u64,
        None => 0,
    }
}

/// Milliseconds since the Unix epoch of `t` (cut to 64 bits), or 0 for a
/// time before the epoch. The result is `millis_or_zero` of what
/// `SystemTime::duration_since` and `Duration::as_millis` return for `t`;
/// `t` is opaque to the library, so nothing more is stated here.
pub(crate) fn unix_millis(t: &SystemTime) -> u64 {
    let ms = match since_unix_epoch(t) {
        Some(d) => Some(duration_millis(&d)),
        None => None,
    };
    millis_or_zero(ms)
}

/// The `Debug` rendering of `t` (through `format!`). Nothing is stated of the
/// result: a `SystemTime` is opaque to the library.
#[verifier::external_body]
pub(crate) fn time_debug_text(t: &SystemTime) -> String {
    format!("{:?}", t)
}

} // verus!
