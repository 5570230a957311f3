//! Readings of the system clock.

use vstd::prelude::*;

verus! {

/// Nanoseconds since the Unix epoch by the system clock.
///
/// Calls `std::time::SystemTime::elapsed` on `UNIX_EPOCH` and hands back the duration
/// in whole nanoseconds; a clock set before the epoch reads as 0. Nothing is claimed of
/// the value: it depends on the clock.
#[verifier::external_body]
fn nanos_since_epoch() -> u128 {
    match std::time::UNIX_EPOCH.elapsed() {
        Ok(d) => d.as_nanos(),
        Err(_) => 0,
    }
}

/// Nanoseconds since the Unix epoch, truncated to 64 bits.
pub(crate) fn now_ns() -> u64 {
    let n = nanos_since_epoch();
    (n % 0x1_0000_0000_0000_0000u128) as u64
}

/// Milliseconds since the Unix epoch, truncated to 64 bits.
pub(crate) fn now_millis() -> u64 {
    let n = nanos_since_epoch();
    ((n / 1_000_000u128) % 0x1_0000_0000_0000_0000u128) as u64
}

} // verus!
