//! Reading the system clock.

use vstd::prelude::*;

verus! {

/// Milliseconds since the Unix epoch, read from `std::time::SystemTime`.
/// Nothing is promised of the value: it depends on the machine's clock.
#[verifier::external_body]
pub(crate) fn clock_ms() -> u64 {
    std::time::SystemTime::now()
        .duration_since(std::time::UNIX_EPOCH)
        .map(|d| d.as_millis() as u64)
        .unwrap_or(0)
}

/// Nanoseconds since the Unix epoch, read from `std::time::SystemTime`
/// (zero when the clock reads before the epoch). Nothing is promised of the
/// value: it depends on the machine's clock.
#[verifier::external_body]
pub(crate) fn clock_nanos() -> u128 {
    std::time::SystemTime::now()
        .duration_since(std::time::UNIX_EPOCH)
        .unwrap_or_default()
        .as_nanos()
}

} // verus!
