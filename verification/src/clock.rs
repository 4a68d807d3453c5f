//! Reading the system clock.
use vstd::prelude::*;

verus! {

/// `SystemTime::now()` as whole seconds since the Unix epoch (0 before the epoch).
/// Nothing is claimed of the value: it is whatever the clock reads.
#[verifier::external_body]
pub(crate) fn unix_now_secs() -> i64 {
    std::time::SystemTime::now().duration_since(std::time::UNIX_EPOCH).unwrap_or_default().as_secs() as i64
}

/// `SystemTime::now()` as whole milliseconds since the Unix epoch (0 before the epoch).
/// Nothing is claimed of the value: it is whatever the clock reads.
#[verifier::external_body]
pub(crate) fn unix_now_millis() -> u64 {
    std::time::SystemTime::now().duration_since(std::time::UNIX_EPOCH).unwrap_or_default().as_millis() as u64
}

} // verus!
