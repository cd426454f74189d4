//! The process clock, behind a trusted boundary.

use vstd::prelude::*;

verus! {

/// Relies on `std::time::SystemTime::now` and `duration_since`: the whole
/// seconds since the Unix epoch, or `None` when the system clock is set
/// before the epoch. Neither call can panic. Time is no function of the
/// arguments, so nothing further is promised.
#[verifier::external_body]
fn now_unix_raw() -> Option<u64> {
    match std::time::SystemTime::now().duration_since(std::time::UNIX_EPOCH) {
        Ok(d) => Some(d.as_secs()),
        Err(_) => None,
    }
}

/// The current Unix timestamp in seconds; a clock set before the epoch
/// reads as zero.
pub(crate) fn now_unix_seconds() -> u64 {
    match now_unix_raw() {
        Some(t) => t,
        None => 0,
    }
}

} // verus!
