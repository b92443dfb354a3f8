//! The wall clock, read in milliseconds.

use vstd::prelude::*;

verus! {

/// Reads `std::time::SystemTime::now` as milliseconds since the Unix epoch
/// (0 for a clock set before the epoch).  Nothing is claimed of the value.
#[verifier::external_body]
pub(crate) fn unix_time_millis() -> u64 {
    match std::time::SystemTime::now().duration_since(std::time::UNIX_EPOCH) {
        Ok(elapsed) => elapsed.as_millis() as u64,
        Err(_) => 0,
    }
}

} // verus!
