//! The wall clock.

use crate::model::Timestamp;
use vstd::prelude::*;

verus! {

/// Reads the current time with `chrono::Utc::now` and gives it in milliseconds
/// since the Unix epoch, as `DateTime::timestamp_millis` counts them.
///
/// Trusted: the value depends on the moment of the call, so nothing is claimed
/// of it. The call fails only where the system clock stands before the epoch.
#[verifier::external_body]
pub(crate) fn current_time() -> (now: Timestamp) {
    chrono::Utc::now().timestamp_millis()
}

} // verus!
