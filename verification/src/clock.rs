//! The engine's only external dependency: a wall-clock reading.

use vstd::prelude::*;

verus! {

/// Relies on chrono::Utc::now and DateTime::timestamp_millis: the current
/// wall-clock time as milliseconds since the Unix epoch. Nothing is assumed
/// of the value; callers that need reproducible timestamps pass their own
/// through the `..._at` entry points. The call fails only on a system clock
/// set before the Unix epoch.
#[verifier::external_body]
pub(crate) fn now_millis() -> i64 {
    chrono::Utc::now().timestamp_millis()
}

} // verus!
