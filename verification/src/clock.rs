//! The wall clock, behind a trusted boundary: nothing is assumed of the
//! value it returns.

use vstd::prelude::*;

verus! {

/// Relies on chrono's `Local::now` for the current local time as a
/// millisecond timestamp. The value depends on the wall clock, so nothing is
/// promised of it.
#[verifier::external_body]
pub fn now_millis() -> i64 {
    chrono::Local::now().timestamp_millis()
}

} // verus!
