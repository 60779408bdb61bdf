//! Access to the wall clock. The raw reading is the one thing here that is
//! taken on trust; the store only ever uses the clamped, non-negative form.

use vstd::prelude::*;

verus! {

/// Relies on chrono::Utc::now together with DateTime::timestamp: the current
/// time as whole seconds since the Unix epoch. Nothing is promised of the
/// value.
#[verifier::external_body]
fn now_timestamp_raw() -> i64 {
    chrono::Utc::now().timestamp()
}

/// The current Unix timestamp in seconds, clamped to be non-negative.
pub fn now_timestamp() -> (r: i64)
    ensures
        r >= 0,
{
    let t = now_timestamp_raw();
    if t < 0 {
        0
    } else {
        t
    }
}

} // verus!
