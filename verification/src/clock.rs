use vstd::prelude::*;

verus! {

/// Relies on chrono's `Utc::now` for the current wall-clock time, reduced to
/// a Unix timestamp in whole seconds. Nothing is promised of the value:
/// callers state only what holds of every possible reading.
#[verifier::external_body]
pub(crate) fn now_timestamp() -> i64 {
    chrono::Utc::now().timestamp()
}

} // verus!
