use vstd::prelude::*;

verus! {

/// Relies on chrono::Utc::now: the current UTC wall-clock time, reduced to
/// milliseconds since the Unix epoch. Nothing is promised of the value: it
/// depends on the machine's clock, so callers must hold for every outcome.
#[verifier::external_body]
pub(crate) fn now_millis() -> i64 {
    chrono::Utc::now().timestamp_millis()
}

} // verus!
