//! The wall clock. The engine samples it once per request.

use vstd::prelude::*;

verus! {

/// Milliseconds since the Unix epoch, read from the system clock.
///
/// Relies on chrono's `Utc::now` composed with `DateTime::timestamp_millis`.
/// The value depends on the wall clock, so nothing is promised of it; callers
/// treat it as an arbitrary sample and the engine's behaviour is specified
/// for every value.
#[verifier::external_body]
pub fn timestamp() -> (ts: i64) {
    chrono::offset::Utc::now().timestamp_millis()
}

} // verus!
