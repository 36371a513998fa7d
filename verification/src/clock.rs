//! The wall clock, read through the `chrono` crate.

use vstd::prelude::*;

verus! {

/// Relies on `chrono::offset::Utc::now` and `chrono::DateTime::timestamp`:
/// the current time as a Unix timestamp in seconds. The result depends on
/// the wall clock, so nothing is promised of it.
#[verifier::external_body]
pub(crate) fn current_unix_timestamp() -> i64 {
    chrono::offset::Utc::now().timestamp()
}

} // verus!
