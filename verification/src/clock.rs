//! The wall clock, used to timestamp commit metadata.
use vstd::prelude::*;

verus! {

/// Relies on chrono's `From<SystemTime>` conversion and
/// `DateTime::to_rfc3339`: returns the current time as an RFC 3339
/// (ISO 8601) string. The conversion handles clocks set before 1970 without
/// panicking, and the rendered form — year, date, time, fraction and offset
/// — is well under 64 characters. The value depends on the clock, so
/// nothing further is promised of it.
#[verifier::external_body]
pub(crate) fn current_timestamp() -> (r: String)
    ensures
        r@.len() <= 64,
{
    chrono::DateTime::<chrono::Utc>::from(std::time::SystemTime::now()).to_rfc3339()
}

} // verus!
