//! The wall clock.  Timestamps come from the system time, so nothing is
//! assumed about the values; everything the engine guarantees about
//! timestamps is stated over the values actually obtained.

use vstd::prelude::*;

verus! {

/// Relies on chrono's `From<SystemTime>` conversion and
/// `DateTime::to_rfc3339`: the current UTC time in RFC 3339 text form.
/// The conversion is taken instead of `Utc::now`, which aborts on a
/// system clock set before the Unix epoch; the conversion handles that
/// case explicitly.  No property of the value is assumed.
#[verifier::external_body]
pub(crate) fn now_rfc3339() -> String {
    chrono::DateTime::<chrono::Utc>::from(std::time::SystemTime::now()).to_rfc3339()
}

/// Relies on chrono's `From<SystemTime>` conversion and
/// `DateTime::timestamp_nanos_opt`: the current time as nanoseconds since
/// the Unix epoch, where representable.  The conversion is taken instead
/// of `Utc::now` for the same pre-epoch reason as above.  No property of
/// the value is assumed.
#[verifier::external_body]
pub(crate) fn now_nanos_opt() -> Option<i64> {
    chrono::DateTime::<chrono::Utc>::from(std::time::SystemTime::now()).timestamp_nanos_opt()
}

} // verus!
