//! The wall clock, read through chrono.

use vstd::prelude::*;

verus! {

/// Relies on chrono's `DateTime::<Utc>::to_rfc3339`: formats the current
/// system time as an RFC 3339 UTC timestamp. The result depends on the
/// moment of the call, so nothing is claimed of it.
#[verifier::external_body]
pub(crate) fn now_rfc3339() -> Vec<u8> {
    let now: chrono::DateTime<chrono::Utc> = std::time::SystemTime::now().into();
    now.to_rfc3339().into_bytes()
}

} // verus!
