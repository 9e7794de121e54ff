//! The current time, from the system clock.

use vstd::prelude::*;

verus! {

/// The current time as seconds since the epoch.
///
/// Relies on `chrono::Utc::now`, which reads the system clock, and
/// `DateTime::timestamp`, which renders it as non-leap seconds since
/// 1970-01-01 UTC.  The clock's value depends on the machine and the
/// moment, so nothing is promised of the result; callers state what holds
/// whatever time comes back.  `Utc::now` itself aborts on a system clock
/// set before the epoch, so the call (like the whole program) assumes a
/// clock no earlier than 1970.
#[verifier::external_body]
pub fn now_epoch_secs() -> i64 {
    chrono::Utc::now().timestamp()
}

} // verus!
