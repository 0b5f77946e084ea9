//! The wall clock.

use vstd::prelude::*;

verus! {

/// The current wall-clock time in whole milliseconds since the Unix epoch.
///
/// Reads `chrono::Local::now()` and converts it with
/// `DateTime::timestamp_millis`. Nothing is claimed of the value: two calls
/// may return different times, and the clock may be set back between them.
///
/// The call takes no argument, so no precondition can rule out its panics:
/// chrono panics where the system clock stands before 1970 or the time zone
/// data of the machine yields no local time.
#[verifier::external_body]
pub(crate) fn now_millis() -> (now: i64) {
    chrono::Local::now().timestamp_millis()
}

} // verus!
