//! The present moment.

use vstd::prelude::*;

verus! {

/// The present moment in whole seconds since the epoch, as
/// `chrono::Utc::now().timestamp()` reads it from the system clock. Nothing
/// is claimed of the value: it is whatever the clock says. `Utc::now` does
/// not return when the clock is set before the epoch or beyond the years
/// that `chrono` can represent.
#[verifier::external_body]
pub(crate) fn now_timestamp() -> (now: i64) {
    chrono::Utc::now().timestamp()
}

} // verus!
