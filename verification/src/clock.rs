//! Wall-clock access for the convenience entry points: the schedulers'
//! verified cores take explicit timestamps, and every contract holds for any
//! value the clock may return.

use vstd::prelude::*;

verus! {

/// Relies on `chrono::Utc::now` (via `DateTime::timestamp`): the current
/// wall-clock time as whole seconds since the Unix epoch. Nothing is assumed
/// of the value. Note that `chrono::Utc::now` itself aborts on a host clock
/// set before the epoch, an environmental failure outside any contract here,
/// like running out of memory.
#[verifier::external_body]
pub(crate) fn now_timestamp() -> i64 {
    chrono::Utc::now().timestamp()
}

} // verus!
