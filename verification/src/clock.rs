use crate::model::Timestamp;
use vstd::prelude::*;

verus! {

/// Reads the system clock through `Utc::now` of the crate `chrono` and
/// takes the result apart with `timestamp` and `timestamp_subsec_nanos`.
/// Nothing is claimed of the time that comes back: two calls may give any
/// two values. `Utc::now` panics where the system clock stands before 1970.
#[verifier::external_body]
pub(crate) fn now() -> Timestamp {
    let t = chrono::Utc::now();
    Timestamp { seconds: t.timestamp(), nanos: t.timestamp_subsec_nanos() }
}

} // verus!
