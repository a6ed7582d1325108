use vstd::prelude::*;

use crate::model::Timestamp;

verus! {

/// Relies on std::time::SystemTime::now, read from the Unix epoch, and on
/// chrono::DateTime::from_timestamp with DateTime::timestamp_micros: the
/// current time, or `None` when the system clock reads before the epoch or
/// beyond the dates chrono represents. Nothing is promised of the value.
#[verifier::external_body]
pub(crate) fn clock_now() -> (r: Option<Timestamp>) {
    let since_epoch = std::time::SystemTime::now().duration_since(std::time::UNIX_EPOCH).ok()?;
    let secs = i64::try_from(since_epoch.as_secs()).ok()?;
    chrono::DateTime::from_timestamp(secs, since_epoch.subsec_nanos()).map(
        |t| Timestamp { micros: t.timestamp_micros() },
    )
}

} // verus!
