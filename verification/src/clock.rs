use vstd::prelude::*;

verus! {

/// Relies on chrono: `Utc::now().timestamp()` is the machine clock's
/// reading in seconds since the epoch.  Nothing is promised of its value;
/// note that chrono aborts the process should the clock read before the
/// epoch, which no realistic host does.
#[verifier::external_body]
pub(crate) fn now_epoch_seconds() -> i64 {
    chrono::Utc::now().timestamp()
}

/// Relies on chrono: `Local.offset_from_utc_datetime(..).local_minus_utc()`
/// is the machine time zone's offset at the given instant, and chrono's
/// `FixedOffset` only ever holds seconds strictly within one day.
#[verifier::external_body]
pub(crate) fn local_offset_seconds(ts: i64) -> (r: i32)
    requires
        -crate::sample::MAX_TIMESTAMP <= ts <= crate::sample::MAX_TIMESTAMP,
    ensures
        -86400 < r < 86400,
{
    match chrono::DateTime::<chrono::Utc>::from_timestamp(ts, 0) {
        Some(dt) => chrono::TimeZone::offset_from_utc_datetime(&chrono::Local, &dt.naive_utc())
            .local_minus_utc(),
        None => 0,
    }
}

} // verus!
