//! The current local wall-clock time, read once per tick and turned
//! into a [`Timestamp`](crate::timestamp::Timestamp).

use vstd::prelude::*;
use chrono::Datelike;
use chrono::Timelike;
use chrono::TimeZone;
use crate::timestamp::Timestamp;

verus! {

/// Relies on `std::time::SystemTime::now` read against the Unix epoch,
/// `chrono::TimeZone::timestamp_opt` for `chrono::Local`, and the
/// `Datelike` / `Timelike` accessors: `month` ranges over 1..=12, `day`
/// over 1..=31, `hour` over 0..=23, `minute` and `second` over 0..=59.
/// No range is documented for `year`, so none is assumed. The value
/// itself is the clock's and differs from call to call. A clock before
/// the epoch or outside chrono's representable range yields `None`
/// through the fallible conversions rather than a panic.
#[verifier::external_body]
fn now_fields() -> (r: Option<(i32, u32, u32, u32, u32, u32)>)
    ensures
        r matches Some(f) ==> {
            &&& 1 <= f.1 <= 12
            &&& 1 <= f.2 <= 31
            &&& f.3 <= 23
            &&& f.4 <= 59
            &&& f.5 <= 59
        },
{
    let since_epoch = match std::time::SystemTime::now().duration_since(std::time::UNIX_EPOCH) {
        Ok(d) => d,
        Err(_) => return None,
    };
    let secs = match i64::try_from(since_epoch.as_secs()) {
        Ok(s) => s,
        Err(_) => return None,
    };
    let t = match chrono::Local.timestamp_opt(secs, since_epoch.subsec_nanos()) {
        chrono::MappedLocalTime::Single(t) => t,
        _ => return None,
    };
    Some((t.year(), t.month(), t.day(), t.hour(), t.minute(), t.second()))
}

/// Reads the local clock and returns it as a `Timestamp`: `None` when
/// the clock cannot be read as a moment in years 0 through 9999.
pub fn now_timestamp() -> (r: Option<Timestamp>)
    ensures
        r matches Some(t) ==> t.valid(),
{
    match now_fields() {
        Some((year, month, day, hour, minute, second)) => Timestamp::from_fields(
            year,
            month,
            day,
            hour,
            minute,
            second,
        ),
        None => None,
    }
}

} // verus!
