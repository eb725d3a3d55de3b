//! Conversions between entries and the rows of the database store, where times
//! are whole seconds since the epoch, the date and time taken as UTC.
use vstd::prelude::*;

use crate::datetime::{
    from_timestamp, lemma_timestamp_injective, lemma_timestamp_range, max_timestamp,
    min_timestamp, timestamp, to_timestamp, valid_datetime, DateTime,
};
use crate::log::{valid_entry, Entry};

verus! {

/// The whole-second date and time with timestamp `ts`.
pub open spec fn datetime_at(ts: int) -> DateTime {
    choose|t: DateTime| valid_datetime(t) && t.nanosecond == 0 && timestamp(t) == ts
}

/// A timestamp chrono can turn back into a date and time.
pub open spec fn ts_in_range(ts: int) -> bool {
    min_timestamp() <= ts <= max_timestamp()
}

/// Whether `ts` seconds after the epoch is a date and time chrono represents.
pub fn timestamp_in_range(ts: i64) -> (r: bool)
    ensures
        r == ts_in_range(ts as int),
{
    assert(min_timestamp() == -8334601228800);
    assert(max_timestamp() == 8210266876799);
    -8334601228800 <= ts && ts <= 8210266876799
}

/// Seconds since the epoch of `dt`, the fraction of a second dropped.
pub fn to_ts(dt: DateTime) -> (r: i64)
    requires
        valid_datetime(dt),
    ensures
        r == timestamp(dt),
{
    to_timestamp(&dt)
}

/// The date and time `ts` seconds after the epoch.
pub fn from_ts(ts: i64) -> (r: DateTime)
    requires
        ts_in_range(ts as int),
    ensures
        r == datetime_at(ts as int),
        valid_datetime(r),
        timestamp(r) == ts,
        r.nanosecond == 0,
{
    let r = from_timestamp(ts);
    proof {
        let t = datetime_at(ts as int);
        assert(valid_datetime(r) && r.nanosecond == 0 && timestamp(r) == ts);
        lemma_timestamp_injective(r, t);
    }
    r
}

/// Turning a whole-second date and time into seconds and back gives it again.
pub proof fn law_timestamp_round_trip(t: DateTime)
    requires
        valid_datetime(t),
        t.nanosecond == 0,
    ensures
        ts_in_range(timestamp(t)),
        datetime_at(timestamp(t)) == t,
{
    lemma_timestamp_range(t);
    let u = datetime_at(timestamp(t));
    assert(valid_datetime(t) && t.nanosecond == 0 && timestamp(t) == timestamp(t));
    lemma_timestamp_injective(u, t);
}

/// The entry of a row: its start and end in seconds since the epoch (no end
/// while it runs) and its tag.
pub fn entry_from_row(start_ts: i64, end_ts: Option<i64>, tag: String) -> (r: Entry)
    requires
        ts_in_range(start_ts as int),
        end_ts matches Some(e) ==> ts_in_range(e as int),
    ensures
        r.start == datetime_at(start_ts as int),
        match end_ts {
            Some(e) => r.end == Some(datetime_at(e as int)),
            None => r.end is None,
        },
        r.tag@ == tag@,
        valid_entry(r@),
{
    let start = from_ts(start_ts);
    let end = match end_ts {
        Some(e) => Some(from_ts(e)),
        None => None,
    };
    Entry { start, end, tag }
}

} // verus!
