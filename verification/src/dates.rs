//! Calendar dates, modelled as Unix timestamps at one-second resolution.
//!
//! A date column holds the timestamps of the midnights (UTC) of its two
//! bounds; a sampled instant between them is rendered as `YYYY-MM-DD`.  The
//! calendar arithmetic itself is chrono's, behind named results.

use vstd::prelude::*;

verus! {

/// The smallest midnight timestamp chrono can represent
/// (January 1 of year -262143, UTC).
pub const TS_MIN: i64 = -8_334_601_228_800;

/// The largest midnight timestamp chrono can represent
/// (December 31 of year 262142, UTC).
pub const TS_MAX: i64 = 8_210_266_790_400;

/// The Unix timestamp of midnight (UTC) on the proleptic Gregorian date
/// `y-m-d`, as chrono computes it.
pub uninterp spec fn date_ts(y: int, m: int, d: int) -> int;

/// The `YYYY-MM-DD` rendering of the day holding timestamp `t`, as chrono
/// formats it.
pub uninterp spec fn ymd_of(t: int) -> Seq<char>;

/// Whether year `y` is a leap year of the proleptic Gregorian calendar.
pub open spec fn spec_is_leap_year(y: int) -> bool {
    y % 4 == 0 && (y % 100 != 0 || y % 400 == 0)
}

/// Days in month `m` of year `y`.
pub open spec fn spec_days_in_month(y: int, m: int) -> int
    recommends
        1 <= m <= 12,
{
    if m == 2 {
        if spec_is_leap_year(y) {
            29
        } else {
            28
        }
    } else if m == 4 || m == 6 || m == 9 || m == 11 {
        30
    } else {
        31
    }
}

/// Whether `y-m-d` is a calendar date that chrono can represent.
pub open spec fn spec_valid_ymd(y: int, m: int, d: int) -> bool {
    &&& -262143 <= y <= 262142
    &&& 1 <= m <= 12
    &&& 1 <= d <= spec_days_in_month(y, m)
}

/// Relies on chrono's `NaiveDate::from_ymd_opt`, `NaiveDate::and_hms_opt`
/// and `NaiveDateTime::timestamp`: the midnight timestamp of a calendar
/// date, defined exactly for the dates chrono represents, always within
/// `[TS_MIN, TS_MAX]`.
#[verifier::external_body]
pub fn ts_of_ymd(y: i32, m: u32, d: u32) -> (r: Option<i64>)
    ensures
        r is Some <==> spec_valid_ymd(y as int, m as int, d as int),
        r matches Some(t) ==> t == date_ts(y as int, m as int, d as int) && TS_MIN <= t
            <= TS_MAX,
{
    match chrono::NaiveDate::from_ymd_opt(y, m, d) {
        Some(nd) => Some(nd.and_hms_opt(0, 0, 0)?.and_utc().timestamp()),
        None => None,
    }
}

/// Relies on chrono's `DateTime::from_timestamp` (defined on all of
/// `[TS_MIN, TS_MAX]`) and its `%Y-%m-%d` formatting.
#[verifier::external_body]
pub fn ymd_string_of_ts(t: i64) -> (r: String)
    requires
        TS_MIN <= t <= TS_MAX,
    ensures
        r@ == ymd_of(t as int),
{
    let dt = chrono::DateTime::from_timestamp(t, 0).unwrap();
    dt.format("%Y-%m-%d").to_string()
}

} // verus!
