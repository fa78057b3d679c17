//! The download window: calendar dates given on the command line and the
//! default start time.

use vstd::prelude::*;

use chrono::Datelike;

verus! {

/// Whether `y` is a leap year of the proleptic Gregorian calendar.
pub open spec fn is_leap_year(y: int) -> bool {
    y % 4 == 0 && (y % 100 != 0 || y % 400 == 0)
}

/// Number of days of month `m` of year `y`.
pub open spec fn days_in_month(y: int, m: int) -> int {
    if m == 2 {
        if is_leap_year(y) {
            29
        } else {
            28
        }
    } else if m == 4 || m == 6 || m == 9 || m == 11 {
        30
    } else {
        31
    }
}

/// `(y, m, d)` names a day of the calendar.
pub open spec fn is_calendar_date(y: int, m: int, d: int) -> bool {
    1 <= m <= 12 && 1 <= d <= days_in_month(y, m)
}

/// The years a `chrono::NaiveDate` can hold.
pub open spec fn in_date_range(y: int) -> bool {
    -262143 <= y <= 262142
}

/// Number of days from 1970-01-01 to the calendar date `(y, m, d)` (negative before it).
pub open spec fn days_from_civil(y: int, m: int, d: int) -> int {
    let yy = if m <= 2 {
        y - 1
    } else {
        y
    };
    let era = yy / 400;
    let yoe = yy - era * 400;
    let mp = if m > 2 {
        m - 3
    } else {
        m + 9
    };
    let doy = (153 * mp + 2) / 5 + d - 1;
    let doe = yoe * 365 + yoe / 4 - yoe / 100 + doy;
    era * 146097 + doe - 719468
}

/// Milliseconds in a day.
pub const MS_PER_DAY: i64 = 86_400_000;

/// What `chrono::NaiveDate::parse_from_str(s, fmt)` gives, as year, month and day.
pub uninterp spec fn parsed_calendar_date(s: Seq<char>, fmt: Seq<char>) -> Option<(i32, u32, u32)>;

/// `chrono::NaiveDate::parse_from_str`: reads a date from `s` in the format
/// `fmt`; a date it gives is a real calendar day within chrono's range.
#[verifier::external_body]
fn parse_calendar_date(s: &str, fmt: &str) -> (r: Option<(i32, u32, u32)>)
    ensures
        r == parsed_calendar_date(s@, fmt@),
        r matches Some((y, m, d)) ==> is_calendar_date(y as int, m as int, d as int) && in_date_range(
            y as int,
        ),
{
    match chrono::NaiveDate::parse_from_str(s, fmt) {
        Ok(date) => Some((date.year(), date.month(), date.day())),
        Err(_) => None,
    }
}

/// `chrono`'s `NaiveDate::and_hms_opt(0, 0, 0)`, `and_utc` and
/// `DateTime::timestamp_millis`: the milliseconds since 1970-01-01 UTC of
/// midnight at the start of `(y, m, d)`.
#[verifier::external_body]
fn utc_midnight_millis(y: i32, m: u32, d: u32) -> (ms: i64)
    requires
        is_calendar_date(y as int, m as int, d as int),
        in_date_range(y as int),
    ensures
        ms == days_from_civil(y as int, m as int, d as int) * MS_PER_DAY,
{
    let date = chrono::NaiveDate::from_ymd_opt(y, m, d).unwrap();
    date.and_hms_opt(0, 0, 0).unwrap().and_utc().timestamp_millis()
}

/// A date argument that is not of the form `YYYY-MM-DD`.
pub struct DateFormatError {
    pub input: String,
}

/// The milliseconds since 1970-01-01 UTC at which the day given as `YYYY-MM-DD` begins.
pub open spec fn date_start_ms(s: Seq<char>) -> Option<int> {
    match parsed_calendar_date(s, "%Y-%m-%d"@) {
        Some((y, m, d)) => Some(days_from_civil(y as int, m as int, d as int) * MS_PER_DAY),
        None => None,
    }
}

/// Reads a `YYYY-MM-DD` date and gives the UTC millisecond timestamp of its start.
pub fn parse_date_ms(s: &str) -> (r: Result<i64, DateFormatError>)
    ensures
        match date_start_ms(s@) {
            Some(ms) => r matches Ok(v) && v == ms,
            None => r matches Err(e) && e.input@ == s@,
        },
{
    match parse_calendar_date(s, "%Y-%m-%d") {
        Some((y, m, d)) => Ok(utc_midnight_millis(y, m, d)),
        None => Err(DateFormatError { input: s.to_owned() }),
    }
}

/// Milliseconds in the 30-day month the download window is measured in.
pub const MS_PER_MONTH: i64 = 2_592_000_000;

/// The default start of a download ending at `end_ms`: `months` 30-day months earlier.
pub fn default_start_ms(end_ms: i64, months: u32) -> (r: i64)
    requires
        end_ms - months * MS_PER_MONTH >= i64::MIN,
    ensures
        r == end_ms - months * MS_PER_MONTH,
{
    assert(months * MS_PER_MONTH <= 4294967295 * 2592000000) by (nonlinear_arith)
        requires
            months <= 4294967295,
    ;
    let span: i128 = (months as i128) * (MS_PER_MONTH as i128);
    let start: i128 = (end_ms as i128) - span;
    start as i64
}

/// Consecutive days of a month begin exactly one day apart.
pub proof fn lemma_next_day_start(y: int, m: int, d: int)
    requires
        is_calendar_date(y, m, d),
        is_calendar_date(y, m, d + 1),
    ensures
        days_from_civil(y, m, d + 1) == days_from_civil(y, m, d) + 1,
{
}

} // verus!
