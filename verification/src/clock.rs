//! Calendar arithmetic, parsing and formatting, done by `chrono`.
use std::fmt::Write;
use vstd::prelude::*;

verus! {

#[verifier::external_type_specification]
#[verifier::external_body]
pub struct ExChronoParseError(chrono::format::ParseError);

/// A leap year of the proleptic Gregorian calendar.
pub open spec fn is_leap_year(y: int) -> bool {
    y % 4 == 0 && (y % 100 != 0 || y % 400 == 0)
}

/// The number of days of a month.
pub open spec fn month_days(y: int, m: int) -> int {
    if m == 2 {
        if is_leap_year(y) {
            29
        } else {
            28
        }
    } else if m == 4 || m == 6 || m == 9 || m == 11 {
        30
    } else {
        31
    }
}

/// The number of days from 1970-01-01 to the given date of the proleptic
/// Gregorian calendar (negative before it).
pub open spec fn days_from_civil(y: int, m: int, d: int) -> int {
    let yy = if m <= 2 {
        y - 1
    } else {
        y
    };
    let era = yy / 400;
    let yoe = yy - era * 400;
    let doy = (153 * (if m > 2 {
        m - 3
    } else {
        m + 9
    }) + 2) / 5 + d - 1;
    let doe = yoe * 365 + yoe / 4 - yoe / 100 + doy;
    era * 146097 + doe - 719468
}

/// Milliseconds since the Unix epoch of the UTC date and time with the given
/// calendar fields, as chrono computes them, or `None` where chrono rejects
/// the fields: a year outside -262143..=262142, no such month or day, an
/// hour, minute or second out of range, or a millisecond of 1000 or more
/// outside a leap second (second 59, below 2000).
#[verifier::opaque]
pub open spec fn civil_utc_millis(
    year: i32,
    month: u32,
    day: u32,
    hour: u32,
    minute: u32,
    second: u32,
    milli: u32,
) -> Option<i64> {
    if -262143 <= year <= 262142 && 1 <= month <= 12 && 1 <= day <= month_days(year as int, month as int)
        && hour < 24 && minute < 60 && second < 60 && (milli < 1000 || (second == 59 && milli < 2000)) {
        Some(
            ((days_from_civil(year as int, month as int, day as int) * 86400 + hour * 3600 + minute * 60
                + second) * 1000 + milli) as i64,
        )
    } else {
        None
    }
}

/// Milliseconds since the Unix epoch of the naive date-time that chrono reads
/// from `text` with the strftime-style `format`, taken as UTC, or `None`
/// where chrono does not accept the text.
pub uninterp spec fn parsed_utc_millis(text: Seq<char>, format: Seq<char>) -> Option<i64>;

/// The text that chrono renders for the UTC instant `millis` milliseconds
/// after the Unix epoch with the strftime-style `format`, or `None` where the
/// instant is outside chrono's range or the format cannot be rendered.
pub uninterp spec fn utc_millis_text(millis: i64, format: Seq<char>) -> Option<Seq<char>>;

/// `chrono::NaiveDate::from_ymd_opt`, then `NaiveDate::and_hms_milli_opt`,
/// then `NaiveDateTime::and_utc().timestamp_millis()`: the contract claims
/// the result stated by `civil_utc_millis`: chrono's range and validity
/// checks, and the count of milliseconds of the proleptic Gregorian calendar.
#[verifier::external_body]
pub(crate) fn utc_millis_from_civil(
    year: i32,
    month: u32,
    day: u32,
    hour: u32,
    minute: u32,
    second: u32,
    milli: u32,
) -> (r: Option<i64>)
    ensures
        r == civil_utc_millis(year, month, day, hour, minute, second, milli),
{
    match chrono::NaiveDate::from_ymd_opt(year, month, day) {
        Some(date) => match date.and_hms_milli_opt(hour, minute, second, milli) {
            Some(dt) => Some(dt.and_utc().timestamp_millis()),
            None => None,
        },
        None => None,
    }
}

/// The decimal value of the characters `s[a..b]`.
pub open spec fn decimal_at(s: Seq<char>, a: int, b: int) -> int
    decreases b - a,
{
    if b <= a {
        0
    } else {
        decimal_at(s, a, b - 1) * 10 + (s[b - 1] as int - 48)
    }
}

pub open spec fn is_decimal_char(c: char) -> bool {
    48 <= c as int <= 57
}

/// A date and time written `YYYY?MM?DD HH:MM:SS.fff`, with `sep` for `?`,
/// decimal digits elsewhere and at most 59 seconds.
pub open spec fn plain_datetime(s: Seq<char>, sep: char) -> bool {
    &&& s.len() == 23
    &&& forall|i: int|
        0 <= i < 23 && i != 4 && i != 7 && i != 10 && i != 13 && i != 16 && i != 19 ==> is_decimal_char(
            #[trigger] s[i],
        )
    &&& s[4] == sep
    &&& s[7] == sep
    &&& s[10] == ' '
    &&& s[13] == ':'
    &&& s[16] == ':'
    &&& s[19] == '.'
    &&& decimal_at(s, 17, 19) <= 59
}

/// The instant such a text names, as calendar fields read from its digits.
pub open spec fn plain_datetime_millis(s: Seq<char>) -> Option<i64> {
    civil_utc_millis(
        decimal_at(s, 0, 4) as i32,
        decimal_at(s, 5, 7) as u32,
        decimal_at(s, 8, 10) as u32,
        decimal_at(s, 11, 13) as u32,
        decimal_at(s, 14, 16) as u32,
        decimal_at(s, 17, 19) as u32,
        decimal_at(s, 20, 23) as u32,
    )
}

/// The format with milliseconds for dates separated by `sep`.
pub open spec fn millis_format(sep: char) -> Seq<char> {
    if sep == '-' {
        "%Y-%m-%d %H:%M:%S%.3f"@
    } else {
        "%Y/%m/%d %H:%M:%S%.3f"@
    }
}

/// `chrono::NaiveDateTime::parse_from_str` followed by
/// `and_utc().timestamp_millis()`: claims that success and the value are
/// those named by `parsed_utc_millis` of the text and the format. For a
/// plain `YYYY-MM-DD HH:MM:SS.fff` or `YYYY/MM/DD HH:MM:SS.fff` text it also
/// claims what chrono's parser does: the format with milliseconds and the
/// same separator reads the calendar fields (and fails where they name no
/// instant), and the other three date-time formats of this library fail,
/// on the separator or on the unread milliseconds.
#[verifier::external_body]
pub(crate) fn parse_utc_millis(text: &str, format: &str) -> (r: Result<i64, chrono::format::ParseError>)
    ensures
        r is Ok <==> parsed_utc_millis(text@, format@) is Some,
        r matches Ok(v) ==> parsed_utc_millis(text@, format@) == Some(v),
        (plain_datetime(text@, '-') || plain_datetime(text@, '/')) && format@ == millis_format(text@[4])
            ==> match r {
            Ok(v) => plain_datetime_millis(text@) == Some(v),
            Err(_) => plain_datetime_millis(text@) is None,
        },
        (plain_datetime(text@, '-') || plain_datetime(text@, '/')) && format@ != millis_format(text@[4]) && (
        format@ == "%Y-%m-%d %H:%M:%S%.3f"@ || format@ == "%Y/%m/%d %H:%M:%S%.3f"@ || format@
            == "%Y-%m-%d %H:%M:%S"@ || format@ == "%Y/%m/%d %H:%M:%S"@) ==> r is Err,
{
    match chrono::NaiveDateTime::parse_from_str(text, format) {
        Ok(dt) => Ok(dt.and_utc().timestamp_millis()),
        Err(e) => Err(e),
    }
}

/// `chrono::Utc.timestamp_millis_opt(millis).earliest()` rendered with
/// `DateTime::format(format)`: claims that the text is the one named by
/// `utc_millis_text` of the instant and the format.
#[verifier::external_body]
pub(crate) fn render_utc_millis(millis: i64, format: &str) -> (r: Option<String>)
    ensures
        match r {
            Some(s) => utc_millis_text(millis, format@) == Some(s@),
            None => utc_millis_text(millis, format@) is None,
        },
{
    let dt = chrono::TimeZone::timestamp_millis_opt(&chrono::Utc, millis).earliest()?;
    let mut out = String::new();
    match write!(out, "{}", dt.format(format)) {
        Ok(()) => Some(out),
        Err(_) => None,
    }
}

} // verus!
