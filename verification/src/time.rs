//! Timestamps, and the arithmetic that turns a date and a time of day into
//! seconds since the Unix epoch.

use vstd::prelude::*;
use crate::bytes::COLON;
use crate::error::ParseErrorKind;
use crate::bytes::is_digit;
use crate::number::{all_digits, digits_value, parse_digits, DOT, MINUS};

verus! {

/// The byte of `T`.
pub const UPPER_T: u8 = 0x54;

/// The byte of `Z`.
pub const UPPER_Z: u8 = 0x5a;

/// A point in time, in UTC: whole seconds since 1970-01-01T00:00:00Z, which
/// are negative before that, and the nanoseconds that follow them.
#[derive(Clone, Copy, Debug, PartialEq, Eq, Structural, Hash)]
pub struct Timestamp {
    /// Seconds since the Unix epoch.
    pub secs: i64,
    /// Nanoseconds after `secs`.
    pub nanos: u32,
}

/// Whether `year` is a leap year of the proleptic Gregorian calendar.
pub open spec fn is_leap_year(year: int) -> bool {
    year % 4 == 0 && (year % 100 != 0 || year % 400 == 0)
}

/// The number of days in `year`.
pub open spec fn days_in_year(year: int) -> int {
    if is_leap_year(year) {
        366
    } else {
        365
    }
}

/// The number of days in month `month` (1 to 12) of `year`.
pub open spec fn days_in_month(year: int, month: int) -> int {
    if month == 2 {
        if is_leap_year(year) {
            29
        } else {
            28
        }
    } else if month == 4 || month == 6 || month == 9 || month == 11 {
        30
    } else {
        31
    }
}

/// The number of days from the first day of 1970 to the first day of `year`:
/// the days of the years between the two, negative before 1970.
pub open spec fn days_before_year(year: int) -> int
    decreases
        (if year >= 1970 {
            year - 1970
        } else {
            1970 - year
        }),
{
    if year == 1970 {
        0
    } else if year > 1970 {
        days_before_year(year - 1) + days_in_year(year - 1)
    } else {
        days_before_year(year + 1) - days_in_year(year)
    }
}

/// The number of days of `year` that lie before its month `month` (1 to 12).
pub open spec fn days_before_month(year: int, month: int) -> int
    decreases month,
{
    if month <= 1 {
        0
    } else {
        days_before_month(year, month - 1) + days_in_month(year, month - 1)
    }
}

/// The number of days from 1970-01-01 to the given date. A month outside
/// 1 to 12 counts on into the years after or before, and a day outside the
/// month into the months after or before: month 13 is the next January,
/// day 0 the last day of the month before.
pub open spec fn epoch_days(year: int, month: int, day: int) -> int {
    let months = year * 12 + (month - 1);
    days_before_year(months / 12) + days_before_month(months / 12, months % 12 + 1) + (day - 1)
}

/// The number of seconds from 1970-01-01T00:00:00Z to the given date and
/// time of day, without leap seconds. Hours, minutes and seconds outside
/// their usual range count on like months and days.
pub open spec fn epoch_seconds(
    year: int,
    month: int,
    day: int,
    hour: int,
    minute: int,
    second: int,
) -> int {
    epoch_days(year, month, day) * 86400 + hour * 3600 + minute * 60 + second
}

/// The leap years among the `n - 1` years that follow a multiple of 400.
pub open spec fn leap_years_below(n: int) -> int {
    (n - 1) / 4 - (n - 1) / 100 + (n - 1) / 400
}

/// From one year to the next the count of leap years grows by one exactly
/// when the first of the two is a leap year.
proof fn lemma_leap_step(year: int)
    requires
        -12000 < year,
    ensures
        leap_years_below(year + 12001) - leap_years_below(year + 12000) == if is_leap_year(year) {
            1int
        } else {
            0int
        },
        is_leap_year(year + 12000) == is_leap_year(year),
{
    let n = year + 12000;
    assert(n / 4 - (n - 1) / 4 == if n % 4 == 0 { 1int } else { 0int });
    assert(n / 100 - (n - 1) / 100 == if n % 100 == 0 { 1int } else { 0int });
    assert(n / 400 - (n - 1) / 400 == if n % 400 == 0 { 1int } else { 0int });
    assert(n % 4 == year % 4);
    assert(n % 100 == year % 100);
    assert(n % 400 == year % 400);
}

/// `days_before_year` in closed form: 365 days a year and one more for each
/// leap year, counted from the year -12000, below which no input lies.
pub proof fn lemma_days_before_year(year: int)
    requires
        -12000 < year,
    ensures
        days_before_year(year) == 365 * (year - 1970) + leap_years_below(year + 12000)
            - leap_years_below(13970),
    decreases
        (if year >= 1970 {
            year - 1970
        } else {
            1970 - year
        }),
{
    if year > 1970 {
        lemma_days_before_year(year - 1);
        lemma_leap_step(year - 1);
    } else if year < 1970 {
        lemma_days_before_year(year + 1);
        lemma_leap_step(year);
    }
}

/// The days of a year before one of its months depend on the year only by
/// whether it is a leap year.
proof fn lemma_days_before_month(year: int, month: int)
    requires
        1 <= month <= 12,
    ensures
        days_before_month(year, month) == (if month == 1 {
            0int
        } else if month == 2 {
            31int
        } else {
            (if is_leap_year(year) {
                1int
            } else {
                0int
            }) + (if month == 3 {
                59int
            } else if month == 4 {
                90int
            } else if month == 5 {
                120int
            } else if month == 6 {
                151int
            } else if month == 7 {
                181int
            } else if month == 8 {
                212int
            } else if month == 9 {
                243int
            } else if month == 10 {
                273int
            } else if month == 11 {
                304int
            } else {
                334int
            })
        }),
{
    reveal_with_fuel(days_before_month, 13);
}

/// Days from the first day of 1970 to the first day of the year
/// `shifted - 12000`.
fn days_to_year(shifted: i64) -> (r: i64)
    requires
        0 < shifted < 30000,
    ensures
        r == days_before_year(shifted - 12000),
        -6000000 < r < 6000000,
{
    proof {
        lemma_days_before_year(shifted - 12000);
    }
    let leaps: i64 = (shifted - 1) / 4 - (shifted - 1) / 100 + (shifted - 1) / 400;
    // 13970 stands for 1970, and 3387 leap years lie below it.
    365 * (shifted - 13970) + leaps - 3387
}

/// Days of the year `shifted - 12000` that lie before its month `month`.
fn days_to_month(shifted: i64, month: i64) -> (r: i64)
    requires
        0 < shifted < 30000,
        1 <= month <= 12,
    ensures
        r == days_before_month(shifted - 12000, month as int),
        0 <= r < 366,
{
    proof {
        lemma_days_before_month(shifted - 12000, month as int);
        lemma_leap_step(shifted - 12000);
    }
    let leap = shifted % 4 == 0 && (shifted % 100 != 0 || shifted % 400 == 0);
    let common: i64 = if month == 1 {
        0
    } else if month == 2 {
        31
    } else if month == 3 {
        59
    } else if month == 4 {
        90
    } else if month == 5 {
        120
    } else if month == 6 {
        151
    } else if month == 7 {
        181
    } else if month == 8 {
        212
    } else if month == 9 {
        243
    } else if month == 10 {
        273
    } else if month == 11 {
        304
    } else {
        334
    };
    if leap && month > 2 {
        common + 1
    } else {
        common
    }
}

/// Seconds from the Unix epoch to a date and time of day in UTC. None of the
/// six numbers need lie in its usual range: each may be any number of up to
/// four digits for the year and two for the others, with either sign.
pub fn seconds_since_epoch(
    year: i64,
    month: i64,
    day: i64,
    hour: i64,
    minute: i64,
    second: i64,
) -> (r: i64)
    requires
        -10000 < year < 10000,
        -100 < month < 100,
        -100 < day < 100,
        -100 < hour < 100,
        -100 < minute < 100,
        -100 < second < 100,
    ensures
        r == epoch_seconds(
            year as int,
            month as int,
            day as int,
            hour as int,
            minute as int,
            second as int,
        ),
{
    // Months are counted from the year -12000, a multiple of 400 that lies
    // before all input, so that every division is one of positive numbers.
    let months: i64 = (year + 12000) * 12 + (month - 1);
    let shifted: i64 = months / 12;
    let m: i64 = months % 12 + 1;
    proof {
        let total = year * 12 + (month - 1);
        assert(total == 12 * (shifted - 12000) + (m - 1));
        assert(total / 12 == shifted - 12000 && total % 12 + 1 == m);
    }
    let days: i64 = days_to_year(shifted) + days_to_month(shifted, m) + (day - 1);
    days * 86400 + hour * 3600 + minute * 60 + second
}

/// Whether `value` has the shape `yyyy-mm-ddThh:mm:ss.nnnnnnZ`: 27 bytes
/// with the seven separators in their places.
pub open spec fn timestamp_shape(value: Seq<u8>) -> bool {
    &&& value.len() == 27
    &&& value[4] == MINUS
    &&& value[7] == MINUS
    &&& value[10] == UPPER_T
    &&& value[13] == COLON
    &&& value[16] == COLON
    &&& value[19] == DOT
    &&& value[26] == UPPER_Z
}

/// The number that the bytes of `value` from `from` up to `to` write, where
/// all of them are decimal digits.
pub open spec fn digits_at(value: Seq<u8>, from: int, to: int) -> Option<int> {
    let part = value.subrange(from, to);
    if all_digits(part) {
        Some(digits_value(part))
    } else {
        None
    }
}

/// The timestamp that `value` writes: it has the shape of a timestamp, and
/// every byte between the separators is a decimal digit. The six digits of
/// the fraction count microseconds, which are scaled to nanoseconds.
pub open spec fn timestamp_of(value: Seq<u8>) -> Option<Timestamp> {
    if !timestamp_shape(value) {
        None
    } else {
        match (
            digits_at(value, 0, 4),
            digits_at(value, 5, 7),
            digits_at(value, 8, 10),
            digits_at(value, 11, 13),
            digits_at(value, 14, 16),
            digits_at(value, 17, 19),
            digits_at(value, 20, 26),
        ) {
            (Some(year), Some(month), Some(day), Some(hour), Some(minute), Some(second), Some(micros)) => Some(
                Timestamp {
                    secs: epoch_seconds(year, month, day, hour, minute, second) as i64,
                    nanos: (micros * 1000) as u32,
                },
            ),
            _ => None,
        }
    }
}

/// A number of at most `n` digits is below the n-th power of ten.
proof fn lemma_digits_bound(s: Seq<u8>)
    requires
        all_digits(s),
        s.len() <= 6,
    ensures
        0 <= digits_value(s),
        s.len() <= 1 ==> digits_value(s) < 10,
        s.len() <= 2 ==> digits_value(s) < 100,
        s.len() <= 3 ==> digits_value(s) < 1000,
        s.len() <= 4 ==> digits_value(s) < 10000,
        s.len() <= 5 ==> digits_value(s) < 100000,
        s.len() <= 6 ==> digits_value(s) < 1000000,
    decreases s.len(),
{
    if s.len() > 0 {
        let t = s.drop_last();
        assert forall|i: int| 0 <= i < t.len() implies is_digit(#[trigger] t[i]) by {
            assert(t[i] == s[i]);
        }
        lemma_digits_bound(t);
        assert(is_digit(s[s.len() - 1]));
    }
}

/// Reads one of the seven numbers of a timestamp.
fn parse_part(value: &[u8], from: usize, to: usize) -> (r: Option<i64>)
    requires
        from < to <= value@.len(),
        to - from <= 6,
    ensures
        match digits_at(value@, from as int, to as int) {
            Some(v) => r == Some(v as i64) && 0 <= v < 1000000 && (to - from <= 4 ==> v < 10000)
                && (to - from <= 2 ==> v < 100),
            None => r is None,
        },
{
    let part = &value[from..to];
    proof {
        assert(part@.skip(0) =~= part@);
        if all_digits(part@) {
            lemma_digits_bound(part@);
        }
    }
    match parse_digits(part, 0, 999999) {
        Some(v) => Some(v as i64),
        None => None,
    }
}

/// Parse a timestamp with the format: `yyyy-mm-ddThh:mm:ss.nnnnnnZ`, e.g.
/// `2021-02-23T13:15:48.624447Z`.
pub fn parse_timestamp(value: &[u8]) -> (r: Result<Timestamp, ParseErrorKind>)
    ensures
        r == match timestamp_of(value@) {
            Some(t) => Ok::<Timestamp, ParseErrorKind>(t),
            None => Err::<Timestamp, ParseErrorKind>(ParseErrorKind::InvalidTimestamp),
        },
{
    // Invalid length or format.
    if value.len() != 27 || value[4] != MINUS || value[7] != MINUS || value[10] != UPPER_T
        || value[13] != COLON || value[16] != COLON || value[19] != DOT || value[26] != UPPER_Z {
        return Err(ParseErrorKind::InvalidTimestamp);
    }
    let year = parse_part(value, 0, 4);
    let month = parse_part(value, 5, 7);
    let day = parse_part(value, 8, 10);
    let hour = parse_part(value, 11, 13);
    let minute = parse_part(value, 14, 16);
    let second = parse_part(value, 17, 19);
    let micros = parse_part(value, 20, 26);
    match (year, month, day, hour, minute, second, micros) {
        (Some(year), Some(month), Some(day), Some(hour), Some(minute), Some(second), Some(micros)) => {
            let secs = seconds_since_epoch(year, month, day, hour, minute, second);
            Ok(Timestamp { secs, nanos: (micros * 1000) as u32 })
        },
        _ => Err(ParseErrorKind::InvalidTimestamp),
    }
}

} // verus!
