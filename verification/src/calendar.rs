//! Civil dates of the proleptic Gregorian calendar, in UTC.

use crate::text::{decimal, decimal_of, pad_left, zero_padded};
use vstd::prelude::*;

verus! {

/// Whether a year has a 29th of February.
pub open spec fn leap(year: int) -> bool {
    year % 4 == 0 && (year % 100 != 0 || year % 400 == 0)
}

/// How many days a month has.
pub open spec fn days_in_month(year: int, month: int) -> int {
    if month == 2 {
        if leap(year) {
            29
        } else {
            28
        }
    } else if month == 4 || month == 6 || month == 9 || month == 11 {
        30
    } else {
        31
    }
}

/// How many days of a year lie before a month.
pub open spec fn days_before_month(year: int, month: int) -> int
    decreases month,
{
    if month <= 1 {
        0
    } else {
        days_before_month(year, month - 1) + days_in_month(year, month - 1)
    }
}

/// How many days lie between the start of year 0 and the start of a year.
pub open spec fn days_before_year(year: int) -> int {
    365 * year + (year - 1) / 4 - (year - 1) / 100 + (year - 1) / 400 + 1
}

/// A date's number of days since the first of January 1970.
pub open spec fn day_number(year: int, month: int, day: int) -> int {
    days_before_year(year) - days_before_year(1970) + days_before_month(year, month) + day - 1
}

/// Whether a month and a day are of a year.
pub open spec fn is_date(year: int, month: int, day: int) -> bool {
    1 <= month <= 12 && 1 <= day <= days_in_month(year, month)
}

/// A year is 365 days long, and a day longer where it is a leap year.
pub proof fn year_lengths_add_up(year: int)
    ensures
        days_before_year(year + 1) - days_before_year(year) == if leap(year) {
            366int
        } else {
            365
        },
        days_before_year(0) == 0,
{
}

proof fn lemma_months(year: int)
    ensures
        days_before_month(year, 1) == 0,
        days_before_month(year, 2) == 31,
        days_before_month(year, 3) == 31 + days_in_month(year, 2),
        days_before_month(year, 4) == 62 + days_in_month(year, 2),
        days_before_month(year, 5) == 92 + days_in_month(year, 2),
        days_before_month(year, 6) == 123 + days_in_month(year, 2),
        days_before_month(year, 7) == 153 + days_in_month(year, 2),
        days_before_month(year, 8) == 184 + days_in_month(year, 2),
        days_before_month(year, 9) == 215 + days_in_month(year, 2),
        days_before_month(year, 10) == 245 + days_in_month(year, 2),
        days_before_month(year, 11) == 276 + days_in_month(year, 2),
        days_before_month(year, 12) == 306 + days_in_month(year, 2),
{
    reveal_with_fuel(days_before_month, 13);
}

/// The year within an era of four hundred years, each from March on.
proof fn lemma_year_of_era(doe: int, yoe: int)
    requires
        0 <= doe < 146_097,
        yoe == (doe - doe / 1460 + doe / 36_524 - doe / 146_096) / 365,
    ensures
        0 <= yoe < 400,
        365 * yoe + yoe / 4 - yoe / 100 <= doe,
        doe < 365 * (yoe + 1) + (yoe + 1) / 4 - (yoe + 1) / 100 + (yoe + 1) / 400,
{
}

proof fn lemma_civil(era: int, yoe: int, doy: int, mp: int)
    requires
        0 <= yoe < 400,
        0 <= doy,
        doy <= 364 + (yoe + 1) / 4 - (yoe + 1) / 100 + (yoe + 1) / 400 - (yoe / 4 - yoe / 100),
        mp == (5 * doy + 2) / 153,
    ensures
        ({
            let year = yoe + era * 400;
            let day = doy - (153 * mp + 2) / 5 + 1;
            let month = if mp < 10 {
                mp + 3
            } else {
                mp - 9
            };
            let shown = if month <= 2 {
                year + 1
            } else {
                year
            };
            &&& is_date(shown, month, day)
            &&& day_number(shown, month, day) == era * 146_097 + 365 * yoe + yoe / 4 - yoe / 100
                + doy - 719_468
        }),
{
    let year = yoe + era * 400;
    lemma_months(year);
    lemma_months(year + 1);
    assert(year / 4 == yoe / 4 + era * 100);
    assert(year / 100 == yoe / 100 + era * 4);
    assert(year / 400 == era);
    year_lengths_add_up(year);
    assert(0 <= mp <= 11);
    assert(days_before_year(year + 1) == 365 * (year + 1) + year / 4 - year / 100 + year / 400 + 1);
    assert(leap(year + 1) == ((yoe + 1) % 4 == 0 && ((yoe + 1) % 100 != 0 || (yoe + 1) % 400
        == 0)));
}

/// The civil date of a day: year, month and day of the month.
pub fn civil_from_days(days: i64) -> (r: (i64, u32, u32))
    requires
        days + 719_468 <= i64::MAX,
    ensures
        is_date(r.0 as int, r.1 as int, r.2 as int),
        day_number(r.0 as int, r.1 as int, r.2 as int) == days,
{
    let z: i64 = days + 719_468;
    let era: i64 = if z >= 0 {
        z / 146_097
    } else {
        -((-(z + 1)) / 146_097) - 1
    };
    assert(era == z as int / 146_097);
    let doe: i64 = z - era * 146_097;
    assert(0 <= doe < 146_097);
    let yoe: i64 = (doe - doe / 1460 + doe / 36_524 - doe / 146_096) / 365;
    proof {
        lemma_year_of_era(doe as int, yoe as int);
    }
    let year: i64 = yoe + era * 400;
    let doy: i64 = doe - (365 * yoe + yoe / 4 - yoe / 100);
    let mp: i64 = (5 * doy + 2) / 153;
    let day: i64 = doy - (153 * mp + 2) / 5 + 1;
    let month: i64 = if mp < 10 {
        mp + 3
    } else {
        mp - 9
    };
    let shown: i64 = if month <= 2 {
        year + 1
    } else {
        year
    };
    proof {
        lemma_months(shown as int);
        lemma_civil(era as int, yoe as int, doy as int, mp as int);
    }
    (shown, month as u32, day as u32)
}

/// Of a day there is one date.
pub proof fn a_day_has_one_date(y1: int, m1: int, d1: int, y2: int, m2: int, d2: int)
    requires
        is_date(y1, m1, d1),
        is_date(y2, m2, d2),
        day_number(y1, m1, d1) == day_number(y2, m2, d2),
    ensures
        y1 == y2,
        m1 == m2,
        d1 == d2,
{
    lemma_months(y1);
    lemma_months(y2);
    year_lengths_add_up(y1);
    year_lengths_add_up(y2);
    assert(days_before_month(y1, m1) + d1 <= 337 + days_in_month(y1, 2));
    assert(days_before_month(y2, m2) + d2 <= 337 + days_in_month(y2, 2));
    assert(y1 < y2 ==> days_before_year(y1 + 1) <= days_before_year(y2));
    assert(y2 < y1 ==> days_before_year(y2 + 1) <= days_before_year(y1));
}

/// A number in at least `width` digits, a sign counted as one.
pub open spec fn padded(n: int, width: nat) -> Seq<char> {
    if n < 0 {
        seq!['-'] + pad_left(decimal((-n) as nat), '0', (width - 1) as nat)
    } else {
        pad_left(decimal(n as nat), '0', width)
    }
}

/// A date and a time of day as text.
pub open spec fn stamp(year: int, month: int, day: int, time: int) -> Seq<char> {
    padded(year, 4) + "-"@ + padded(month, 2) + "-"@ + padded(day, 2) + "T"@ + padded(
        time / 3600,
        2,
    ) + ":"@ + padded(time % 3600 / 60, 2) + ":"@ + padded(time % 60, 2) + "+00:00"@
}

/// Whether a text is the stamp of a moment, in seconds since the start of 1970.
pub open spec fn is_stamp_of(s: Seq<char>, secs: int) -> bool {
    exists|y: int, m: int, d: int|
        is_date(y, m, d) && day_number(y, m, d) == secs / 86_400 && s == #[trigger] stamp(
            y,
            m,
            d,
            secs % 86_400,
        )
}

fn padded_text(n: i64, width: usize) -> (r: String)
    requires
        1 <= width,
        n > i64::MIN,
    ensures
        r@ == padded(n as int, width as nat),
{
    if n < 0 {
        let mut r = String::new();
        r.push('-');
        r.append(zero_padded(decimal_of((-n) as u64), width - 1).as_str());
        assert(r@ =~= padded(n as int, width as nat));
        r
    } else {
        zero_padded(decimal_of(n as u64), width)
    }
}

/// A moment, in seconds since the start of 1970, as ISO-8601 text in UTC.
pub fn format_unix_utc(secs: i64) -> (r: String)
    ensures
        is_stamp_of(r@, secs as int),
{
    let days: i64 = if secs >= 0 {
        secs / 86_400
    } else {
        -((-(secs + 1)) / 86_400) - 1
    };
    let time: i64 = if secs >= 0 {
        secs % 86_400
    } else {
        86_399 - (-(secs + 1)) % 86_400
    };
    assert(days == secs as int / 86_400 && time == secs as int % 86_400);
    let (year, month, day) = civil_from_days(days);
    proof {
        lemma_months(year as int);
        let y = year as int;
        assert(365 * y + (y - 1) / 4 - (y - 1) / 100 + (y - 1) / 400 >= -200_000_000_000_000);
    }
    let mut r = padded_text(year, 4);
    r.append("-");
    r.append(padded_text(month as i64, 2).as_str());
    r.append("-");
    r.append(padded_text(day as i64, 2).as_str());
    r.append("T");
    r.append(padded_text(time / 3600, 2).as_str());
    r.append(":");
    r.append(padded_text(time % 3600 / 60, 2).as_str());
    r.append(":");
    r.append(padded_text(time % 60, 2).as_str());
    r.append("+00:00");
    assert(r@ == stamp(year as int, month as int, day as int, time as int));
    r
}

/// A moment has one stamp.
pub proof fn a_moment_has_one_stamp(a: Seq<char>, b: Seq<char>, secs: int)
    requires
        is_stamp_of(a, secs),
        is_stamp_of(b, secs),
    ensures
        a == b,
{
    let (y1, m1, d1) = choose|y: int, m: int, d: int|
        is_date(y, m, d) && day_number(y, m, d) == secs / 86_400 && a == #[trigger] stamp(
            y,
            m,
            d,
            secs % 86_400,
        );
    let (y2, m2, d2) = choose|y: int, m: int, d: int|
        is_date(y, m, d) && day_number(y, m, d) == secs / 86_400 && b == #[trigger] stamp(
            y,
            m,
            d,
            secs % 86_400,
        );
    a_day_has_one_date(y1, m1, d1, y2, m2, d2);
}

} // verus!
