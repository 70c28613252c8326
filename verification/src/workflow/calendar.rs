//! UTC calendar arithmetic on whole minutes: leap years, month lengths, and
//! the conversion between Unix seconds and (year, month, day, hour, minute).
use vstd::prelude::*;
use vstd::arithmetic::div_mod::lemma_fundamental_div_mod_converse;

verus! {

/// Gregorian leap year.
pub open spec fn leap(y: int) -> bool {
    (y % 4 == 0 && y % 100 != 0) || y % 400 == 0
}

pub open spec fn year_len(y: int) -> int {
    if leap(y) { 366 } else { 365 }
}

/// Days in month `m` of year `y`; an out-of-range month counts as 30 days.
pub open spec fn month_len(y: int, m: int) -> int {
    if m == 1 || m == 3 || m == 5 || m == 7 || m == 8 || m == 10 || m == 12 {
        31
    } else if m == 4 || m == 6 || m == 9 || m == 11 {
        30
    } else if m == 2 {
        if leap(y) { 29 } else { 28 }
    } else {
        30
    }
}

/// Days from 1970-01-01 to January 1st of `y` (none for years up to 1970).
pub open spec fn days_before_year(y: int) -> int
    decreases y - 1970,
{
    if y <= 1970 {
        0
    } else {
        days_before_year(y - 1) + year_len(y - 1)
    }
}

/// Days from January 1st to the first of month `m` in year `y`.
pub open spec fn days_before_month(y: int, m: int) -> int
    decreases m,
{
    if m <= 1 {
        0
    } else {
        days_before_month(y, m - 1) + month_len(y, m - 1)
    }
}

/// A real date and time of day.
pub open spec fn valid_civil(y: int, m: int, d: int, h: int, mi: int) -> bool {
    &&& 1 <= m <= 12
    &&& 1 <= d <= month_len(y, m)
    &&& 0 <= h < 24
    &&& 0 <= mi < 60
}

/// Unix seconds of a UTC date and time, to the minute.
pub open spec fn epoch_of(y: int, m: int, d: int, h: int, mi: int) -> int {
    (days_before_year(y) + days_before_month(y, m) + d - 1) * 86400 + h * 3600 + mi * 60
}

/// The year holding day `days` counted from January 1st of `y`, and the day
/// within that year.
pub open spec fn year_of_days(y: int, days: int) -> (int, int)
    decreases days,
{
    if days < year_len(y) || days < 0 {
        (y, days)
    } else {
        year_of_days(y + 1, days - year_len(y))
    }
}

/// The month holding day `days` counted from the first of month `m` of year
/// `y`, and the day within that month (December absorbs any excess).
pub open spec fn month_of_days(y: int, m: int, days: int) -> (int, int)
    decreases 12 - m,
{
    if m >= 12 || days < month_len(y, m) {
        (m, days)
    } else {
        month_of_days(y, m + 1, days - month_len(y, m))
    }
}

/// The UTC date and time (year, month, day, hour, minute) of Unix second `t`.
pub open spec fn civil_of(t: int) -> (int, int, int, int, int) {
    let mins = t / 60;
    let yd = year_of_days(1970, mins / 1440);
    let md = month_of_days(yd.0, 1, yd.1);
    (yd.0, md.0, md.1 + 1, (mins / 60) % 24, mins % 60)
}

/// Seconds below this bound keep every year of the calendar scan within `u32`:
/// 1.35e17 seconds is about 4.278e9 years past 1970, so even a year scanned
/// ahead stays below `u32::MAX` (4.295e9).
pub const MAX_EPOCH_SECS: i64 = 135_000_000_000_000_000;

/// Whether `y` is a leap year.
pub fn is_leap_year(y: u32) -> (b: bool)
    ensures
        b == leap(y as int),
{
    (y % 4 == 0 && y % 100 != 0) || (y % 400 == 0)
}

/// Days in month `m` of year `y` (30 for a month out of range).
pub fn days_in_month(y: u32, m: u32) -> (d: u32)
    ensures
        d as int == month_len(y as int, m as int),
{
    if m == 1 || m == 3 || m == 5 || m == 7 || m == 8 || m == 10 || m == 12 {
        31
    } else if m == 4 || m == 6 || m == 9 || m == 11 {
        30
    } else if m == 2 {
        if is_leap_year(y) { 29 } else { 28 }
    } else {
        30
    }
}

// ------------------------------------------------------------------
// Lemmas
// ------------------------------------------------------------------

/// The twelve months fill the year.
pub proof fn lemma_months_fill_year(y: int)
    ensures
        days_before_month(y, 13) == year_len(y),
{
    reveal_with_fuel(days_before_month, 13);
}

proof fn lemma_days_before_month_bounds(y: int, m: int)
    requires
        1 <= m <= 13,
    ensures
        0 <= days_before_month(y, m),
        days_before_month(y, m) <= 31 * (m - 1),
        m <= 12 ==> days_before_month(y, m) + month_len(y, m) <= year_len(y),
        m == 13 ==> days_before_month(y, m) == year_len(y),
    decreases 13 - m,
{
    if m <= 12 {
        lemma_days_before_month_bounds(y, m + 1);
    } else {
        lemma_months_fill_year(y);
    }
    if m > 1 {
        lemma_days_before_month_bounds_up(y, m);
    }
}

proof fn lemma_days_before_month_bounds_up(y: int, m: int)
    requires
        1 <= m <= 13,
    ensures
        0 <= days_before_month(y, m) <= 31 * (m - 1),
    decreases m,
{
    if m > 1 {
        lemma_days_before_month_bounds_up(y, m - 1);
    }
}

proof fn lemma_days_before_year_bounds(y: int)
    requires
        y >= 1970,
    ensures
        365 * (y - 1970) <= days_before_year(y) <= 366 * (y - 1970),
    decreases y - 1970,
{
    if y > 1970 {
        lemma_days_before_year_bounds(y - 1);
    }
}

/// Counting whole years from 1970 lands on year `y` for every day of `y`.
proof fn lemma_year_of_days(y0: int, y: int, r: int)
    requires
        1970 <= y0 <= y,
        0 <= r < year_len(y),
    ensures
        year_of_days(y0, days_before_year(y) - days_before_year(y0) + r) == (y, r),
    decreases y - y0,
{
    if y0 < y {
        lemma_year_of_days(y0 + 1, y, r);
        lemma_days_before_year_bounds(y);
        lemma_days_before_year_mono(y0 + 1, y);
        assert(days_before_year(y0 + 1) == days_before_year(y0) + year_len(y0));
    }
}

proof fn lemma_days_before_year_mono(a: int, b: int)
    requires
        1970 <= a <= b,
    ensures
        days_before_year(a) <= days_before_year(b),
    decreases b - a,
{
    if a < b {
        lemma_days_before_year_mono(a, b - 1);
    }
}

/// Counting months from January lands on month `m` for every day of `m`.
proof fn lemma_month_of_days(y: int, m0: int, m: int, r: int)
    requires
        1 <= m0 <= m <= 12,
        0 <= r < month_len(y, m),
    ensures
        month_of_days(y, m0, days_before_month(y, m) - days_before_month(y, m0) + r) == (m, r),
    decreases m - m0,
{
    if m0 < m {
        lemma_month_of_days(y, m0 + 1, m, r);
        lemma_days_before_month_mono(y, m0 + 1, m);
    }
}

proof fn lemma_days_before_month_mono(y: int, a: int, b: int)
    requires
        1 <= a <= b,
    ensures
        days_before_month(y, a) <= days_before_month(y, b),
    decreases b - a,
{
    if a < b {
        lemma_days_before_month_mono(y, a, b - 1);
    }
}

/// What the year count gives back: a year no earlier than the start, and a
/// day within it.
proof fn lemma_year_of_days_shape(y0: int, days: int)
    requires
        y0 >= 1970,
        days >= 0,
    ensures
        year_of_days(y0, days).0 >= y0,
        0 <= year_of_days(y0, days).1 < year_len(year_of_days(y0, days).0),
        days_before_year(year_of_days(y0, days).0) - days_before_year(y0) + year_of_days(y0, days).1 == days,
    decreases days,
{
    if days >= year_len(y0) {
        lemma_year_of_days_shape(y0 + 1, days - year_len(y0));
    }
}

/// What the month count gives back: a real month and a day within it.
proof fn lemma_month_of_days_shape(y: int, m0: int, days: int)
    requires
        1 <= m0 <= 12,
        0 <= days,
        days_before_month(y, m0) + days < year_len(y),
    ensures
        m0 <= month_of_days(y, m0, days).0 <= 12,
        0 <= month_of_days(y, m0, days).1 < month_len(y, month_of_days(y, m0, days).0),
        days_before_month(y, month_of_days(y, m0, days).0) - days_before_month(y, m0) + month_of_days(y, m0, days).1 == days,
    decreases 12 - m0,
{
    if m0 < 12 && days >= month_len(y, m0) {
        lemma_month_of_days_shape(y, m0 + 1, days - month_len(y, m0));
    } else if m0 == 12 {
        lemma_months_fill_year(y);
    }
}

/// Reading a date and time back from its Unix seconds gives it again.
pub proof fn lemma_civil_roundtrip(y: int, m: int, d: int, h: int, mi: int)
    requires
        y >= 1970,
        valid_civil(y, m, d, h, mi),
    ensures
        civil_of(epoch_of(y, m, d, h, mi)) == (y, m, d, h, mi),
{
    let days = days_before_year(y) + days_before_month(y, m) + d - 1;
    lemma_days_before_month_bounds(y, m);
    lemma_days_before_year_bounds(y);
    let t = epoch_of(y, m, d, h, mi);
    let mins = days * 1440 + h * 60 + mi;
    lemma_fundamental_div_mod_converse(t, 60, mins, 0);
    lemma_fundamental_div_mod_converse(mins, 1440, days, h * 60 + mi);
    lemma_fundamental_div_mod_converse(mins, 60, days * 24 + h, mi);
    lemma_fundamental_div_mod_converse(days * 24 + h, 24, days, h);
    lemma_year_of_days(1970, y, days_before_month(y, m) + d - 1);
    lemma_month_of_days(y, 1, m, d - 1);
}

/// Every non-negative second falls in a real date and time, whose Unix
/// seconds are the start of that second's minute.
pub proof fn lemma_civil_of_valid(t: int)
    requires
        t >= 0,
    ensures
        valid_civil(civil_of(t).0, civil_of(t).1, civil_of(t).2, civil_of(t).3, civil_of(t).4),
        civil_of(t).0 >= 1970,
        epoch_of(civil_of(t).0, civil_of(t).1, civil_of(t).2, civil_of(t).3, civil_of(t).4) == t - t % 60,
{
    let mins = t / 60;
    let days = mins / 1440;
    lemma_year_of_days_shape(1970, days);
    let yd = year_of_days(1970, days);
    lemma_month_of_days_shape(yd.0, 1, yd.1);
    let c = civil_of(t);
    assert(mins == days * 1440 + mins % 1440);
    assert(mins / 60 == days * 24 + (mins % 1440) / 60) by {
        lemma_fundamental_div_mod_converse(mins, 60, days * 24 + (mins % 1440) / 60, (mins % 1440) % 60);
    }
    lemma_fundamental_div_mod_converse(mins / 60, 24, days, (mins % 1440) / 60);
    lemma_fundamental_div_mod_converse(mins, 60, mins / 60, mins % 60);
}

/// The year of a bounded second stays well inside `u32`.
pub proof fn lemma_civil_year_bound(t: int)
    requires
        0 <= t < MAX_EPOCH_SECS + 100_000_000,
    ensures
        civil_of(t).0 < 4_290_000_000,
{
    let days = (t / 60) / 1440;
    lemma_year_of_days_shape(1970, days);
    let y = civil_of(t).0;
    lemma_days_before_year_bounds(y);
}

/// The UTC (year, month, day, hour, minute) of a non-negative Unix second.
pub fn epoch_to_utc(secs: i64) -> (r: (u32, u32, u32, u32, u32))
    requires
        0 <= secs < MAX_EPOCH_SECS,
    ensures
        (r.0 as int, r.1 as int, r.2 as int, r.3 as int, r.4 as int) == civil_of(secs as int),
{
    let minute: i64 = secs / 60;
    let hour: i64 = (minute / 60) % 24;
    let total_days: i64 = minute / (60 * 24);
    let minute_of_day = (minute % 60) as u32;
    let hour_of_day = hour as u32;
    let mut year: u32 = 1970;
    let mut day: i64 = total_days;
    proof {
        lemma_year_of_days_shape(1970, total_days as int);
        lemma_civil_year_bound(secs as int);
    }
    loop
        invariant
            0 <= day <= total_days,
            total_days == (secs as int / 60) / 1440,
            1970 <= year <= year_of_days(1970, total_days as int).0,
            year_of_days(year as int, day as int) == year_of_days(1970, total_days as int),
            year_of_days(1970, total_days as int).0 < 4_290_000_000,
        ensures
            0 <= day < year_len(year as int),
            year_of_days(year as int, day as int) == year_of_days(1970, total_days as int),
        decreases day,
    {
        let dy: i64 = if is_leap_year(year) { 366 } else { 365 };
        if day < dy {
            break;
        }
        proof {
            lemma_year_of_days_shape(year as int + 1, day - dy);
        }
        day = day - dy;
        year = year + 1;
    }
    let ghost yd = year_of_days(1970, total_days as int);
    assert(yd == (year as int, day as int));
    proof {
        lemma_year_of_days_shape(1970, total_days as int);
    }
    let mut month: u32 = 1;
    let ghost r0 = day as int;
    loop
        invariant
            1 <= month <= 12,
            0 <= day,
            days_before_month(year as int, month as int) + day == r0,
            0 <= r0 < year_len(year as int),
            month_of_days(year as int, month as int, day as int) == month_of_days(year as int, 1, r0),
        ensures
            1 <= month <= 12,
            0 <= day < month_len(year as int, month as int),
            month_of_days(year as int, month as int, day as int) == month_of_days(year as int, 1, r0),
        decreases 12 - month,
    {
        let dm = days_in_month(year, month) as i64;
        if day < dm {
            break;
        }
        proof {
            if month == 12 {
                lemma_months_fill_year(year as int);
            }
        }
        day = day - dm;
        month = month + 1;
    }
    proof {
        lemma_fundamental_div_mod_converse(secs as int / 60, 60, secs as int / 60 / 60, minute_of_day as int);
    }
    (year, month, (day as u32) + 1, hour_of_day, minute_of_day)
}

/// Unix seconds of a UTC date and time; `None` when the month, day, hour or
/// minute is out of range. Years before 1970 count as 1970.
pub fn utc_to_epoch(year: u32, month: u32, day: u32, hour: u32, minute: u32) -> (r: Option<i64>)
    ensures
        r == if valid_civil(year as int, month as int, day as int, hour as int, minute as int) {
            Some(epoch_of(year as int, month as int, day as int, hour as int, minute as int) as i64)
        } else {
            None::<i64>
        },
{
    if month == 0 || month > 12 || day == 0 || day > days_in_month(year, month) || hour > 23 || minute > 59 {
        return None;
    }
    let mut days: i64 = 0;
    let mut y: u32 = 1970;
    proof {
        if year >= 1970 {
            lemma_days_before_year_bounds(year as int);
        }
    }
    while y < year
        invariant
            1970 <= y,
            y <= year || year < 1970,
            year < 1970 ==> y == 1970,
            days == days_before_year(y as int),
            year >= 1970 ==> days_before_year(year as int) <= 366 * (year - 1970),
        decreases year - y,
    {
        proof {
            lemma_days_before_year_bounds(y as int + 1);
            lemma_days_before_year_mono(y as int + 1, year as int);
        }
        days = days + if is_leap_year(y) { 366 } else { 365 };
        y = y + 1;
    }
    assert(days == days_before_year(year as int));
    let mut m: u32 = 1;
    while m < month
        invariant
            1 <= m <= month <= 12,
            days == days_before_year(year as int) + days_before_month(year as int, m as int),
            days_before_year(year as int) <= 366 * 4294967295,
            0 <= days_before_month(year as int, m as int) <= 31 * (m - 1),
        decreases month - m,
    {
        proof {
            lemma_days_before_month_bounds_up(year as int, m as int + 1);
        }
        days = days + days_in_month(year, m) as i64;
        m = m + 1;
    }
    days = days + (day - 1) as i64;
    proof {
        lemma_days_before_month_bounds_up(year as int, month as int);
    }
    Some(days * 86400 + (hour as i64) * 3600 + (minute as i64) * 60)
}

/// The minute after a date and time, with carries into hour, day, month and
/// year.
pub open spec fn next_minute(y: int, m: int, d: int, h: int, mi: int) -> (int, int, int, int, int) {
    if mi + 1 < 60 {
        (y, m, d, h, mi + 1)
    } else if h + 1 < 24 {
        (y, m, d, h + 1, 0)
    } else if d + 1 <= month_len(y, m) {
        (y, m, d + 1, 0, 0)
    } else if m + 1 <= 12 {
        (y, m + 1, 1, 0, 0)
    } else {
        (y + 1, 1, 1, 0, 0)
    }
}

/// The next minute is a real date and time sixty seconds later.
pub proof fn lemma_next_minute(y: int, m: int, d: int, h: int, mi: int)
    requires
        y >= 1970,
        valid_civil(y, m, d, h, mi),
    ensures
        ({
            let n = next_minute(y, m, d, h, mi);
            &&& valid_civil(n.0, n.1, n.2, n.3, n.4)
            &&& n.0 >= 1970
            &&& n.0 <= y + 1
            &&& epoch_of(n.0, n.1, n.2, n.3, n.4) == epoch_of(y, m, d, h, mi) + 60
        }),
{
    if mi + 1 >= 60 && h + 1 >= 24 && d + 1 > month_len(y, m) {
        if m + 1 <= 12 {
            assert(days_before_month(y, m + 1) == days_before_month(y, m) + month_len(y, m));
        } else {
            lemma_months_fill_year(y);
            assert(days_before_month(y, 13) == days_before_month(y, 12) + month_len(y, 12));
            assert(days_before_year(y + 1) == days_before_year(y) + year_len(y));
        }
    }
}

/// Steps a date and time forward by one minute.
pub fn advance_minute(c: (u32, u32, u32, u32, u32)) -> (n: (u32, u32, u32, u32, u32))
    requires
        valid_civil(c.0 as int, c.1 as int, c.2 as int, c.3 as int, c.4 as int),
        c.0 < u32::MAX,
    ensures
        (n.0 as int, n.1 as int, n.2 as int, n.3 as int, n.4 as int) == next_minute(c.0 as int, c.1 as int, c.2 as int, c.3 as int, c.4 as int),
{
    let (mut year, mut month, mut day, mut hour, mut minute) = c;
    minute = minute + 1;
    if minute >= 60 {
        minute = 0;
        hour = hour + 1;
        if hour >= 24 {
            hour = 0;
            day = day + 1;
            if day > days_in_month(year, month) {
                day = 1;
                month = month + 1;
                if month > 12 {
                    month = 1;
                    year = year + 1;
                }
            }
        }
    }
    (year, month, day, hour, minute)
}

// ------------------------------------------------------------------
// Day of the week
// ------------------------------------------------------------------

/// Days from 1 January of year 1 to 1 January of year `y` in the proleptic
/// Gregorian calendar (negative for the years before).
pub open spec fn days_to_year(y: int) -> int {
    let p = y - 1;
    365 * p + p / 4 - p / 100 + p / 400
}

/// The day of the week of a date, 0 = Sunday .. 6 = Saturday: the number of
/// the day counted from Monday 1 January of year 1 (day 1), taken mod 7.
pub open spec fn weekday(y: int, m: int, d: int) -> int {
    (days_to_year(y) + days_before_month(y, m) + d) % 7
}

/// Past December the months are counted as 30 days long.
proof fn lemma_days_before_month_beyond(y: int, m: int)
    requires
        m >= 13,
    ensures
        days_before_month(y, m) == year_len(y) + 30 * (m - 13),
    decreases m,
{
    if m == 13 {
        lemma_months_fill_year(y);
    } else {
        lemma_days_before_month_beyond(y, m - 1);
    }
}

/// Days from January 1st of `y` to the first of month `m`.
fn days_into_year(y: u32, m: u32) -> (r: u64)
    ensures
        r as int == days_before_month(y as int, m as int),
{
    if m <= 13 {
        let mut k: u32 = 1;
        let mut days: u64 = 0;
        proof {
            if m >= 1 {
                lemma_days_before_month_bounds_up(y as int, m as int);
            }
        }
        while k < m
            invariant
                1 <= k,
                k <= m || m < 1,
                m < 1 ==> k == 1,
                m <= 13,
                days == days_before_month(y as int, k as int),
                days <= 31 * (k - 1),
            decreases m - k,
        {
            proof {
                lemma_days_before_month_bounds_up(y as int, k as int + 1);
            }
            days = days + days_in_month(y, k) as u64;
            k = k + 1;
        }
        proof {
            if m == 0 {
                assert(days_before_month(y as int, 1) == 0);
                assert(days_before_month(y as int, 0) == 0);
            } else {
                assert(k == m);
            }
        }
        days
    } else {
        proof {
            lemma_days_before_month_beyond(y as int, m as int);
        }
        let year_days: u64 = if is_leap_year(y) { 366 } else { 365 };
        year_days + 30 * ((m - 13) as u64)
    }
}

/// The day of the week of a date (0 = Sunday .. 6 = Saturday), by the
/// proleptic Gregorian calendar.
pub fn weekday_of(year: u32, month: u32, day: u32) -> (w: u32)
    ensures
        w as int == weekday(year as int, month as int, day as int),
        w < 7,
{
    let base: i64 = if year == 0 {
        proof {
            lemma_fundamental_div_mod_converse(-1, 4, -1, 3);
            lemma_fundamental_div_mod_converse(-1, 100, -1, 99);
            lemma_fundamental_div_mod_converse(-1, 400, -1, 399);
        }
        -366
    } else {
        let p: u64 = (year - 1) as u64;
        assert(p / 4 <= p && p / 100 <= p && p / 400 <= p) by (nonlinear_arith);
        (365 * p + p / 4 - p / 100 + p / 400) as i64
    };
    let into = days_into_year(year, month);
    proof {
        if month >= 13 {
            lemma_days_before_month_beyond(year as int, month as int);
        } else if month >= 1 {
            lemma_days_before_month_bounds_up(year as int, month as int);
        }
    }
    let n: i64 = base + into as i64 + day as i64;
    let w: i64 = (n + 371) % 7;
    proof {
        let q = n as int / 7;
        let r = n as int % 7;
        lemma_fundamental_div_mod_converse(n + 371, 7, q + 53, r);
    }
    w as u32
}

/// One year after another: the day count grows by the length of the year.
proof fn lemma_days_to_year_step(y: int)
    requires
        y >= 1,
    ensures
        days_to_year(y + 1) == days_to_year(y) + year_len(y),
{
    lemma_div_step(y, 4);
    lemma_div_step(y, 100);
    lemma_div_step(y, 400);
    if y % 400 == 0 {
        lemma_fundamental_div_mod_converse(y, 100, 4 * (y / 400), 0);
    }
    if y % 100 == 0 {
        lemma_fundamental_div_mod_converse(y, 4, 25 * (y / 100), 0);
    }
}

/// Stepping over a multiple of `k` raises the quotient by one, anything else
/// keeps it.
proof fn lemma_div_step(y: int, k: int)
    requires
        y >= 1,
        k > 0,
    ensures
        y / k - (y - 1) / k == if y % k == 0 { 1int } else { 0int },
{
    vstd::arithmetic::div_mod::lemma_fundamental_div_mod(y, k);
    let q = y / k;
    let r = y % k;
    assert(0 <= r < k);
    if r == 0 {
        assert(y - 1 == (q - 1) * k + (k - 1)) by (nonlinear_arith)
            requires y == k * q + r, r == 0;
        lemma_fundamental_div_mod_converse(y - 1, k, q - 1, k - 1);
    } else {
        assert(y - 1 == q * k + (r - 1)) by (nonlinear_arith)
            requires y == k * q + r;
        lemma_fundamental_div_mod_converse(y - 1, k, q, r - 1);
    }
}

proof fn lemma_days_to_year_from_epoch(y: int)
    requires
        y >= 1970,
    ensures
        days_to_year(y) == days_to_year(1970) + days_before_year(y),
    decreases y - 1970,
{
    if y > 1970 {
        lemma_days_to_year_from_epoch(y - 1);
        lemma_days_to_year_step(y - 1);
    }
}

/// The weekday of the date holding a Unix second advances by one each day
/// from Thursday 1 January 1970: it is `(t / 86400 + 4) % 7`.
pub proof fn lemma_weekday_of_epoch(t: int)
    requires
        t >= 0,
    ensures
        weekday(civil_of(t).0, civil_of(t).1, civil_of(t).2) == (t / 86400 + 4) % 7,
{
    lemma_civil_of_valid(t);
    let c = civil_of(t);
    lemma_days_to_year_from_epoch(c.0);
    lemma_fundamental_div_mod_converse(1969, 4, 492, 1);
    lemma_fundamental_div_mod_converse(1969, 100, 19, 69);
    lemma_fundamental_div_mod_converse(1969, 400, 4, 369);
    assert(days_to_year(1970) == 719162);
    let days = days_before_year(c.0) + days_before_month(c.0, c.1) + c.2 - 1;
    lemma_days_before_year_bounds(c.0);
    lemma_days_before_month_bounds_up(c.0, c.1);
    lemma_fundamental_div_mod_converse(t, 86400, days, c.3 * 3600 + c.4 * 60 + t % 60);
    let q = days / 7;
    let r = days % 7;
    let n = days_to_year(c.0) + days_before_month(c.0, c.1) + c.2;
    assert(n == days + 719163);
    if r + 4 < 7 {
        lemma_fundamental_div_mod_converse(n, 7, q + 102737, r + 4);
        lemma_fundamental_div_mod_converse(days + 4, 7, q, r + 4);
    } else {
        lemma_fundamental_div_mod_converse(n, 7, q + 102738, r - 3);
        lemma_fundamental_div_mod_converse(days + 4, 7, q + 1, r - 3);
    }
}

} // verus!
