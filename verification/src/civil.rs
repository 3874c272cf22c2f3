//! Civil (proleptic Gregorian) date-times and their conversion to and
//! from seconds since the Unix epoch. The model covers years 1970
//! through 9999, which is the range every name grammar in the pipeline
//! can express.

use vstd::prelude::*;

verus! {

/// A wall-clock date and time, second precision, no zone attached.
#[derive(Clone, Copy, PartialEq, Eq, Structural, Debug)]
pub struct CivilDateTime {
    pub year: u32,
    pub month: u8,
    pub day: u8,
    pub hour: u8,
    pub minute: u8,
    pub second: u8,
}

/// A calendar date alone.
#[derive(Clone, Copy, PartialEq, Eq, Structural, Debug)]
pub struct CivilDate {
    pub year: u32,
    pub month: u8,
    pub day: u8,
}

pub open spec fn is_leap_year(y: int) -> bool {
    y % 4 == 0 && (y % 100 != 0 || y % 400 == 0)
}

pub open spec fn days_in_year(y: int) -> int {
    if is_leap_year(y) {
        366
    } else {
        365
    }
}

pub open spec fn days_in_month(y: int, m: int) -> int
    recommends
        1 <= m <= 12,
{
    if m == 2 {
        if is_leap_year(y) {
            29
        } else {
            28
        }
    } else if m == 4 || m == 6 || m == 9 || m == 11 {
        30
    } else {
        31
    }
}

/// Days in the years 1970 .. y.
pub open spec fn days_before_year(y: int) -> int
    decreases y,
{
    if y <= 1970 {
        0
    } else {
        days_before_year(y - 1) + days_in_year(y - 1)
    }
}

/// Days in the months 1 .. m of year y.
pub open spec fn days_before_month(y: int, m: int) -> int
    decreases m,
{
    if m <= 1 {
        0
    } else {
        days_before_month(y, m - 1) + days_in_month(y, m - 1)
    }
}

pub open spec fn valid_date(y: int, m: int, d: int) -> bool {
    1970 <= y <= 9999 && 1 <= m <= 12 && 1 <= d <= days_in_month(y, m)
}

pub open spec fn valid_civil(c: CivilDateTime) -> bool {
    valid_date(c.year as int, c.month as int, c.day as int) && c.hour < 24 && c.minute < 60
        && c.second < 60
}

/// Days from 1970-01-01 to the given date.
pub open spec fn epoch_days(y: int, m: int, d: int) -> int {
    days_before_year(y) + days_before_month(y, m) + d - 1
}

/// Seconds from the epoch to the given civil date-time, read as UTC.
pub open spec fn epoch_secs(c: CivilDateTime) -> int {
    epoch_days(c.year as int, c.month as int, c.day as int) * 86400 + (c.hour as int) * 3600 + (
    c.minute as int) * 60 + (c.second as int)
}

/// One more than the largest epoch second the model covers
/// (the first instant of year 10000).
pub open spec fn max_epoch_secs() -> int {
    days_before_year(10000) * 86400
}

/// Milliseconds are in range when their seconds are.
pub open spec fn valid_epoch_ms(ms: int) -> bool {
    0 <= ms < max_epoch_secs() * 1000
}

/// The months of a year sum to its length.
pub proof fn lemma_year_month_sum(y: int)
    ensures
        days_before_month(y, 13) == days_in_year(y),
{
    reveal_with_fuel(days_before_month, 13);
}

/// `days_before_year` grows by whole years.
pub proof fn lemma_days_before_year_bounds(y: int)
    requires
        1970 <= y,
    ensures
        days_before_year(y) <= (y - 1970) * 366,
        days_before_year(y) >= (y - 1970) * 365,
        days_before_year(y) >= 0,
    decreases y,
{
    if y > 1970 {
        lemma_days_before_year_bounds(y - 1);
    }
}

fn leap_year(y: u32) -> (r: bool)
    ensures
        r == is_leap_year(y as int),
{
    y % 4 == 0 && (y % 100 != 0 || y % 400 == 0)
}

pub fn days_in_month_x(y: u32, m: u8) -> (r: u8)
    ensures
        r as int == days_in_month(y as int, m as int),
{
    if m == 2 {
        if leap_year(y) {
            29
        } else {
            28
        }
    } else if m == 4 || m == 6 || m == 9 || m == 11 {
        30
    } else {
        31
    }
}

fn days_in_year_x(y: u32) -> (r: u64)
    ensures
        r as int == days_in_year(y as int),
{
    if leap_year(y) {
        366
    } else {
        365
    }
}

fn days_before_year_x(y: u32) -> (r: u64)
    requires
        1970 <= y <= 10000,
    ensures
        r as int == days_before_year(y as int),
{
    let mut acc: u64 = 0;
    let mut i: u32 = 1970;
    while i < y
        invariant
            1970 <= i <= y <= 10000,
            acc as int == days_before_year(i as int),
            acc <= (i - 1970) as u64 * 366,
        decreases y - i,
    {
        proof {
            lemma_days_before_year_bounds(i as int);
        }
        acc = acc + days_in_year_x(i);
        i = i + 1;
    }
    acc
}

fn days_before_month_x(y: u32, m: u8) -> (r: u64)
    requires
        1 <= m <= 13,
    ensures
        r as int == days_before_month(y as int, m as int),
{
    let mut acc: u64 = 0;
    let mut i: u8 = 1;
    while i < m
        invariant
            1 <= i <= m <= 13,
            acc as int == days_before_month(y as int, i as int),
            acc <= (i - 1) as u64 * 31,
        decreases m - i,
    {
        acc = acc + days_in_month_x(y, i) as u64;
        i = i + 1;
    }
    acc
}

/// A concrete ceiling on the supported millisecond range.
pub proof fn lemma_max_epoch_ms_bound()
    ensures
        0 < max_epoch_secs() * 1000 <= 260000000000000,
{
    lemma_days_before_year_bounds(10000);
    assert(days_before_year(10000) <= 2938980);
    assert(days_before_year(10000) >= 365);
    assert(days_before_year(10000) * 86400 <= 2938980 * 86400) by (nonlinear_arith)
        requires
            days_before_year(10000) <= 2938980,
    ;
    assert(days_before_year(10000) * 86400 >= 365 * 86400) by (nonlinear_arith)
        requires
            days_before_year(10000) >= 365,
    ;
}

/// The first epoch millisecond beyond the supported range.
pub fn max_epoch_ms_x() -> (r: i64)
    ensures
        r as int == max_epoch_secs() * 1000,
        0 < r,
{
    let d = days_before_year_x(10000);
    proof {
        lemma_days_before_year_bounds(10000);
    }
    d as i64 * 86400000
}

/// Seconds since the epoch of a valid civil date-time, read as UTC.
pub fn civil_to_secs(c: &CivilDateTime) -> (r: i64)
    requires
        valid_civil(*c),
    ensures
        r as int == epoch_secs(*c),
        0 <= r < max_epoch_secs(),
{
    let by = days_before_year_x(c.year);
    let bm = days_before_month_x(c.year, c.month);
    proof {
        lemma_days_before_year_bounds(c.year as int);
        lemma_days_before_year_bounds(10000);
        lemma_epoch_days_below_max(c.year as int, c.month as int, c.day as int);
    }
    let days: i64 = by as i64 + bm as i64 + c.day as i64 - 1;
    days * 86400 + c.hour as i64 * 3600 + c.minute as i64 * 60 + c.second as i64
}

/// A valid date's day count lies inside the supported range.
proof fn lemma_epoch_days_below_max(y: int, m: int, d: int)
    requires
        valid_date(y, m, d),
    ensures
        0 <= epoch_days(y, m, d),
        (epoch_days(y, m, d) + 1) * 86400 <= max_epoch_secs(),
{
    lemma_days_before_year_bounds(y);
    lemma_days_before_month_in_year(y, m);
    lemma_year_month_sum(y);
    lemma_days_before_year_step_ge(y);
    assert(days_before_month(y, m) + d <= days_in_year(y)) by {
        lemma_days_before_month_plus_day(y, m, d);
    }
}

/// Month offsets are non-negative.
proof fn lemma_days_before_month_nonneg(y: int, m: int)
    ensures
        0 <= days_before_month(y, m),
    decreases m,
{
    if m > 1 {
        lemma_days_before_month_nonneg(y, m - 1);
    }
}

/// Within a year, month offsets stay below the year length.
proof fn lemma_days_before_month_in_year(y: int, m: int)
    requires
        1 <= m <= 13,
    ensures
        0 <= days_before_month(y, m) <= days_before_month(y, 13),
    decreases 13 - m,
{
    lemma_days_before_month_nonneg(y, m);
    if m < 13 {
        lemma_days_before_month_in_year(y, m + 1);
    }
}

/// A valid day within a month stays within the year.
proof fn lemma_days_before_month_plus_day(y: int, m: int, d: int)
    requires
        1 <= m <= 12,
        1 <= d <= days_in_month(y, m),
    ensures
        days_before_month(y, m) + d <= days_in_year(y),
{
    lemma_days_before_month_in_year(y, m + 1);
    lemma_year_month_sum(y);
}

/// Day counts below year `y + 1` are below `days_before_year(y + 1)`.
proof fn lemma_days_before_year_step_ge(y: int)
    requires
        1970 <= y <= 9999,
    ensures
        days_before_year(y) + days_in_year(y) == days_before_year(y + 1),
        days_before_year(y + 1) <= days_before_year(10000),
    decreases 10000 - y,
{
    if y + 1 < 10000 {
        lemma_days_before_year_step_ge(y + 1);
    }
}

/// The civil date-time, read as UTC, of an epoch second in range.
pub fn secs_to_civil(secs: i64) -> (c: CivilDateTime)
    requires
        0 <= secs < max_epoch_secs(),
    ensures
        valid_civil(c),
        epoch_secs(c) == secs as int,
{
    let days: i64 = secs / 86400;
    let tod: i64 = secs % 86400;
    proof {
        assert(0 <= tod < 86400);
        assert(days * 86400 + tod == secs);
        assert(days < days_before_year(10000)) by (nonlinear_arith)
            requires
                secs < days_before_year(10000) * 86400,
                days == secs / 86400,
                0 <= secs,
        ;
        lemma_days_before_year_bounds(10000);
    }
    let mut y: u32 = 1970;
    let mut d: i64 = days;
    loop
        invariant
            1970 <= y <= 9999,
            days_before_year(y as int) + d == days,
            0 <= d,
            days < days_before_year(10000),
        ensures
            1970 <= y <= 9999,
            days_before_year(y as int) + d == days,
            0 <= d < days_in_year(y as int),
        decreases d,
    {
        let dy = days_in_year_x(y);
        if d < dy as i64 {
            break ;
        }
        proof {
            if y == 9999 {
                lemma_days_before_year_step_ge(9999);
                assert(false);
            }
        }
        d = d - dy as i64;
        y = y + 1;
    }
    let mut m: u8 = 1;
    loop
        invariant
            1 <= m <= 12,
            days_before_month(y as int, m as int) + d == days - days_before_year(y as int),
            0 <= d,
            days - days_before_year(y as int) < days_in_year(y as int),
            1970 <= y <= 9999,
        ensures
            1 <= m <= 12,
            days_before_month(y as int, m as int) + d == days - days_before_year(y as int),
            0 <= d < days_in_month(y as int, m as int),
            1970 <= y <= 9999,
        decreases 12 - m,
    {
        let dm = days_in_month_x(y, m);
        if d < dm as i64 {
            break ;
        }
        proof {
            if m == 12 {
                lemma_year_month_sum(y as int);
                assert(false);
            }
        }
        d = d - dm as i64;
        m = m + 1;
    }
    let day: u8 = d as u8 + 1;
    let hour: u8 = (tod / 3600) as u8;
    let minute: u8 = ((tod % 3600) / 60) as u8;
    let second: u8 = (tod % 60) as u8;
    let c = CivilDateTime { year: y, month: m, day, hour, minute, second };
    proof {
        assert(tod == (tod / 3600) * 3600 + ((tod % 3600) / 60) * 60 + tod % 60) by {
            lemma_tod_split(tod as int);
        }
    }
    c
}

/// Splitting a time of day into hours, minutes and seconds is exact.
proof fn lemma_tod_split(tod: int)
    requires
        0 <= tod < 86400,
    ensures
        tod == (tod / 3600) * 3600 + ((tod % 3600) / 60) * 60 + tod % 60,
        0 <= tod / 3600 < 24,
        0 <= (tod % 3600) / 60 < 60,
        0 <= tod % 60 < 60,
{
    assert(tod == (tod / 3600) * 3600 + tod % 3600) by (nonlinear_arith)
        requires
            0 <= tod,
    ;
    assert(tod % 3600 == ((tod % 3600) / 60) * 60 + (tod % 3600) % 60) by (nonlinear_arith)
        requires
            0 <= tod,
    ;
    assert((tod % 3600) % 60 == tod % 60) by (nonlinear_arith)
        requires
            0 <= tod,
    ;
    assert(tod / 3600 < 24) by (nonlinear_arith)
        requires
            0 <= tod < 86400,
    ;
}

} // verus!
