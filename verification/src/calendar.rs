//! The proleptic Gregorian calendar, stated directly: leap years, month
//! lengths, and the number of days from 1970-01-01 to a date.
use vstd::prelude::*;

verus! {

/// A leap year of the proleptic Gregorian calendar.
pub open spec fn is_leap(y: int) -> bool {
    (y % 4 == 0 && y % 100 != 0) || y % 400 == 0
}

/// The number of days of month `m` (1 to 12) of year `y`.
pub open spec fn days_in_month(y: int, m: int) -> int {
    if m == 2 {
        if is_leap(y) {
            29
        } else {
            28
        }
    } else if m == 4 || m == 6 || m == 9 || m == 11 {
        30
    } else {
        31
    }
}

/// `y`, `m`, `d` name a day of the calendar.
pub open spec fn valid_date(y: int, m: int, d: int) -> bool {
    1 <= m <= 12 && 1 <= d <= days_in_month(y, m)
}

/// Days from the start of a fixed reference year to January 1 of `y`:
/// 365 per year plus one per leap year before `y`.
pub closed spec fn days_before_year(y: int) -> int {
    365 * y + (y - 1) / 4 - (y - 1) / 100 + (y - 1) / 400
}

/// Days from January 1 of `y` to the first day of month `m`.
pub closed spec fn days_before_month(y: int, m: int) -> int {
    let base: int = if m == 1 {
        0
    } else if m == 2 {
        31
    } else if m == 3 {
        59
    } else if m == 4 {
        90
    } else if m == 5 {
        120
    } else if m == 6 {
        151
    } else if m == 7 {
        181
    } else if m == 8 {
        212
    } else if m == 9 {
        243
    } else if m == 10 {
        273
    } else if m == 11 {
        304
    } else {
        334
    };
    if m > 2 && is_leap(y) {
        base + 1
    } else {
        base
    }
}

/// The number of days from 1970-01-01 to `y`-`m`-`d` (negative before it).
pub closed spec fn days_from_civil(y: int, m: int, d: int) -> int {
    days_before_year(y) - days_before_year(1970) + days_before_month(y, m) + d - 1
}

/// Day number `k` of the 400-year cycle that starts on a March 1.
pub open spec fn march_year_start(k: int) -> int {
    365 * k + k / 4 - k / 100 + k / 400
}

/// One year after another: the year's length, 366 in a leap year.
pub proof fn lemma_days_before_next_year(y: int)
    ensures
        days_before_year(y + 1) == days_before_year(y) + 365 + (if is_leap(y) { 1int } else { 0 }),
{
}

/// Within the cycle of 400 March-years, the year of day `doe` as the
/// calendar computes it.
pub proof fn lemma_year_of_era(doe: int)
    requires
        0 <= doe <= 146096,
    ensures
        ({
            let yoe = (doe - doe / 1460 + doe / 36524 - doe / 146096) / 365;
            &&& 0 <= yoe <= 399
            &&& march_year_start(yoe) <= doe < march_year_start(yoe + 1)
        }),
{
}


/// Days from 0000-03-01 to March 1 of `y`.
pub open spec fn days_to_march(y: int) -> int {
    365 * y + y / 4 - y / 100 + y / 400
}

/// January 1 plus the leap day, if any: the start of March.
pub proof fn lemma_days_to_march(y: int)
    ensures
        days_before_year(y) + (if is_leap(y) { 1int } else { 0 }) == days_to_march(y),
{
}

/// Shifting a year by whole 400-year cycles.
pub proof fn lemma_era_shift(era: int, yoe: int)
    requires
        0 <= yoe <= 399,
    ensures
        days_to_march(era * 400 + yoe) == era * 146097 + march_year_start(yoe),
        is_leap(era * 400 + yoe + 1) <==> is_leap(yoe + 1),
        march_year_start(yoe + 1) - march_year_start(yoe) == 365 + (if is_leap(yoe + 1) {
            1int
        } else {
            0
        }),
{
    let y = era * 400 + yoe;
    lemma_shift_div(era, yoe, 4, 100);
    lemma_shift_div(era, yoe, 100, 4);
    lemma_shift_div(era, yoe, 400, 1);
    lemma_shift_div(era, yoe + 1, 4, 100);
    lemma_shift_div(era, yoe + 1, 100, 4);
    lemma_shift_div(era, yoe + 1, 400, 1);
}

/// `(era * 400 + k) / d` and `% d` when `d * f == 400`.
proof fn lemma_shift_div(era: int, k: int, d: int, f: int)
    requires
        0 <= k,
        d > 0,
        d * f == 400,
    ensures
        (era * 400 + k) / d == era * f + k / d,
        (era * 400 + k) % d == k % d,
{
    vstd::arithmetic::div_mod::lemma_fundamental_div_mod(k, d);
    assert(era * 400 + k == (era * f + k / d) * d + k % d) by (nonlinear_arith)
        requires
            d * f == 400,
            k == d * (k / d) + k % d,
    ;
    vstd::arithmetic::div_mod::lemma_fundamental_div_mod_converse(
        era * 400 + k,
        d,
        era * f + k / d,
        k % d,
    );
}

/// Day `doy` of the March-based year `y` (March 1 is day 0) as a date.
pub proof fn lemma_day_of_march_year(y: int, doy: int)
    requires
        0 <= doy < 365 + (if is_leap(y + 1) { 1int } else { 0 }),
    ensures
        ({
            let mp = (5 * doy + 2) / 153;
            let d = doy - (153 * mp + 2) / 5 + 1;
            let m = mp + if mp < 10 { 3int } else { -9 };
            let year = y + if m <= 2 { 1int } else { 0 };
            &&& 0 <= mp <= 11
            &&& valid_date(year, m, d)
            &&& days_from_civil(year, m, d) == days_to_march(y) + doy - 719468
        }),
{
    let mp = (5 * doy + 2) / 153;
    assert(0 <= mp <= 11);
    lemma_days_to_march(y);
    lemma_days_before_next_year(y);
    assert(days_before_year(1970) == 719527);
    if mp == 0 {
    } else if mp == 1 {
    } else if mp == 2 {
    } else if mp == 3 {
    } else if mp == 4 {
    } else if mp == 5 {
    } else if mp == 6 {
    } else if mp == 7 {
    } else if mp == 8 {
    } else if mp == 9 {
    } else if mp == 10 {
    } else {
    }
}

/// The date that day `doe` of the 400-year cycle number `era` names, as
/// the month-from-March arithmetic computes it step by step, is a valid
/// date `era * 146097 + doe - 719468` days after 1970-01-01.
pub proof fn lemma_civil_of_era(
    era: int,
    doe: int,
    yoe: int,
    doy: int,
    mp: int,
    d: int,
    m: int,
    year: int,
)
    requires
        0 <= doe <= 146096,
        yoe == (doe - doe / 1460 + doe / 36524 - doe / 146096) / 365,
        doy == doe - (365 * yoe + yoe / 4 - yoe / 100),
        mp == (5 * doy + 2) / 153,
        d == doy - (153 * mp + 2) / 5 + 1,
        m == mp + if mp < 10 { 3int } else { -9 },
        year == yoe + era * 400 + if m <= 2 { 1int } else { 0 },
    ensures
        0 <= yoe <= 399,
        0 <= doy <= 365,
        0 <= mp <= 11,
        valid_date(year, m, d),
        days_from_civil(year, m, d) == era * 146097 + doe - 719468,
{
    lemma_year_of_era(doe);
    let y = yoe + era * 400;
    lemma_era_shift(era, yoe);
    assert(doy == doe - march_year_start(yoe));
    lemma_day_of_march_year(y, doy);
}


/// Days before January 1 never decrease from one year to a later one.
pub proof fn lemma_days_before_year_monotone(y1: int, y2: int)
    requires
        y1 <= y2,
    ensures
        days_before_year(y1) <= days_before_year(y2),
    decreases y2 - y1,
{
    if y1 < y2 {
        lemma_days_before_year_monotone(y1, y2 - 1);
        lemma_days_before_next_year(y2 - 1);
    }
}

/// The day of the year of a valid date lies within that year.
pub proof fn lemma_day_of_year_bounds(y: int, m: int, d: int)
    requires
        valid_date(y, m, d),
    ensures
        0 <= days_before_month(y, m) + d - 1 < 365 + (if is_leap(y) { 1int } else { 0 }),
{
}

/// Within a year, a later month starts after every day of an earlier one.
proof fn lemma_month_order(y: int, m1: int, d1: int, m2: int)
    requires
        valid_date(y, m1, d1),
        m1 < m2 <= 12,
    ensures
        days_before_month(y, m1) + d1 <= days_before_month(y, m2),
{
}

/// Two valid dates with the same day count are the same date: the day
/// count from 1970-01-01 tells dates apart.
pub proof fn lemma_days_from_civil_injective(y1: int, m1: int, d1: int, y2: int, m2: int, d2: int)
    requires
        valid_date(y1, m1, d1),
        valid_date(y2, m2, d2),
        days_from_civil(y1, m1, d1) == days_from_civil(y2, m2, d2),
    ensures
        y1 == y2 && m1 == m2 && d1 == d2,
{
    lemma_day_of_year_bounds(y1, m1, d1);
    lemma_day_of_year_bounds(y2, m2, d2);
    lemma_days_before_next_year(y1);
    lemma_days_before_next_year(y2);
    if y1 < y2 {
        lemma_days_before_year_monotone(y1 + 1, y2);
    } else if y2 < y1 {
        lemma_days_before_year_monotone(y2 + 1, y1);
    } else {
        if m1 < m2 {
            lemma_month_order(y1, m1, d1, m2);
        } else if m2 < m1 {
            lemma_month_order(y1, m2, d2, m1);
        }
    }
}


/// Every day count, however far from 1970, names a valid date.
pub proof fn lemma_every_day_has_a_date(days: int)
    ensures
        exists|y: int, m: int, d: int|
            #![trigger days_from_civil(y, m, d)]
            valid_date(y, m, d) && days_from_civil(y, m, d) == days,
{
    let z = days + 719468;
    let era = z / 146097;
    let doe = z % 146097;
    let yoe = (doe - doe / 1460 + doe / 36524 - doe / 146096) / 365;
    let doy = doe - (365 * yoe + yoe / 4 - yoe / 100);
    let mp = (5 * doy + 2) / 153;
    let d = doy - (153 * mp + 2) / 5 + 1;
    let m = mp + if mp < 10 { 3int } else { -9 };
    let year = yoe + era * 400 + if m <= 2 { 1int } else { 0 };
    lemma_civil_of_era(era, doe, yoe, doy, mp, d, m, year);
    assert(days_from_civil(year, m, d) == days);
}

} // verus!
