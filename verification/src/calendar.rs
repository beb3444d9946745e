//! Days and dates: the civil (proleptic Gregorian) calendar from 1970 on.

use vstd::prelude::*;

verus! {

pub open spec fn is_leap(year: int) -> bool {
    year % 4 == 0 && (year % 100 != 0 || year % 400 == 0)
}

pub open spec fn days_in_year(year: int) -> int {
    if is_leap(year) {
        366
    } else {
        365
    }
}

pub open spec fn days_in_month(year: int, month: int) -> int {
    if month == 2 {
        if is_leap(year) {
            29
        } else {
            28
        }
    } else if month == 4 || month == 6 || month == 9 || month == 11 {
        30
    } else {
        31
    }
}

/// Days from the start of 1970 to the start of `year`.
pub open spec fn days_to_year(year: int) -> int
    decreases year - 1970,
{
    if year <= 1970 {
        0
    } else {
        days_to_year(year - 1) + days_in_year(year - 1)
    }
}

/// Days from the start of `year` to the start of `month`.
pub open spec fn days_to_month(year: int, month: int) -> int
    decreases month,
{
    if month <= 1 {
        0
    } else {
        days_to_month(year, month - 1) + days_in_month(year, month - 1)
    }
}

/// A date that the calendar has, from 1970 on.
pub open spec fn is_date(year: int, month: int, day: int) -> bool {
    &&& 1970 <= year
    &&& 1 <= month <= 12
    &&& 1 <= day <= days_in_month(year, month)
}

/// Days from 1 January 1970 to a date.
pub open spec fn day_number(year: int, month: int, day: int) -> int {
    days_to_year(year) + days_to_month(year, month) + day - 1
}

/// Leap years among the years `0..year`.
spec fn leaps_before(year: int) -> int {
    (year + 3) / 4 - (year + 99) / 100 + (year + 399) / 400
}

proof fn lemma_leap_count(year: int)
    requires
        year >= 0,
    ensures
        leaps_before(year + 1) == leaps_before(year) + (if is_leap(year) {
            1int
        } else {
            0
        }),
{
}

proof fn lemma_days_to_year(year: int)
    requires
        year >= 1970,
    ensures
        days_to_year(year) == 365 * year + leaps_before(year) - 719528,
    decreases year - 1970,
{
    if year > 1970 {
        lemma_days_to_year(year - 1);
        lemma_leap_count(year - 1);
    }
}

proof fn lemma_days_to_month(year: int, month: int)
    requires
        1 <= month <= 13,
    ensures
        month == 1 ==> days_to_month(year, month) == 0,
        month == 2 ==> days_to_month(year, month) == 31,
        month >= 3 ==> days_to_month(year, month) == 59 + (if is_leap(year) {
            1int
        } else {
            0
        }) + (153 * (month - 3) + 2) / 5,
{
    reveal_with_fuel(days_to_month, 14);
}

proof fn lemma_year_length(year: int)
    requires
        1970 <= year,
    ensures
        days_to_month(year, 13) == days_in_year(year),
{
    lemma_days_to_month(year, 13);
}

proof fn lemma_days_to_month_grows(year: int, m: int, n: int)
    requires
        1 <= m <= n,
    ensures
        days_to_month(year, m) <= days_to_month(year, n),
    decreases n - m,
{
    if m < n {
        lemma_days_to_month_grows(year, m, n - 1);
    }
}

proof fn lemma_days_to_year_grows(y: int, z: int)
    requires
        1970 <= y <= z,
    ensures
        days_to_year(y) <= days_to_year(z),
    decreases z - y,
{
    if y < z {
        lemma_days_to_year_grows(y, z - 1);
    }
}

/// Dates number the days in order: a later year, month or day has the larger number.
pub proof fn law_dates_in_order(y1: int, m1: int, d1: int, y2: int, m2: int, d2: int)
    requires
        is_date(y1, m1, d1),
        is_date(y2, m2, d2),
    ensures
        day_number(y1, m1, d1) < day_number(y2, m2, d2) <==> (y1 < y2 || (y1 == y2 && (m1 < m2 || (
        m1 == m2 && d1 < d2)))),
        day_number(y1, m1, d1) == day_number(y2, m2, d2) ==> y1 == y2 && m1 == m2 && d1 == d2,
{
    if y1 < y2 || (y1 == y2 && (m1 < m2 || (m1 == m2 && d1 < d2))) {
        lemma_before(y1, m1, d1, y2, m2, d2);
    } else if !(y1 == y2 && m1 == m2 && d1 == d2) {
        lemma_before(y2, m2, d2, y1, m1, d1);
    }
}

proof fn lemma_before(y1: int, m1: int, d1: int, y2: int, m2: int, d2: int)
    requires
        is_date(y1, m1, d1),
        is_date(y2, m2, d2),
        y1 < y2 || (y1 == y2 && (m1 < m2 || (m1 == m2 && d1 < d2))),
    ensures
        day_number(y1, m1, d1) < day_number(y2, m2, d2),
{
    if y1 < y2 {
        lemma_year_length(y1);
        lemma_days_to_month_grows(y1, m1 + 1, 13);
        lemma_days_to_year_grows(y1 + 1, y2);
        lemma_days_to_month_grows(y2, 1, m2);
        assert(days_to_month(y1, m1 + 1) == days_to_month(y1, m1) + days_in_month(y1, m1));
        assert(days_to_year(y1 + 1) == days_to_year(y1) + days_in_year(y1));
    } else if m1 < m2 {
        lemma_days_to_month_grows(y1, m1 + 1, m2);
        assert(days_to_month(y1, m1 + 1) == days_to_month(y1, m1) + days_in_month(y1, m1));
    }
}

proof fn lemma_year_of_era(doe: int, yoe: int, doy: int)
    requires
        0 <= doe < 146097,
        yoe == (doe - doe / 1460 + doe / 36524 - doe / 146096) / 365,
        doy == doe - (365 * yoe + yoe / 4 - yoe / 100),
    ensures
        0 <= yoe < 400,
        0 <= doy <= 365,
        doy == 365 ==> (yoe + 1) % 4 == 0 && ((yoe + 1) % 100 != 0 || yoe + 1 == 400),
{
}

/// Days from 1 March of year 0 to 1 March of `year`.
spec fn march_start(year: int) -> int {
    365 * year + year / 4 - year / 100 + year / 400
}

proof fn lemma_march_year(era: int, yoe: int)
    requires
        0 <= era,
        0 <= yoe < 400,
    ensures
        march_start(400 * era + yoe) == 146097 * era + 365 * yoe + yoe / 4 - yoe / 100,
{
    let y = 400 * era + yoe;
    assert(y / 4 == 100 * era + yoe / 4);
    assert(y / 100 == 4 * era + yoe / 100);
    assert(y / 400 == era);
}

/// Days of a March-based year before its month number `mp`, counted from March as 0.
spec fn march_month_start(mp: int) -> int {
    (153 * mp + 2) / 5
}

proof fn lemma_march_month(doy: int, mp: int)
    requires
        0 <= doy <= 365,
        mp == (5 * doy + 2) / 153,
    ensures
        0 <= mp <= 11,
        march_month_start(mp) <= doy,
        mp < 11 ==> doy < march_month_start(mp + 1),
        march_month_start(11) == 337,
{
}

proof fn lemma_march_month_length(year: int, m: int, mp: int)
    requires
        0 <= mp <= 11,
        m == (if mp < 10 { mp + 3 } else { mp - 9 }),
    ensures
        1 <= m <= 12,
        mp < 11 ==> march_month_start(mp + 1) - march_month_start(mp) == days_in_month(year, m),
        mp == 11 ==> m == 2,
{
}

/// A day counted from 1 March of its March-based year, as a date of the calendar.
proof fn lemma_date_of_march_day(year: int, doy: int, mp: int, y: int, m: int, d: int)
    requires
        1969 <= year,
        0 <= doy <= 365,
        doy == 365 ==> is_leap(year + 1),
        mp == (5 * doy + 2) / 153,
        d == doy - (153 * mp + 2) / 5 + 1,
        m == (if mp < 10 { mp + 3 } else { mp - 9 }),
        y == (if m <= 2 { year + 1 } else { year }),
        y >= 1970,
    ensures
        is_date(y, m, d),
        day_number(y, m, d) == march_start(year) + doy - 719468,
{
    lemma_march_month(doy, mp);
    lemma_march_month_length(y, m, mp);
    assert(d == doy - march_month_start(mp) + 1);
    assert(is_date(y, m, d));
    lemma_days_to_year(y);
    lemma_days_to_month(y, m);
    lemma_leap_count(year);
    assert(leaps_before(year + 1) == year / 4 - year / 100 + year / 400 + 1);
    if m >= 3 {
        assert(mp == m - 3);
        assert(days_to_month(y, m) + d - 1 == 59 + (if is_leap(year) { 1int } else { 0 }) + doy);
    } else if m == 1 {
        assert(march_month_start(10) == 306);
        assert(days_to_month(y, m) + d - 1 == doy - 306);
    } else {
        assert(days_to_month(y, m) + d - 1 == doy - 306);
    }
}

/// Every day from the epoch on has a date.
pub proof fn lemma_every_day_has_a_date(n: int)
    requires
        0 <= n,
    ensures
        exists|t: (int, int, int)| is_date(t.0, t.1, t.2) && #[trigger] day_number(t.0, t.1, t.2) == n,
{
    let z = n + 719468;
    let era = z / 146097;
    let doe = z - era * 146097;
    let yoe = (doe - doe / 1460 + doe / 36524 - doe / 146096) / 365;
    let doy = doe - (365 * yoe + yoe / 4 - yoe / 100);
    lemma_year_of_era(doe, yoe, doy);
    lemma_march_year(era, yoe);
    let year = yoe + era * 400;
    let mp = (5 * doy + 2) / 153;
    lemma_march_month(doy, mp);
    let d = doy - (153 * mp + 2) / 5 + 1;
    let m = if mp < 10 { mp + 3 } else { mp - 9 };
    let y = if m <= 2 { year + 1 } else { year };
    lemma_date_of_march_day(year, doy, mp, y, m, d);
    let t = (y, m, d);
    assert(is_date(t.0, t.1, t.2) && day_number(t.0, t.1, t.2) == n);
}

/// A date of the civil calendar.
#[derive(Debug, Clone, Copy, PartialEq, Eq, Structural)]
pub struct CivilDate {
    pub year: u64,
    pub month: u64,
    pub day: u64,
}

/// The date that is `days` days after 1 January 1970.
#[verifier::spinoff_prover]
#[verifier::rlimit(30)]
pub fn civil_from_days(days: u64) -> (r: CivilDate)
    requires
        days <= 0x0001_0000_0000_0000,
    ensures
        is_date(r.year as int, r.month as int, r.day as int),
        day_number(r.year as int, r.month as int, r.day as int) == days,
{
    let z: u64 = days + 719_468;
    let era: u64 = z / 146_097;
    let doe: u64 = z - era * 146_097;
    assert(doe < 146_097);
    let yoe: u64 = (doe - doe / 1460 + doe / 36_524 - doe / 146_096) / 365;
    proof {
        lemma_year_of_era(
            doe as int,
            yoe as int,
            doe - (365 * yoe + yoe as int / 4 - yoe as int / 100),
        );
        lemma_march_year(era as int, yoe as int);
    }
    let march_year: u64 = yoe + era * 400;
    let doy: u64 = doe - (365 * yoe + yoe / 4 - yoe / 100);
    let mp: u64 = (5 * doy + 2) / 153;
    proof {
        lemma_march_month(doy as int, mp as int);
    }
    let day: u64 = doy - (153 * mp + 2) / 5 + 1;
    let month: u64 = if mp < 10 {
        mp + 3
    } else {
        mp - 9
    };
    let year: u64 = if month <= 2 {
        march_year + 1
    } else {
        march_year
    };
    proof {
        assert(march_start(march_year as int) + doy == z);
        assert(march_year >= 1969);
        lemma_date_of_march_day(
            march_year as int,
            doy as int,
            mp as int,
            year as int,
            month as int,
            day as int,
        );
    }
    CivilDate { year, month, day }
}

/// The dates are those of the civil calendar, from 1970 on: thirty days in April, June,
/// September and November, in February twenty-eight, and one more in a year that four
/// divides, but not a hundred unless four hundred does; in all others thirty-one.
pub proof fn law_calendar_has_these_days(year: int, month: int, day: int)
    ensures
        is_date(year, month, day) ==> 1970 <= year && 1 <= month <= 12 && 1 <= day <= 31,
        1970 <= year && 1 <= month <= 12 && 1 <= day <= 28 ==> is_date(year, month, day),
        1970 <= year ==> (is_date(year, 2, 29) <==> year % 4 == 0 && (year % 100 != 0 || year % 400
            == 0)),
        !is_date(year, 2, 30),
        1970 <= year && 1 <= month <= 12 && month != 2 ==> is_date(year, month, 29) && is_date(
            year,
            month,
            30,
        ) && (is_date(year, month, 31) <==> !(month == 4 || month == 6 || month == 9 || month
            == 11)),
{
}

/// The days are counted from 1 January 1970 on, one by one: the day after a date has
/// the next number, across the ends of months and years.
pub proof fn law_days_follow_each_other(year: int, month: int, day: int)
    requires
        is_date(year, month, day),
    ensures
        day_number(1970, 1, 1) == 0,
        is_date(year, month, day + 1) ==> day_number(year, month, day + 1) == day_number(
            year,
            month,
            day,
        ) + 1,
        !is_date(year, month, day + 1) && month < 12 ==> day_number(year, month + 1, 1)
            == day_number(year, month, day) + 1,
        !is_date(year, month, day + 1) && month == 12 ==> day_number(year + 1, 1, 1) == day_number(
            year,
            month,
            day,
        ) + 1,
{
    reveal_with_fuel(days_to_month, 2);
    reveal_with_fuel(days_to_year, 2);
    assert(days_to_month(year, month + 1) == days_to_month(year, month) + days_in_month(
        year,
        month,
    ));
    if month == 12 {
        lemma_year_length(year);
        assert(days_to_year(year + 1) == days_to_year(year) + days_in_year(year));
    }
}

} // verus!
