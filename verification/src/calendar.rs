//! The proleptic Gregorian calendar, counted in days from 1970-01-01.
use vstd::prelude::*;

verus! {

/// Whether `year` has a 29th of February.
pub open spec fn is_leap_year(year: int) -> bool {
    (year % 4 == 0 && year % 100 != 0) || year % 400 == 0
}

/// How many days month `month` of `year` has.
pub open spec fn days_in_month(year: int, month: int) -> int {
    if month == 2 {
        if is_leap_year(year) {
            29
        } else {
            28
        }
    } else if month == 4 || month == 6 || month == 9 || month == 11 {
        30
    } else {
        31
    }
}

/// A day that exists in the calendar.
pub open spec fn is_valid_date(year: int, month: int, day: int) -> bool {
    &&& 1 <= month <= 12
    &&& 1 <= day <= days_in_month(year, month)
}

/// The days of `year` that come before the first of `month`.
pub open spec fn days_before_month(year: int, month: int) -> int {
    let common: int = if month <= 1 {
        0
    } else if month == 2 {
        31
    } else if month == 3 {
        59
    } else if month == 4 {
        90
    } else if month == 5 {
        120
    } else if month == 6 {
        151
    } else if month == 7 {
        181
    } else if month == 8 {
        212
    } else if month == 9 {
        243
    } else if month == 10 {
        273
    } else if month == 11 {
        304
    } else {
        334
    };
    if month > 2 && is_leap_year(year) {
        common + 1
    } else {
        common
    }
}

/// How many leap years come before `year`, counted from the year 1.
pub open spec fn leap_years_before(year: int) -> int {
    (year - 1) / 4 - (year - 1) / 100 + (year - 1) / 400
}

/// The number of days from 1970-01-01 to the given date (negative before it).
pub open spec fn days_from_civil(year: int, month: int, day: int) -> int {
    365 * (year - 1970) + leap_years_before(year) - leap_years_before(1970) + days_before_month(
        year,
        month,
    ) + day - 1
}

/// Counting starts on the first of January 1970, a year takes as many days as it has, and a
/// month as many as it has: these three facts are the whole of `days_from_civil`.
pub proof fn lemma_days_from_civil_counts_days(year: int, month: int)
    requires
        1 <= month <= 12,
    ensures
        days_from_civil(1970, 1, 1) == 0,
        days_from_civil(year + 1, 1, 1) == days_from_civil(year, 1, 1) + 365 + (if is_leap_year(
            year,
        ) {
            1int
        } else {
            0int
        }),
        month < 12 ==> days_from_civil(year, month + 1, 1) == days_from_civil(year, month, 1)
            + days_in_month(year, month),
        month == 12 ==> days_from_civil(year + 1, 1, 1) == days_from_civil(year, 12, 1)
            + days_in_month(year, 12),
{
    lemma_leap_years_step(year);
}

proof fn lemma_leap_years_step(year: int)
    ensures
        leap_years_before(year + 1) == leap_years_before(year) + (if is_leap_year(year) {
            1int
        } else {
            0int
        }),
{
}

/// Days from the first of March of the year 0 to the first of March of `year`, counting the
/// years as starting in March so that the leap day ends a year.
spec fn march_year_start(year: int) -> int {
    365 * year + year / 4 - year / 100 + year / 400
}

/// The year of an era that a day of the era falls in, as the conversion computes it.
spec fn year_of_era(day_of_era: int) -> int {
    (day_of_era - day_of_era / 1460 + day_of_era / 36524 - day_of_era / 146096) / 365
}

spec fn era_estimate(day_of_era: int) -> int {
    day_of_era - day_of_era / 1460 + day_of_era / 36524 - day_of_era / 146096
}

/// Days from the first of March to the first of the `shifted`th month after it.
spec fn days_before_march_month(shifted: int) -> int {
    (153 * shifted + 2) / 5
}

proof fn lemma_estimate_monotone(a: int, b: int)
    requires
        0 <= a <= b,
    ensures
        era_estimate(a) <= era_estimate(b),
{
    assert(b / 1460 - a / 1460 <= b - a) by (nonlinear_arith)
        requires
            0 <= a <= b,
    ;
    assert(b / 146096 - a / 146096 <= b / 36524 - a / 36524) by (nonlinear_arith)
        requires
            0 <= a <= b,
    {
        assert(b / 146096 == (b / 36524) / 4);
        assert(a / 146096 == (a / 36524) / 4);
        assert(a / 36524 <= b / 36524);
    }
}

proof fn lemma_year_boundaries(year: int)
    requires
        0 <= year <= 399,
    ensures
        year_of_era(march_year_start(year)) == year,
        year_of_era(march_year_start(year + 1) - 1) == year,
{
    let c = year / 100;
    let r = year % 100;
    let q = r / 4;
    let s = r % 4;
    assert(year == 100 * c + 4 * q + s);
    assert(0 <= c <= 3 && 0 <= q <= 24 && 0 <= s <= 3);
}

proof fn lemma_year_of_era(day_of_era: int)
    requires
        0 <= day_of_era <= 146096,
    ensures
        0 <= year_of_era(day_of_era) <= 399,
        march_year_start(year_of_era(day_of_era)) <= day_of_era,
        day_of_era < march_year_start(year_of_era(day_of_era) + 1),
{
    let y = year_of_era(day_of_era);
    assert(0 <= y <= 399) by {
        lemma_estimate_monotone(day_of_era, 146096);
        lemma_estimate_monotone(0, day_of_era);
    }
    lemma_year_boundaries(y);
    if day_of_era < march_year_start(y) {
        lemma_year_boundaries((y - 1) as int);
        lemma_estimate_monotone(day_of_era, march_year_start(y) - 1);
    }
    if day_of_era >= march_year_start(y + 1) {
        if y < 399 {
            lemma_year_boundaries((y + 1) as int);
            lemma_estimate_monotone(march_year_start(y + 1), day_of_era);
        }
    }
}

proof fn lemma_month_of_year(day_of_year: int, leap: bool)
    requires
        0 <= day_of_year < 365 + (if leap {
            1int
        } else {
            0int
        }),
    ensures
        ({
            let shifted = (5 * day_of_year + 2) / 153;
            let day = day_of_year - days_before_march_month(shifted) + 1;
            let month = if shifted < 10 {
                shifted + 3
            } else {
                shifted - 9
            };
            &&& 0 <= shifted <= 11
            &&& 1 <= day
            &&& day <= (if month == 2 {
                if leap {
                    29int
                } else {
                    28int
                }
            } else if month == 4 || month == 6 || month == 9 || month == 11 {
                30int
            } else {
                31int
            })
        }),
{
}

proof fn lemma_march_year_length(year: int)
    requires
        0 <= year <= 399,
    ensures
        march_year_start(year + 1) - march_year_start(year) == 365 + (if is_leap_year(year + 1) {
            1int
        } else {
            0int
        }),
{
}

proof fn lemma_leap_year_period(year: int, era: int)
    ensures
        is_leap_year(year + 400 * era) == is_leap_year(year),
{
    assert((year + 400 * era) % 4 == year % 4) by (nonlinear_arith);
    assert((year + 400 * era) % 100 == year % 100) by (nonlinear_arith);
    assert((year + 400 * era) % 400 == year % 400) by (nonlinear_arith);
}

proof fn lemma_leap_years_by_era(year_of_era: int, era: int)
    requires
        0 <= year_of_era <= 399,
    ensures
        leap_years_before(year_of_era + 400 * era + 1) == 97 * era + year_of_era / 4
            - year_of_era / 100,
{
    let y = year_of_era + 400 * era;
    assert(y / 4 == 100 * era + year_of_era / 4) by (nonlinear_arith)
        requires
            y == year_of_era + 400 * era,
            0 <= year_of_era <= 399,
    ;
    assert(y / 100 == 4 * era + year_of_era / 100) by (nonlinear_arith)
        requires
            y == year_of_era + 400 * era,
            0 <= year_of_era <= 399,
    ;
    assert(y / 400 == era) by (nonlinear_arith)
        requires
            y == year_of_era + 400 * era,
            0 <= year_of_era <= 399,
    ;
}

/// The month table, counted from March: days before each month and its common length.
proof fn lemma_march_month_table(shifted: int)
    requires
        0 <= shifted <= 11,
    ensures
        shifted < 10 ==> days_before_month(0, shifted + 3) == 59 + days_before_march_month(shifted)
            + (if is_leap_year(0) {
            1int
        } else {
            0int
        }),
        shifted >= 10 ==> days_before_month(1, shifted - 9) == days_before_march_month(shifted)
            - 306,
{
}

proof fn lemma_month_table_any_year(year: int, month: int)
    requires
        1 <= month <= 12,
    ensures
        days_before_month(year, month) == days_before_month(1, month) + (if month > 2
            && is_leap_year(year) {
            1int
        } else {
            0int
        }),
{
}

proof fn lemma_civil_days(z: int, era: int, year_of_era: int, day_of_year: int, shifted: int, day: int)
    requires
        0 <= year_of_era <= 399,
        0 <= shifted <= 11,
        z == 146097 * era + 365 * year_of_era + year_of_era / 4 - year_of_era / 100 + day_of_year,
        day_of_year == days_before_march_month(shifted) + day - 1,
        leap_years_before(year_of_era + 400 * era + 1) == 97 * era + year_of_era / 4 - year_of_era
            / 100,
    ensures
        ({
            let month = if shifted < 10 {
                shifted + 3
            } else {
                shifted - 9
            };
            let year = year_of_era + era * 400;
            let civil_year = if month <= 2 {
                year + 1
            } else {
                year
            };
            days_from_civil(civil_year, month, day) == z - 719468
        }),
{
    let year = year_of_era + era * 400;
    lemma_march_month_table(shifted);
    lemma_leap_years_step(year);
    if shifted < 10 {
        lemma_month_table_any_year(year, shifted + 3);
        lemma_month_table_any_year(0, shifted + 3);
    } else {
        lemma_month_table_any_year(year + 1, shifted - 9);
    }
}

/// The arithmetic of [`civil_from_days`], on unbounded integers.
proof fn lemma_civil(z: int, era: int, day_of_era: int, year_of_era: int, day_of_year: int, shifted: int)
    requires
        era == z / 146097,
        day_of_era == z - era * 146097,
        year_of_era == (day_of_era - day_of_era / 1460 + day_of_era / 36524 - day_of_era / 146096)
            / 365,
        day_of_year == day_of_era - (365 * year_of_era + year_of_era / 4 - year_of_era / 100),
        shifted == (5 * day_of_year + 2) / 153,
    ensures
        0 <= day_of_year <= 365,
        0 <= shifted <= 11,
        ({
            let day = day_of_year - (153 * shifted + 2) / 5 + 1;
            let month = if shifted < 10 {
                shifted + 3
            } else {
                shifted - 9
            };
            let year = year_of_era + era * 400;
            let civil_year = if month <= 2 {
                year + 1
            } else {
                year
            };
            &&& 1 <= day <= 31
            &&& is_valid_date(civil_year, month, day)
            &&& days_from_civil(civil_year, month, day) == z - 719468
        }),
{
    assert(0 <= day_of_era < 146097) by (nonlinear_arith)
        requires
            era == z / 146097,
            day_of_era == z - era * 146097,
    ;
    lemma_year_of_era(day_of_era);
    lemma_march_year_length(year_of_era);
    let leap = is_leap_year(year_of_era + 1);
    lemma_month_of_year(day_of_year, leap);
    let day = day_of_year - (153 * shifted + 2) / 5 + 1;
    let year = year_of_era + era * 400;
    lemma_leap_year_period(year_of_era + 1, era);
    lemma_leap_years_by_era(year_of_era, era);
    lemma_civil_days(z, era, year_of_era, day_of_year, shifted, day);
}

/// Converts a day count since 1970-01-01 into the calendar date it falls on.
///
/// The result is a date that exists, and it lies exactly `days` days after the epoch.
pub fn civil_from_days(days: i64) -> (date: (i64, u32, u32))
    requires
        days <= i64::MAX - 719_468,
    ensures
        is_valid_date(date.0 as int, date.1 as int, date.2 as int),
        days_from_civil(date.0 as int, date.1 as int, date.2 as int) == days,
{
    let z: i64 = days + 719_468;
    let era: i64 = if z >= 0 {
        z / 146_097
    } else {
        -((146_096 - z) / 146_097)
    };
    assert(era == z / 146_097) by (nonlinear_arith)
        requires
            z >= 0 ==> era == z / 146_097,
            z < 0 ==> era == -((146_096 - z) / 146_097),
    ;
    assert(-63_200_000_000_000 <= era <= 63_200_000_000_000) by (nonlinear_arith)
        requires
            era == z / 146_097,
            -9_223_372_036_854_775_808 <= z <= 9_223_372_036_854_775_807,
    ;
    let day_of_era: i64 = z - era * 146_097;
    proof {
        assert(0 <= day_of_era < 146097) by (nonlinear_arith)
            requires
                era == z / 146097,
                day_of_era == z - era * 146097,
        ;
    }
    let year_of_era: i64 = (day_of_era - day_of_era / 1460 + day_of_era / 36_524 - day_of_era
        / 146_096) / 365;
    proof {
        lemma_year_of_era(day_of_era as int);
    }
    let year: i64 = year_of_era + era * 400;
    let day_of_year: i64 = day_of_era - (365 * year_of_era + year_of_era / 4 - year_of_era / 100);
    proof {
        lemma_civil(z as int, era as int, day_of_era as int, year_of_era as int, day_of_year as int,
            (5 * day_of_year + 2) / 153);
    }
    let shifted_month: i64 = (5 * day_of_year + 2) / 153;
    let day: u32 = (day_of_year - (153 * shifted_month + 2) / 5 + 1) as u32;
    let month: u32 = if shifted_month < 10 {
        shifted_month + 3
    } else {
        shifted_month - 9
    } as u32;
    (if month <= 2 {
        year + 1
    } else {
        year
    }, month, day)
}

} // verus!
