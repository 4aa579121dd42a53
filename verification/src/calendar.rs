//! Dates of the Gregorian calendar as day numbers.

use vstd::prelude::*;

verus! {

/// Days from 1970-01-01 to the given date, by a formula that counts years
/// from March on, so that the leap day comes last. Months beyond December
/// and month 0 continue the count.
pub open spec fn epoch_days(year: int, month: int, day: int) -> int {
    let y = if month <= 2 {
        year - 1
    } else {
        year
    };
    let month_of_year = if month <= 2 {
        month + 9
    } else {
        month - 3
    };
    365 * y + y / 4 - y / 100 + y / 400 + (153 * month_of_year + 2) / 5 + day - 1 - 719468
}

/// Days from 1970-01-01 to the given date.
pub fn days_since_epoch(year: u16, month: u16, day: u16) -> (r: i64)
    requires
        year > 0,
    ensures
        r == epoch_days(year as int, month as int, day as int),
        -719_900 <= r <= 30_000_000,
{
    // Howard Hinnant's civil-date algorithm: eras of 400 years.
    let y: u64 = if month <= 2 {
        year as u64 - 1
    } else {
        year as u64
    };
    let era: u64 = y / 400;
    let yoe: u64 = y - era * 400;
    let month_of_year: u64 = if month <= 2 {
        month as u64 + 9
    } else {
        month as u64 - 3
    };
    let doy: u64 = (153 * month_of_year + 2) / 5 + day as u64;
    let doe: u64 = yoe * 365 + yoe / 4 - yoe / 100 + doy;
    assert(y / 4 == 100 * era + yoe / 4);
    assert(y / 100 == 4 * era + yoe / 100);
    (era * 146097 + doe) as i64 - 719469
}

/// Whether February of `year` has 29 days.
pub open spec fn is_leap(year: int) -> bool {
    year % 4 == 0 && (year % 100 != 0 || year % 400 == 0)
}

/// Number of days of a month.
pub open spec fn days_in_month(year: int, month: int) -> int {
    if month == 2 {
        if is_leap(year) {
            29
        } else {
            28
        }
    } else if month == 4 || month == 6 || month == 9 || month == 11 {
        30
    } else {
        31
    }
}

/// Number of days of the year before the first of `month`.
pub open spec fn days_before_month(year: int, month: int) -> int
    decreases month,
{
    if month <= 1 {
        0
    } else {
        days_before_month(year, month - 1) + days_in_month(year, month - 1)
    }
}

/// Number of days from the first of January of year 0 to that of `year`.
pub open spec fn days_before_year(year: int) -> int
    decreases year,
{
    if year <= 0 {
        0
    } else {
        days_before_year(year - 1) + if is_leap(year - 1) {
            366int
        } else {
            365int
        }
    }
}

proof fn lemma_days_before_year(year: int)
    requires
        year >= 1,
    ensures
        days_before_year(year) == 365 * year + (year - 1) / 4 - (year - 1) / 100 + (year - 1) / 400
            + 1,
    decreases year,
{
    if year > 1 {
        lemma_days_before_year(year - 1);
    } else {
        reveal_with_fuel(days_before_year, 2);
    }
}

/// For every month of the calendar the day number is what counting the days
/// of years and months gives, and 1970-01-01 is day 0.
pub proof fn law_epoch_days_count_days(year: int, month: int, day: int)
    requires
        year >= 1,
        1 <= month <= 12,
    ensures
        epoch_days(year, month, day) == days_before_year(year) - days_before_year(1970)
            + days_before_month(year, month) + day - 1,
        epoch_days(1970, 1, 1) == 0,
{
    lemma_days_before_year(year);
    lemma_days_before_year(1970);
    reveal_with_fuel(days_before_month, 13);
}

/// The lengths of years and months are those of the Gregorian calendar: a year
/// has 366 days if it is divisible by 400, or by 4 and not by 100, else 365;
/// the extra day is in February.
pub proof fn law_lengths_of_years_and_months(year: int, month: int)
    requires
        year >= 0,
        1 <= month <= 12,
    ensures
        days_before_year(year + 1) - days_before_year(year) == (if year % 400 == 0 || year % 4 == 0
            && year % 100 != 0 {
            366int
        } else {
            365int
        }),
        days_before_month(year, 1) == 0,
        days_before_month(year, month + 1) - days_before_month(year, month) == (if month == 2 {
            days_before_year(year + 1) - days_before_year(year) - 337
        } else if month == 4 || month == 6 || month == 9 || month == 11 {
            30
        } else {
            31
        }),
{
}

/// The day after a day has the next number, also over the end of a month and
/// of a year.
pub proof fn law_days_follow_each_other(year: int, month: int, day: int)
    requires
        year >= 1,
        1 <= month <= 12,
    ensures
        epoch_days(year, month, day + 1) == epoch_days(year, month, day) + 1,
        month < 12 ==> epoch_days(year, month + 1, 1) == epoch_days(year, month, 1)
            + days_before_month(year, month + 1) - days_before_month(year, month),
        epoch_days(year + 1, 1, 1) == epoch_days(year, 12, 31) + 1,
{
    law_epoch_days_count_days(year, month, day);
    law_epoch_days_count_days(year, month, day + 1);
    law_epoch_days_count_days(year, month, 1);
    if month < 12 {
        law_epoch_days_count_days(year, month + 1, 1);
    }
    law_epoch_days_count_days(year + 1, 1, 1);
    law_epoch_days_count_days(year, 12, 31);
    reveal_with_fuel(days_before_month, 13);
}

/// Outside the calendar the count goes on: month 0 is the December before, and
/// from March on five months have 153 days.
pub proof fn law_months_outside_the_calendar(year: int, month: int, day: int)
    ensures
        epoch_days(year, 0, day) == epoch_days(year - 1, 12, day),
        month >= 3 ==> epoch_days(year, month + 5, day) == epoch_days(year, month, day) + 153,
{
}

} // verus!
