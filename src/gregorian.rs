//! The proleptic Gregorian calendar on the absolute day axis.

use vstd::prelude::*;

verus! {

/// Largest Gregorian year accepted by this crate.
pub const MAX_GREGORIAN_YEAR: i64 = 1000000000;

/// The last absolute day of Gregorian year `MAX_GREGORIAN_YEAR`.
pub const MAX_ABS_DAY: i64 = 365242500000;

/// Gregorian leap years: divisible by 4, and not by 100 unless by 400.
pub open spec fn is_gregorian_leap(year: int) -> bool {
    (year % 4 == 0 && year % 100 != 0) || year % 400 == 0
}

/// Days before the start of `month` in a common year; month 13 stands for
/// the end of the year.
pub open spec fn common_days_before(month: int) -> int {
    if month <= 1 {
        0
    } else if month == 2 {
        31
    } else if month == 3 {
        59
    } else if month == 4 {
        90
    } else if month == 5 {
        120
    } else if month == 6 {
        151
    } else if month == 7 {
        181
    } else if month == 8 {
        212
    } else if month == 9 {
        243
    } else if month == 10 {
        273
    } else if month == 11 {
        304
    } else if month == 12 {
        334
    } else {
        365
    }
}

/// Days of `year` before the start of `month`.
pub open spec fn days_before_gmonth(month: int, year: int) -> int {
    common_days_before(month) + if month > 2 && is_gregorian_leap(year) {
        1int
    } else {
        0int
    }
}

/// Days in `month` of `year`.
pub open spec fn gregorian_month_days(month: int, year: int) -> int {
    days_before_gmonth(month + 1, year) - days_before_gmonth(month, year)
}

/// A Gregorian date within the range of this crate.
pub open spec fn valid_gregorian(year: int, month: int, day: int) -> bool {
    1 <= year <= MAX_GREGORIAN_YEAR && 1 <= month <= 12 && 1 <= day <= gregorian_month_days(month, year)
}

/// Absolute day of a Gregorian date.
pub open spec fn gregorian_to_abs(year: int, month: int, day: int) -> int {
    day + days_before_gmonth(month, year) + 365 * (year - 1) + (year - 1) / 4 - (year - 1) / 100 + (
    year - 1) / 400
}

/// Absolute day of January 1 of `year`.
pub open spec fn new_year(year: int) -> int {
    gregorian_to_abs(year, 1, 1)
}

/// The Gregorian date of absolute day `abs`: the valid date that maps to it.
pub open spec fn gregorian_from_abs(abs: int) -> (int, int, int) {
    choose|g: (int, int, int)| valid_gregorian(g.0, g.1, g.2) && gregorian_to_abs(g.0, g.1, g.2) == abs
}

proof fn lemma_div_step(y: int, k: int)
    requires
        y >= 1,
        k > 0,
    ensures
        y / k - (y - 1) / k == if y % k == 0 {
            1int
        } else {
            0int
        },
{
    let q = (y - 1) / k;
    let r = (y - 1) % k;
    vstd::arithmetic::div_mod::lemma_fundamental_div_mod(y - 1, k);
    if r == k - 1 {
        assert(y == (q + 1) * k + 0) by (nonlinear_arith)
            requires
                y - 1 == k * q + r,
                r == k - 1,
        ;
        vstd::arithmetic::div_mod::lemma_fundamental_div_mod_converse(y, k, q + 1, 0);
    } else {
        assert(y == q * k + (r + 1)) by (nonlinear_arith)
            requires
                y - 1 == k * q + r,
        ;
        vstd::arithmetic::div_mod::lemma_fundamental_div_mod_converse(y, k, q, r + 1);
    }
}

/// A Gregorian year has 365 days, 366 in a leap year.
pub proof fn lemma_gregorian_year_length(year: int)
    requires
        year >= 1,
    ensures
        new_year(year + 1) - new_year(year) == if is_gregorian_leap(year) {
            366int
        } else {
            365int
        },
        days_before_gmonth(13, year) == new_year(year + 1) - new_year(year),
{
    lemma_div_step(year, 4);
    lemma_div_step(year, 100);
    lemma_div_step(year, 400);
    assert(year % 100 == 0 ==> year % 4 == 0) by {
        if year % 100 == 0 {
            vstd::arithmetic::div_mod::lemma_fundamental_div_mod(year, 100);
            vstd::arithmetic::div_mod::lemma_fundamental_div_mod_converse(
                year,
                4,
                25 * (year / 100),
                0,
            );
        }
    }
    assert(year % 400 == 0 ==> year % 100 == 0) by {
        if year % 400 == 0 {
            vstd::arithmetic::div_mod::lemma_fundamental_div_mod(year, 400);
            vstd::arithmetic::div_mod::lemma_fundamental_div_mod_converse(
                year,
                100,
                4 * (year / 400),
                0,
            );
        }
    }
}

/// January 1 of each year lies between day `year` and day `366 * (year - 1) + 1`.
proof fn lemma_new_year_range(year: int)
    requires
        year >= 1,
    ensures
        year <= new_year(year) <= 366 * (year - 1) + 1,
        365 * (year - 1) + 1 <= new_year(year),
{
    let n = year - 1;
    assert(n / 4 >= n / 100) by {
        vstd::arithmetic::div_mod::lemma_fundamental_div_mod(n, 4);
        vstd::arithmetic::div_mod::lemma_fundamental_div_mod(n, 100);
    }
    assert(n / 4 <= n) by {
        vstd::arithmetic::div_mod::lemma_fundamental_div_mod(n, 4);
    }
    assert(n / 400 <= n / 100) by {
        vstd::arithmetic::div_mod::lemma_fundamental_div_mod(n, 400);
        vstd::arithmetic::div_mod::lemma_fundamental_div_mod(n, 100);
    }
}

/// New year days grow with the year.
proof fn lemma_new_year_monotone(a: int, b: int)
    requires
        1 <= a <= b,
    ensures
        new_year(a) + (b - a) * 365 <= new_year(b),
    decreases b - a,
{
    if a < b {
        lemma_new_year_monotone(a, b - 1);
        lemma_gregorian_year_length(b - 1);
    }
}

/// A valid date falls within its own year.
proof fn lemma_date_in_year(year: int, month: int, day: int)
    requires
        valid_gregorian(year, month, day),
    ensures
        new_year(year) <= gregorian_to_abs(year, month, day) < new_year(year + 1),
        gregorian_to_abs(year, month, day) == new_year(year) + days_before_gmonth(month, year)
            + day - 1,
{
    lemma_gregorian_year_length(year);
}

/// Distinct valid dates have distinct absolute days.
proof fn lemma_gregorian_injective(y1: int, m1: int, d1: int, y2: int, m2: int, d2: int)
    requires
        valid_gregorian(y1, m1, d1),
        valid_gregorian(y2, m2, d2),
        gregorian_to_abs(y1, m1, d1) == gregorian_to_abs(y2, m2, d2),
    ensures
        y1 == y2 && m1 == m2 && d1 == d2,
{
    lemma_date_in_year(y1, m1, d1);
    lemma_date_in_year(y2, m2, d2);
    if y1 < y2 {
        lemma_new_year_monotone(y1 + 1, y2);
    } else if y2 < y1 {
        lemma_new_year_monotone(y2 + 1, y1);
    }
    assert(y1 == y2);
    if m1 < m2 {
        assert(days_before_gmonth(m1 + 1, y1) <= days_before_gmonth(m2, y1));
    } else if m2 < m1 {
        assert(days_before_gmonth(m2 + 1, y1) <= days_before_gmonth(m1, y1));
    }
}

/// Converting a valid Gregorian date to its absolute day and back gives the
/// same date.
pub proof fn lemma_gregorian_round_trip(year: int, month: int, day: int)
    requires
        valid_gregorian(year, month, day),
    ensures
        gregorian_from_abs(gregorian_to_abs(year, month, day)) == (year, month, day),
        1 <= gregorian_to_abs(year, month, day) <= MAX_ABS_DAY,
{
    let abs = gregorian_to_abs(year, month, day);
    let g = gregorian_from_abs(abs);
    let w = (year, month, day);
    assert(valid_gregorian(w.0, w.1, w.2) && gregorian_to_abs(w.0, w.1, w.2) == abs);
    lemma_gregorian_injective(g.0, g.1, g.2, year, month, day);
    lemma_date_in_year(year, month, day);
    lemma_new_year_range(year);
    lemma_gregorian_year_length(MAX_GREGORIAN_YEAR as int);
    lemma_new_year_range(MAX_GREGORIAN_YEAR as int);
    if year < MAX_GREGORIAN_YEAR {
        lemma_new_year_monotone(year + 1, MAX_GREGORIAN_YEAR as int);
    }
}

/// Days of `year` before the start of `month`.
pub fn get_gdays_till_month_start(month: i64, year: i64) -> (r: i64)
    requires
        1 <= month <= 13,
        1 <= year <= MAX_GREGORIAN_YEAR + 1,
    ensures
        r == days_before_gmonth(month as int, year as int),
{
    let before: i64 = if month <= 1 {
        0
    } else if month == 2 {
        31
    } else if month == 3 {
        59
    } else if month == 4 {
        90
    } else if month == 5 {
        120
    } else if month == 6 {
        151
    } else if month == 7 {
        181
    } else if month == 8 {
        212
    } else if month == 9 {
        243
    } else if month == 10 {
        273
    } else if month == 11 {
        304
    } else if month == 12 {
        334
    } else {
        365
    };
    if month > 2 {
        if (year % 4 == 0 && year % 100 != 0) || (year % 400 == 0) {
            return before + 1;
        }
    }
    before
}

/// Absolute day of the Gregorian date `day` of `month` of `year`.
pub fn gdate_to_absdate(year: i64, month: i64, day: i64) -> (r: i64)
    requires
        1 <= year <= MAX_GREGORIAN_YEAR + 1,
        1 <= month <= 12,
        1 <= day <= 31,
    ensures
        r == gregorian_to_abs(year as int, month as int, day as int),
{
    let abs_date = day + get_gdays_till_month_start(month, year);
    abs_date + 365 * (year - 1) + (year - 1) / 4 - (year - 1) / 100 + (year - 1) / 400
}

/// The Gregorian date of absolute day `abs_date`.
pub fn absdate_to_gdate(abs_date: i64) -> (r: (i64, i64, i64))
    requires
        1 <= abs_date <= MAX_ABS_DAY,
    ensures
        valid_gregorian(r.0 as int, r.1 as int, r.2 as int),
        gregorian_to_abs(r.0 as int, r.1 as int, r.2 as int) == abs_date,
        (r.0 as int, r.1 as int, r.2 as int) == gregorian_from_abs(abs_date as int),
{
    let mut year = abs_date / 366;
    proof {
        lemma_gregorian_year_length(MAX_GREGORIAN_YEAR as int);
        lemma_new_year_range(MAX_GREGORIAN_YEAR as int);
        if year >= 1 {
            lemma_new_year_range(year as int);
        }
    }
    while abs_date >= gdate_to_absdate(year + 1, 1, 1)
        invariant
            1 <= abs_date <= MAX_ABS_DAY,
            0 <= year <= MAX_GREGORIAN_YEAR,
            year >= 1 ==> new_year(year as int) <= abs_date,
            new_year(MAX_GREGORIAN_YEAR + 1) == MAX_ABS_DAY + 1,
        decreases abs_date - year,
    {
        proof {
            lemma_new_year_range(year + 1);
        }
        year += 1;
    }
    proof {
        lemma_gregorian_year_length(year as int);
    }
    let mut month: i64 = 1;
    let remainder = abs_date - gdate_to_absdate(year, 1, 1);
    while get_gdays_till_month_start(month + 1, year) <= remainder
        invariant
            1 <= year <= MAX_GREGORIAN_YEAR,
            1 <= month <= 12,
            days_before_gmonth(month as int, year as int) <= remainder,
            remainder < days_before_gmonth(13, year as int),
        decreases 12 - month,
    {
        month += 1;
    }
    let day: i64 = abs_date - gdate_to_absdate(year, month, 1) + 1;
    proof {
        lemma_gregorian_round_trip(year as int, month as int, day as int);
    }
    (year, month, day)
}

} // verus!
