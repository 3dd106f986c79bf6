//! The Hebrew calendar: leap years, the molad of Tishrei, Rosh Hashana with
//! its postponements, and the lengths of years and months.

use vstd::prelude::*;

verus! {

// Months are numbered from Nissan; Adar II exists in leap years only.
pub const NISSAN: i64 = 1;
pub const IYAR: i64 = 2;
pub const TAMUZ: i64 = 4;
pub const ELUL: i64 = 6;
pub const TISHREI: i64 = 7;
pub const CHESHVAN: i64 = 8;
pub const KISLEV: i64 = 9;
pub const TEVES: i64 = 10;
pub const ADAR: i64 = 12;
pub const ADAR_II: i64 = 13;

/// Offset from the days counted by Rosh Hashana arithmetic to absolute days
/// (day 1 is January 1 of Gregorian year 1).
pub const JEWISH_EPOCH: i64 = -1373429;

/// Chalakim (1/1080 of an hour) in one day.
pub const CHALAKIM_PER_DAY: i64 = 25920;
/// Chalakim in one mean lunar month: 29 days, 12 hours and 793 chalakim.
pub const CHALAKIM_PER_MONTH: i64 = 765433;
/// Chalakim from the start of the Sunday before the epoch to Molad Tohu (BeHaRaD).
pub const CHALAKIM_MOLAD_TOHU: i64 = 31524;

/// Molad Zaken: a molad at or after midday (18 hours) postpones Rosh Hashana.
pub const MOLAD_ZAKEN_PARTS: i64 = 19440;
/// GaTRaD: a Tuesday molad at or after 9 hours 204 chalakim in a common year.
pub const GATRAD_PARTS: i64 = 9924;
/// BeTuTaKFoT: a Monday molad at or after 15 hours 589 chalakim after a leap year.
pub const BETUTAKFOT_PARTS: i64 = 16789;
/// The fewest days of any year.
pub const MIN_YEAR_DAYS: i64 = 353;

/// Largest Hebrew year accepted by the calendar arithmetic of this crate.
pub const MAX_HEBREW_YEAR: i64 = 1001000000;

/// Seven of every nineteen years are leap years, with thirteen months.
pub open spec fn is_leap(year: int) -> bool {
    (7 * year + 1) % 19 < 7
}

/// Position of a month counted from Tishrei (Tishrei is 1), where months are
/// numbered from Nissan (Nissan is 1, Adar II is 13).
pub open spec fn month_ordinal(year: int, month: int) -> int {
    if is_leap(year) {
        (month + 6) % 13 + 1
    } else {
        (month + 5) % 12 + 1
    }
}

/// Lunar months from Molad Tohu to the molad of Tishrei of `year`.
pub open spec fn months_elapsed(year: int) -> int {
    let in_cycle = (year - 1) % 19;
    (year - 1) / 19 * 235 + in_cycle * 12 + (7 * in_cycle + 1) / 19 + month_ordinal(year, TISHREI as int) - 1
}

/// Chalakim from the Sunday before the epoch to the molad of Tishrei of `year`.
pub open spec fn molad(year: int) -> int {
    CHALAKIM_MOLAD_TOHU + CHALAKIM_PER_MONTH * months_elapsed(year)
}

/// The day of Rosh Hashana for a molad (in chalakim), given whether the
/// previous year and the year itself are leap years: the molad's day, put off
/// by the postponement rules.
pub open spec fn postponed_day(molad: int, prev_leap: bool, this_leap: bool) -> int {
    let day = molad / (CHALAKIM_PER_DAY as int);
    let parts = molad % (CHALAKIM_PER_DAY as int);
    let first = if parts >= MOLAD_ZAKEN_PARTS {
        day + 1
    } else if (day % 7 == 2 && parts >= GATRAD_PARTS && !this_leap) || (day % 7 == 1 && parts >= BETUTAKFOT_PARTS
        && prev_leap) {
        day + 1
    } else {
        day
    };
    if first % 7 == 0 || first % 7 == 3 || first % 7 == 5 {
        first + 1
    } else {
        first
    }
}

/// Days from the Sunday before the epoch to Rosh Hashana of `year`.
pub open spec fn rosh_hashana_day(year: int) -> int {
    postponed_day(molad(year), is_leap(year - 1), is_leap(year))
}

/// Quotient and remainder of a division.
pub fn divmod(numerator: i64, denominator: i64) -> (r: (i64, i64))
    requires
        numerator >= 0,
        denominator > 0,
    ensures
        r.0 == numerator / denominator,
        r.1 == numerator % denominator,
{
    (numerator / denominator, numerator % denominator)
}

/// Whether `year` is a leap year.
pub fn is_jyear_leap(year: i64) -> (r: bool)
    requires
        0 <= year <= MAX_HEBREW_YEAR + 1,
    ensures
        r == is_leap(year as int),
{
    (7 * year + 1) % 19 < 7
}

/// The position of `month` counted from Tishrei in `year`.
pub fn get_jmonth_of_year(year: i64, month: i64) -> (r: i64)
    requires
        0 <= year <= MAX_HEBREW_YEAR + 1,
        1 <= month <= 13,
    ensures
        r == month_ordinal(year as int, month as int),
{
    if is_jyear_leap(year) {
        (month + 6) % 13 + 1
    } else {
        (month + 5) % 12 + 1
    }
}

/// Days from the Sunday before the epoch to Rosh Hashana of `year`.
pub fn get_rh_day(year: i64) -> (r: i64)
    requires
        1 <= year <= MAX_HEBREW_YEAR + 1,
    ensures
        r == rosh_hashana_day(year as int),
{
    let year_in_cycle = (year - 1) % 19;
    let months = (year - 1) / 19 * 235 + year_in_cycle * 12 + (7 * year_in_cycle + 1) / 19
        + get_jmonth_of_year(year, TISHREI) - 1;
    let chalakim_since = CHALAKIM_MOLAD_TOHU + CHALAKIM_PER_MONTH * months;
    let (mut rosh_hashana_day, molad_parts) = divmod(chalakim_since, CHALAKIM_PER_DAY);
    if molad_parts >= MOLAD_ZAKEN_PARTS {
        rosh_hashana_day += 1;
    } else {
        let temp = rosh_hashana_day % 7;
        if (temp == 2 && molad_parts >= GATRAD_PARTS && !is_jyear_leap(year)) || (temp == 1 && molad_parts
            >= BETUTAKFOT_PARTS && is_jyear_leap(year - 1)) {
            rosh_hashana_day += 1;
        }
    }
    let w = rosh_hashana_day % 7;
    if w == 0 || w == 3 || w == 5 {
        rosh_hashana_day += 1;
    }
    rosh_hashana_day
}


/// Leap years among the `count` years starting at `first`.
pub open spec fn leap_years_in(first: int, count: nat) -> nat
    decreases count,
{
    if count == 0 {
        0
    } else {
        leap_years_in(first, (count - 1) as nat) + if is_leap(first + count - 1) {
            1nat
        } else {
            0nat
        }
    }
}

proof fn lemma_leap_period(year: int)
    ensures
        is_leap(year + 19) == is_leap(year),
{
    assert(7 * (year + 19) + 1 == (7 * year + 1) + 19 * 7);
    vstd::arithmetic::div_mod::lemma_mod_multiples_vanish(7, 7 * year + 1, 19);
}

proof fn lemma_leap_years_front(first: int, count: nat)
    ensures
        leap_years_in(first, count + 1) == (if is_leap(first) {
            1nat
        } else {
            0nat
        }) + leap_years_in(first + 1, count),
    decreases count,
{
    if count > 0 {
        lemma_leap_years_front(first, (count - 1) as nat);
        assert(first + (count + 1) - 1 == (first + 1) + count - 1);
        assert(leap_years_in(first, count + 1) == leap_years_in(first, count) + if is_leap(
            first + count,
        ) {
            1nat
        } else {
            0nat
        });
    } else {
        assert(leap_years_in(first, 1) == leap_years_in(first, 0) + if is_leap(first) {
            1nat
        } else {
            0nat
        });
    }
}

proof fn lemma_leap_years_step(first: int)
    ensures
        leap_years_in(first + 1, 19) == leap_years_in(first, 19),
{
    lemma_leap_years_front(first, 19);
    lemma_leap_period(first);
    assert(leap_years_in(first, 20) == leap_years_in(first, 19) + if is_leap(first + 19) {
        1nat
    } else {
        0nat
    });
}

/// Exactly seven of any nineteen consecutive years are leap years.
pub proof fn lemma_seven_leap_years_in_nineteen(first: int)
    ensures
        leap_years_in(first, 19) == 7,
    decreases (if first >= 0 { first } else { -first }),
{
    if first == 0 {
        reveal_with_fuel(leap_years_in, 20);
    } else if first > 0 {
        lemma_seven_leap_years_in_nineteen(first - 1);
        lemma_leap_years_step(first - 1);
    } else {
        lemma_seven_leap_years_in_nineteen(first + 1);
        lemma_leap_years_step(first);
    }
}

/// Rosh Hashana never falls on a Sunday, a Wednesday or a Friday.
pub proof fn lemma_rosh_hashana_weekday(year: int)
    requires
        year >= 1,
    ensures
        rosh_hashana_day(year) % 7 != 0,
        rosh_hashana_day(year) % 7 != 3,
        rosh_hashana_day(year) % 7 != 5,
{
    let m = molad(year);
    let cpd = CHALAKIM_PER_DAY as int;
    let day = m / cpd;
    let parts = m % cpd;
    let first = if parts >= MOLAD_ZAKEN_PARTS {
        day + 1
    } else if (day % 7 == 2 && parts >= GATRAD_PARTS && !is_leap(year)) || (day % 7 == 1 && parts
        >= BETUTAKFOT_PARTS && is_leap(year - 1)) {
        day + 1
    } else {
        day
    };
    assert(rosh_hashana_day(year) == if first % 7 == 0 || first % 7 == 3 || first % 7 == 5 {
        first + 1
    } else {
        first
    });
    vstd::arithmetic::div_mod::lemma_add_mod_noop(first, 1, 7);
}


/// Days in `year`: from its Rosh Hashana to the next.
pub open spec fn days_in_year(year: int) -> int {
    rosh_hashana_day(year + 1) - rosh_hashana_day(year)
}

/// Days by which Rosh Hashana follows the day of its molad, given the
/// molad's weekday (0 is Sunday) and its chalakim into that day.
pub open spec fn postponement(weekday: int, parts: int, prev_leap: bool, this_leap: bool) -> int {
    let first = if parts >= MOLAD_ZAKEN_PARTS {
        1int
    } else if (weekday == 2 && parts >= GATRAD_PARTS && !this_leap) || (weekday == 1 && parts >= BETUTAKFOT_PARTS
        && prev_leap) {
        1int
    } else {
        0int
    };
    let w = (weekday + first) % 7;
    first + if w == 0 || w == 3 || w == 5 {
        1int
    } else {
        0int
    }
}

proof fn lemma_postponed_day_parts(molad: int, prev_leap: bool, this_leap: bool)
    ensures
        postponed_day(molad, prev_leap, this_leap) == molad / (CHALAKIM_PER_DAY as int)
            + postponement(
            (molad / (CHALAKIM_PER_DAY as int)) % 7,
            molad % (CHALAKIM_PER_DAY as int),
            prev_leap,
            this_leap,
        ),
{
    let day = molad / (CHALAKIM_PER_DAY as int);
    vstd::arithmetic::div_mod::lemma_add_mod_noop(day, 1, 7);
    vstd::arithmetic::div_mod::lemma_add_mod_noop(day % 7, 1, 7);
    vstd::arithmetic::div_mod::lemma_mod_twice(day, 7);
}

/// The postponements of two successive years, with the molad moving on by
/// twelve lunar months (354 days and 9516 chalakim), or thirteen in a leap
/// year (383 days and 23269 chalakim), leave a year of 353 to 355 days, or
/// 383 to 385 days in a leap year.
proof fn lemma_postponement_span(
    weekday: int,
    parts: int,
    prev_leap: bool,
    this_leap: bool,
    next_leap: bool,
)
    requires
        0 <= weekday < 7,
        0 <= parts < CHALAKIM_PER_DAY,
        this_leap ==> !prev_leap && !next_leap,
    ensures
        ({
            let whole = if this_leap { 383int } else { 354int };
            let extra = if this_leap { 23269int } else { 9516int };
            let carry = if parts + extra >= CHALAKIM_PER_DAY { 1int } else { 0int };
            let len = whole + carry + postponement(
                (weekday + whole + carry) % 7,
                parts + extra - carry * CHALAKIM_PER_DAY,
                this_leap,
                next_leap,
            ) - postponement(weekday, parts, prev_leap, this_leap);
            if this_leap {
                383 <= len <= 385
            } else {
                353 <= len <= 355
            }
        }),
{
}


proof fn lemma_leap_neighbours(year: int)
    ensures
        is_leap(year) ==> !is_leap(year - 1) && !is_leap(year + 1),
{
    let t = 7 * year + 1;
    vstd::arithmetic::div_mod::lemma_add_mod_noop(t, 7, 19);
    vstd::arithmetic::div_mod::lemma_add_mod_noop(t, -7, 19);
    assert(7 * (year + 1) + 1 == t + 7);
    assert(7 * (year - 1) + 1 == t + -7);
}

/// Tishrei of `year + 1` comes twelve lunar months after Tishrei of `year`,
/// thirteen when `year` is a leap year.
proof fn lemma_months_step(year: int)
    requires
        year >= 1,
    ensures
        months_elapsed(year + 1) == months_elapsed(year) + if is_leap(year) {
            13int
        } else {
            12int
        },
{
    let q = (year - 1) / 19;
    let r = (year - 1) % 19;
    assert(month_ordinal(year, TISHREI as int) == 1);
    assert(month_ordinal(year + 1, TISHREI as int) == 1);
    assert(7 * year + 1 == 19 * (7 * q) + (7 * (r + 1) + 1));
    vstd::arithmetic::div_mod::lemma_mod_multiples_vanish(7 * q, 7 * (r + 1) + 1, 19);
    if r < 18 {
        vstd::arithmetic::div_mod::lemma_fundamental_div_mod_converse(year, 19, q, r + 1);
    } else {
        vstd::arithmetic::div_mod::lemma_fundamental_div_mod_converse(year, 19, q + 1, 0);
    }
}

/// A year has 353, 354 or 355 days, or 383, 384 or 385 days when it is a
/// leap year.
pub proof fn lemma_year_length(year: int)
    requires
        year >= 1,
    ensures
        is_leap(year) ==> 383 <= days_in_year(year) <= 385,
        !is_leap(year) ==> 353 <= days_in_year(year) <= 355,
        days_in_year(year) == 353 || days_in_year(year) == 354 || days_in_year(year) == 355
            || days_in_year(year) == 383 || days_in_year(year) == 384 || days_in_year(year) == 385,
{
    let lp = is_leap(year - 1);
    let lc = is_leap(year);
    let ln = is_leap(year + 1);
    let m = molad(year);
    let cpd = CHALAKIM_PER_DAY as int;
    let day = m / cpd;
    let parts = m % cpd;
    let weekday = day % 7;
    lemma_leap_neighbours(year);
    lemma_months_step(year);
    lemma_postponement_span(weekday, parts, lp, lc, ln);
    lemma_postponed_day_parts(m, lp, lc);
    lemma_postponed_day_parts(molad(year + 1), lc, ln);
    let whole = if lc { 383int } else { 354int };
    let extra = if lc { 23269int } else { 9516int };
    let carry = if parts + extra >= cpd { 1int } else { 0int };
    assert(molad(year + 1) == m + CHALAKIM_PER_MONTH * (if lc { 13int } else { 12int }));
    assert(molad(year + 1) == (day + whole + carry) * cpd + (parts + extra - carry * cpd)) by {
        vstd::arithmetic::div_mod::lemma_fundamental_div_mod(m, cpd);
    }
    vstd::arithmetic::div_mod::lemma_fundamental_div_mod_converse(
        molad(year + 1),
        cpd,
        day + whole + carry,
        parts + extra - carry * cpd,
    );
    vstd::arithmetic::div_mod::lemma_add_mod_noop(day, whole + carry, 7);
    vstd::arithmetic::div_mod::lemma_add_mod_noop(weekday, whole + carry, 7);
    vstd::arithmetic::div_mod::lemma_mod_twice(day, 7);
}


/// Whether Cheshvan has 30 days in `year` (a complete year).
pub open spec fn cheshvan_long(year: int) -> bool {
    days_in_year(year) % 10 == 5
}

/// Whether Kislev has only 29 days in `year` (a deficient year).
pub open spec fn kislev_short(year: int) -> bool {
    days_in_year(year) % 10 == 3
}

/// Days in `month` of `year`.
pub open spec fn month_days(month: int, year: int) -> int {
    if month == IYAR || month == TAMUZ || month == ELUL || month == TEVES || month == ADAR_II {
        29
    } else if month == CHESHVAN {
        if cheshvan_long(year) {
            30
        } else {
            29
        }
    } else if month == KISLEV {
        if kislev_short(year) {
            29
        } else {
            30
        }
    } else if month == ADAR {
        if is_leap(year) {
            30
        } else {
            29
        }
    } else {
        30
    }
}

/// Months in `year`.
pub open spec fn months_in_year(year: int) -> int {
    if is_leap(year) {
        13
    } else {
        12
    }
}

/// The month (numbered from Nissan) at a position counted from Tishrei.
pub open spec fn month_at(year: int, ordinal: int) -> int {
    if ordinal <= 6 {
        ordinal + 6
    } else if is_leap(year) {
        if ordinal == 7 {
            ADAR_II as int
        } else {
            ordinal - 7
        }
    } else {
        ordinal - 6
    }
}

/// Days of `year` before the month at position `ordinal` from Tishrei.
pub open spec fn days_before(year: int, ordinal: int) -> int
    decreases ordinal,
{
    if ordinal <= 1 {
        0
    } else {
        days_before(year, ordinal - 1) + month_days(month_at(year, ordinal - 1), year)
    }
}

/// A month number that exists in `year`: month 13 (Adar II) only in leap years.
pub open spec fn valid_month(year: int, month: int) -> bool {
    1 <= month <= months_in_year(year)
}

/// A Hebrew date within the range of this crate.
pub open spec fn valid_hebrew(year: int, month: int, day: int) -> bool {
    1 <= year <= MAX_HEBREW_YEAR && valid_month(year, month) && 1 <= day <= month_days(month, year)
}

/// Absolute day of a Hebrew date.
pub open spec fn hebrew_to_abs(year: int, month: int, day: int) -> int {
    day + days_before(year, month_ordinal(year, month)) + rosh_hashana_day(year) + JEWISH_EPOCH
}

/// Rosh Hashana of `year` comes at least 365 days, less a month, for each
/// earlier year, and at most 366 days for each year up to `year`.
pub proof fn lemma_rosh_hashana_range(year: int)
    requires
        year >= 1,
    ensures
        365 * (year - 1) - 31 <= rosh_hashana_day(year) <= 366 * year,
{
    let q = (year - 1) / 19;
    let c = (year - 1) % 19;
    let months = months_elapsed(year);
    assert(month_ordinal(year, TISHREI as int) == 1);
    assert(0 <= (7 * c + 1) / 19 <= 7);
    assert(19 * months <= 235 * (year - 1) + 19);
    assert(19 * months >= 235 * (year - 1) - 19);
    let m = molad(year);
    let cpd = CHALAKIM_PER_DAY as int;
    vstd::arithmetic::div_mod::lemma_fundamental_div_mod(m, cpd);
    let day = m / cpd;
    assert(day * cpd <= m < day * cpd + cpd);
    assert(19 * 25920 * day <= 19 * 31524 + 765433 * (235 * (year - 1) + 19)) by (nonlinear_arith)
        requires
            day * 25920 <= m,
            m == 31524 + 765433 * months,
            19 * months <= 235 * (year - 1) + 19,
    ;
    assert(19 * 25920 * day + 19 * 25920 > 19 * 31524 + 765433 * (235 * (year - 1) - 19))
        by (nonlinear_arith)
        requires
            m < day * 25920 + 25920,
            m == 31524 + 765433 * months,
            19 * months >= 235 * (year - 1) - 19,
    ;
    lemma_postponed_day_parts(m, is_leap(year - 1), is_leap(year));
}

/// Absolute day of Rosh Hashana (Tishrei 1) of `year`.
pub open spec fn year_start(year: int) -> int {
    rosh_hashana_day(year) + JEWISH_EPOCH + 1
}

/// The Hebrew date of absolute day `abs`: the valid date that maps to it.
pub open spec fn hebrew_from_abs(abs: int) -> (int, int, int) {
    choose|h: (int, int, int)| valid_hebrew(h.0, h.1, h.2) && hebrew_to_abs(h.0, h.1, h.2) == abs
}

/// Counting months from Tishrei is a one-to-one numbering of the months of a year.
pub proof fn lemma_month_ordinal(year: int, month: int)
    requires
        valid_month(year, month),
    ensures
        1 <= month_ordinal(year, month) <= months_in_year(year),
        month_at(year, month_ordinal(year, month)) == month,
{
}

/// The month at each position from Tishrei exists and has that position.
pub proof fn lemma_month_at(year: int, ordinal: int)
    requires
        1 <= ordinal <= months_in_year(year),
    ensures
        valid_month(year, month_at(year, ordinal)),
        month_ordinal(year, month_at(year, ordinal)) == ordinal,
{
}

/// The months of a year add up to the days of the year.
pub proof fn lemma_months_fill_year(year: int)
    requires
        year >= 1,
    ensures
        days_before(year, months_in_year(year) + 1) == days_in_year(year),
{
    lemma_year_length(year);
    reveal_with_fuel(days_before, 14);
}

proof fn lemma_days_before_grows(year: int, a: int, b: int)
    requires
        1 <= a <= b,
    ensures
        days_before(year, a) + 29 * (b - a) <= days_before(year, b),
    decreases b - a,
{
    if a < b {
        lemma_days_before_grows(year, a, b - 1);
    }
}

proof fn lemma_year_start_grows(a: int, b: int)
    requires
        1 <= a <= b,
    ensures
        year_start(a) + 353 * (b - a) <= year_start(b),
    decreases b - a,
{
    if a < b {
        lemma_year_start_grows(a, b - 1);
        lemma_year_length(b - 1);
    }
}

/// A valid date falls within its own year.
pub proof fn lemma_date_in_hebrew_year(year: int, month: int, day: int)
    requires
        valid_hebrew(year, month, day),
    ensures
        hebrew_to_abs(year, month, day) == year_start(year) + days_before(
            year,
            month_ordinal(year, month),
        ) + day - 1,
        year_start(year) <= hebrew_to_abs(year, month, day) < year_start(year + 1),
{
    let o = month_ordinal(year, month);
    let n = months_in_year(year);
    lemma_month_ordinal(year, month);
    lemma_months_fill_year(year);
    lemma_days_before_grows(year, 1, o);
    lemma_days_before_grows(year, o + 1, n + 1);
    assert(days_before(year, o + 1) == days_before(year, o) + month_days(month, year));
}

/// Distinct valid Hebrew dates have distinct absolute days.
proof fn lemma_hebrew_injective(y1: int, m1: int, d1: int, y2: int, m2: int, d2: int)
    requires
        valid_hebrew(y1, m1, d1),
        valid_hebrew(y2, m2, d2),
        hebrew_to_abs(y1, m1, d1) == hebrew_to_abs(y2, m2, d2),
    ensures
        y1 == y2 && m1 == m2 && d1 == d2,
{
    lemma_date_in_hebrew_year(y1, m1, d1);
    lemma_date_in_hebrew_year(y2, m2, d2);
    if y1 < y2 {
        lemma_year_start_grows(y1 + 1, y2);
    } else if y2 < y1 {
        lemma_year_start_grows(y2 + 1, y1);
    }
    assert(y1 == y2);
    let o1 = month_ordinal(y1, m1);
    let o2 = month_ordinal(y1, m2);
    lemma_month_ordinal(y1, m1);
    lemma_month_ordinal(y1, m2);
    if o1 < o2 {
        lemma_days_before_grows(y1, o1 + 1, o2);
        assert(days_before(y1, o1 + 1) == days_before(y1, o1) + month_days(m1, y1));
    } else if o2 < o1 {
        lemma_days_before_grows(y1, o2 + 1, o1);
        assert(days_before(y1, o2 + 1) == days_before(y1, o2) + month_days(m2, y1));
    }
}

/// Converting a valid Hebrew date to its absolute day and back gives the
/// same date.
pub proof fn lemma_hebrew_abs_round_trip(year: int, month: int, day: int)
    requires
        valid_hebrew(year, month, day),
    ensures
        hebrew_from_abs(hebrew_to_abs(year, month, day)) == (year, month, day),
{
    let abs = hebrew_to_abs(year, month, day);
    let w = (year, month, day);
    assert(valid_hebrew(w.0, w.1, w.2) && hebrew_to_abs(w.0, w.1, w.2) == abs);
    let h = hebrew_from_abs(abs);
    lemma_hebrew_injective(h.0, h.1, h.2, year, month, day);
}

/// Days in `year`.
pub fn get_days_in_jyear(year: i64) -> (r: i64)
    requires
        1 <= year <= MAX_HEBREW_YEAR,
    ensures
        r == days_in_year(year as int),
{
    proof {
        lemma_year_length(year as int);
    }
    get_rh_day(year + 1) - get_rh_day(year)
}

/// Whether Cheshvan has 30 days in `year`.
pub fn is_cheshvan_long(year: i64) -> (r: bool)
    requires
        1 <= year <= MAX_HEBREW_YEAR,
    ensures
        r == cheshvan_long(year as int),
{
    proof {
        lemma_year_length(year as int);
    }
    get_days_in_jyear(year) % 10 == 5
}

/// Whether Kislev has only 29 days in `year`.
pub fn is_kislev_short(year: i64) -> (r: bool)
    requires
        1 <= year <= MAX_HEBREW_YEAR,
    ensures
        r == kislev_short(year as int),
{
    proof {
        lemma_year_length(year as int);
    }
    get_days_in_jyear(year) % 10 == 3
}

/// Days in Cheshvan and in Kislev of `year`.
pub fn get_days_cheshvan_kislev(year: i64) -> (r: (i64, i64))
    requires
        1 <= year <= MAX_HEBREW_YEAR,
    ensures
        r.0 == month_days(CHESHVAN as int, year as int),
        r.1 == month_days(KISLEV as int, year as int),
{
    proof {
        lemma_year_length(year as int);
    }
    let days = get_days_in_jyear(year);
    let cheshvandays = if days % 10 == 5 {
        30
    } else {
        29
    };
    let kislevdays = if days % 10 == 3 {
        29
    } else {
        30
    };
    (cheshvandays, kislevdays)
}

/// Days in `month` of `year`.
pub fn get_days_in_jmonth(month: i64, year: i64) -> (r: i64)
    requires
        1 <= year <= MAX_HEBREW_YEAR,
    ensures
        r == month_days(month as int, year as int),
{
    if month == IYAR || month == TAMUZ || month == ELUL || month == TEVES || month == ADAR_II {
        29
    } else if month == CHESHVAN {
        if is_cheshvan_long(year) {
            30
        } else {
            29
        }
    } else if month == KISLEV {
        if is_kislev_short(year) {
            29
        } else {
            30
        }
    } else if month == ADAR {
        if is_jyear_leap(year) {
            30
        } else {
            29
        }
    } else {
        30
    }
}

/// Absolute day of the Hebrew date `day` of `month` of `year`.
pub fn jdate_to_abs_date(year: i64, month: i64, day: i64) -> (r: i64)
    requires
        1 <= year <= MAX_HEBREW_YEAR,
        valid_month(year as int, month as int),
        1 <= day <= 30,
    ensures
        r == hebrew_to_abs(year as int, month as int, day as int),
{
    let mut elapsed_days = day;
    let leap = is_jyear_leap(year);
    if month < TISHREI {
        let last = if leap {
            ADAR_II
        } else {
            ADAR
        };
        for mon in TISHREI..last + 1
            invariant
                1 <= year <= MAX_HEBREW_YEAR,
                1 <= day <= 30,
                leap == is_leap(year as int),
                last == if leap { ADAR_II } else { ADAR },
                elapsed_days == day + days_before(year as int, mon - 6),
                day <= elapsed_days <= day + 30 * (mon - 7),
        {
            assert(month_at(year as int, mon - 6) == mon);
            elapsed_days += get_days_in_jmonth(mon, year);
        }
        let offset: i64 = if leap {
            7
        } else {
            6
        };
        for mon in NISSAN..month
            invariant
                1 <= year <= MAX_HEBREW_YEAR,
                1 <= day <= 30,
                1 <= month < TISHREI,
                leap == is_leap(year as int),
                offset == if leap { 7i64 } else { 6i64 },
                elapsed_days == day + days_before(year as int, mon + offset),
                day <= elapsed_days <= day + 30 * (mon + offset - 1),
        {
            assert(month_at(year as int, mon + offset) == mon);
            elapsed_days += get_days_in_jmonth(mon, year);
        }
    } else {
        for mon in TISHREI..month
            invariant
                1 <= year <= MAX_HEBREW_YEAR,
                1 <= day <= 30,
                TISHREI <= month <= 13,
                elapsed_days == day + days_before(year as int, mon - 6),
                day <= elapsed_days <= day + 30 * (mon - 7),
        {
            assert(month_at(year as int, mon - 6) == mon);
            elapsed_days += get_days_in_jmonth(mon, year);
        }
    }
    proof {
        lemma_rosh_hashana_range(year as int);
    }
    elapsed_days + get_rh_day(year) + JEWISH_EPOCH
}

} // verus!
