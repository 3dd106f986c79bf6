//! Conversion between Gregorian and Hebrew dates through absolute days.

use vstd::prelude::*;
use crate::gregorian::{
    absdate_to_gdate, days_before_gmonth, gdate_to_absdate, gregorian_from_abs, gregorian_to_abs,
    lemma_gregorian_round_trip, lemma_gregorian_year_length, new_year, valid_gregorian,
    MAX_ABS_DAY, MAX_GREGORIAN_YEAR,
};
use crate::hebrew::{
    days_before, get_days_cheshvan_kislev, get_days_in_jmonth, hebrew_from_abs, hebrew_to_abs,
    is_jyear_leap, is_leap, jdate_to_abs_date, lemma_hebrew_abs_round_trip, lemma_month_at,
    lemma_months_fill_year, lemma_rosh_hashana_range, lemma_year_length, month_at, month_days,
    months_in_year, valid_hebrew, year_start, CHESHVAN, MAX_HEBREW_YEAR, MIN_YEAR_DAYS, TISHREI,
};

verus! {

/// The Hebrew year in which most of a Gregorian year's first months fall is
/// about this much greater.
pub const HEBREW_YEAR_OFFSET: i64 = 3760;

proof fn lemma_find_year(abs: int, year: int) -> (found: int)
    requires
        1 <= year <= MAX_GREGORIAN_YEAR,
        new_year(year) <= abs <= MAX_ABS_DAY,
    ensures
        year <= found <= MAX_GREGORIAN_YEAR,
        new_year(found) <= abs < new_year(found + 1),
    decreases MAX_GREGORIAN_YEAR - year,
{
    lemma_gregorian_year_length(MAX_GREGORIAN_YEAR as int);
    lemma_gregorian_round_trip(MAX_GREGORIAN_YEAR as int, 12, 31);
    if abs < new_year(year + 1) {
        year
    } else {
        lemma_find_year(abs, year + 1)
    }
}

proof fn lemma_find_month(offset: int, year: int, month: int) -> (found: int)
    requires
        1 <= month <= 12,
        days_before_gmonth(month, year) <= offset < days_before_gmonth(13, year),
    ensures
        month <= found <= 12,
        days_before_gmonth(found, year) <= offset < days_before_gmonth(found + 1, year),
    decreases 12 - month,
{
    if offset < days_before_gmonth(month + 1, year) {
        month
    } else {
        lemma_find_month(offset, year, month + 1)
    }
}

/// Every absolute day from 1 to `MAX_ABS_DAY` is the day of a valid
/// Gregorian date.
pub proof fn lemma_gregorian_date_exists(abs: int)
    requires
        1 <= abs <= MAX_ABS_DAY,
    ensures
        ({
            let g = gregorian_from_abs(abs);
            valid_gregorian(g.0, g.1, g.2) && gregorian_to_abs(g.0, g.1, g.2) == abs
        }),
{
    lemma_gregorian_round_trip(1, 1, 1);
    let year = lemma_find_year(abs, 1);
    lemma_gregorian_year_length(year);
    let month = lemma_find_month(abs - new_year(year), year, 1);
    let w = (year, month, abs - new_year(year) - days_before_gmonth(month, year) + 1);
    assert(valid_gregorian(w.0, w.1, w.2) && gregorian_to_abs(w.0, w.1, w.2) == abs);
}

/// Converting a valid Hebrew date to the Gregorian calendar and back gives
/// the same date, for every Hebrew date from January 1 of Gregorian year 1
/// to the end of Gregorian year `MAX_GREGORIAN_YEAR`.
pub proof fn lemma_hebrew_round_trip(year: int, month: int, day: int)
    requires
        valid_hebrew(year, month, day),
        1 <= hebrew_to_abs(year, month, day) <= MAX_ABS_DAY,
    ensures
        ({
            let g = gregorian_from_abs(hebrew_to_abs(year, month, day));
            &&& valid_gregorian(g.0, g.1, g.2)
            &&& hebrew_from_abs(gregorian_to_abs(g.0, g.1, g.2)) == (year, month, day)
        }),
{
    lemma_gregorian_date_exists(hebrew_to_abs(year, month, day));
    lemma_hebrew_abs_round_trip(year, month, day);
}

/// The Hebrew date of the Gregorian date `day` of `month` of `year`.
pub fn gdate_to_jdate(year: i64, month: i64, day: i64) -> (r: (i64, i64, i64))
    requires
        valid_gregorian(year as int, month as int, day as int),
    ensures
        valid_hebrew(r.0 as int, r.1 as int, r.2 as int),
        hebrew_to_abs(r.0 as int, r.1 as int, r.2 as int) == gregorian_to_abs(
            year as int,
            month as int,
            day as int,
        ),
        (r.0 as int, r.1 as int, r.2 as int) == hebrew_from_abs(
            gregorian_to_abs(year as int, month as int, day as int),
        ),
{
    let abs_date = gdate_to_absdate(year, month, day);
    proof {
        lemma_gregorian_round_trip(year as int, month as int, day as int);
        lemma_rosh_hashana_range(1);
        lemma_rosh_hashana_range(MAX_HEBREW_YEAR as int);
    }
    // Start with the approximation, stepping back where it overshoots.
    let mut jyear = year + HEBREW_YEAR_OFFSET;
    while jdate_to_abs_date(jyear, TISHREI, 1) > abs_date
        invariant
            1 <= jyear <= year + HEBREW_YEAR_OFFSET,
            year <= MAX_GREGORIAN_YEAR,
            year_start(1) <= abs_date,
        decreases jyear,
    {
        jyear -= 1;
    }
    // Search forward for the year from the approximation.
    let mut tempabsdate = jdate_to_abs_date(jyear + 1, TISHREI, 1);
    while abs_date >= tempabsdate
        invariant_except_break
            tempabsdate == year_start(jyear + 1),
        invariant
            1 <= jyear < MAX_HEBREW_YEAR,
            year_start(jyear as int) <= abs_date <= MAX_ABS_DAY,
            year_start(MAX_HEBREW_YEAR as int) > MAX_ABS_DAY,
        ensures
            1 <= jyear < MAX_HEBREW_YEAR,
            year_start(jyear as int) <= abs_date < year_start(jyear + 1),
        decreases abs_date - year_start(jyear as int),
    {
        jyear += 1;
        proof {
            lemma_year_length(jyear as int);
            assert(jyear < MAX_HEBREW_YEAR);
        }
        if abs_date - tempabsdate < MIN_YEAR_DAYS {
            break ;
        }
        tempabsdate = jdate_to_abs_date(jyear + 1, TISHREI, 1);
    }
    let is_leap_year = is_jyear_leap(jyear);
    // Start with Tishrei and go forward month by month.
    let mut jmonth = TISHREI;
    let mut daysbeyond0ofjmonth = abs_date - jdate_to_abs_date(jyear, jmonth, 1);
    let mut daysinjmonth = get_days_in_jmonth(jmonth, jyear);
    let ghost mut ordinal: int = 1;
    proof {
        lemma_months_fill_year(jyear as int);
    }
    while daysbeyond0ofjmonth >= daysinjmonth
        invariant
            1 <= jyear < MAX_HEBREW_YEAR,
            is_leap_year == is_leap(jyear as int),
            1 <= ordinal <= months_in_year(jyear as int),
            jmonth == month_at(jyear as int, ordinal),
            daysinjmonth == month_days(jmonth as int, jyear as int),
            0 <= daysbeyond0ofjmonth,
            daysbeyond0ofjmonth + days_before(jyear as int, ordinal) + year_start(jyear as int)
                == abs_date,
            abs_date < year_start(jyear as int) + days_before(
                jyear as int,
                months_in_year(jyear as int) + 1,
            ),
        decreases daysbeyond0ofjmonth,
    {
        jmonth += 1;
        if jmonth > 12 {
            if !is_leap_year || jmonth == 14 {
                jmonth = 1;
            }
        }
        daysbeyond0ofjmonth -= daysinjmonth;
        proof {
            ordinal = ordinal + 1;
            assert(days_before(jyear as int, ordinal) == days_before(jyear as int, ordinal - 1)
                + month_days(month_at(jyear as int, ordinal - 1), jyear as int));
        }
        if jmonth == CHESHVAN {
            let (cheshvandays, kislevdays) = get_days_cheshvan_kislev(jyear);
            if daysbeyond0ofjmonth >= cheshvandays {
                jmonth += 1;
                daysbeyond0ofjmonth -= cheshvandays;
                proof {
                    ordinal = ordinal + 1;
                    assert(days_before(jyear as int, ordinal) == days_before(
                        jyear as int,
                        ordinal - 1,
                    ) + month_days(month_at(jyear as int, ordinal - 1), jyear as int));
                }
            }
            if daysbeyond0ofjmonth >= kislevdays {
                jmonth += 1;
                daysbeyond0ofjmonth -= kislevdays;
                proof {
                    ordinal = ordinal + 1;
                    assert(days_before(jyear as int, ordinal) == days_before(
                        jyear as int,
                        ordinal - 1,
                    ) + month_days(month_at(jyear as int, ordinal - 1), jyear as int));
                }
            }
        }
        daysinjmonth = get_days_in_jmonth(jmonth, jyear);
    }
    let jday = daysbeyond0ofjmonth + 1;
    proof {
        lemma_month_at(jyear as int, ordinal);
        lemma_hebrew_abs_round_trip(jyear as int, jmonth as int, jday as int);
    }
    (jyear, jmonth, jday)
}

/// The Gregorian date of the Hebrew date `day` of `month` of `year`.
pub fn jdate_to_gdate(year: i64, month: i64, day: i64) -> (r: (i64, i64, i64))
    requires
        valid_hebrew(year as int, month as int, day as int),
        1 <= hebrew_to_abs(year as int, month as int, day as int) <= MAX_ABS_DAY,
    ensures
        (r.0 as int, r.1 as int, r.2 as int) == gregorian_from_abs(
            hebrew_to_abs(year as int, month as int, day as int),
        ),
{
    absdate_to_gdate(jdate_to_abs_date(year, month, day))
}

} // verus!
