//! The checked conversion interface: dates as values, with typed errors for
//! inputs outside the calendars.

use vstd::prelude::*;
use crate::convert::{gdate_to_jdate, jdate_to_gdate, lemma_hebrew_round_trip};
use crate::gregorian::{
    absdate_to_gdate, gdate_to_absdate, get_gdays_till_month_start, gregorian_from_abs,
    gregorian_month_days, gregorian_to_abs, lemma_gregorian_round_trip, MAX_ABS_DAY,
    MAX_GREGORIAN_YEAR,
};
use crate::hebrew::{
    get_days_in_jmonth, hebrew_from_abs, hebrew_to_abs, is_jyear_leap, jdate_to_abs_date,
    month_days, valid_month, ADAR, ADAR_II, MAX_HEBREW_YEAR,
};

verus! {

/// A date of the Hebrew calendar; months are numbered from Nissan (1) to
/// Adar II (13).
#[derive(Clone, Copy, Debug, PartialEq, Eq, Structural)]
pub struct HebrewDate {
    pub year: i64,
    pub month: i64,
    pub day: i64,
}

/// A date of the proleptic Gregorian calendar.
#[derive(Clone, Copy, Debug, PartialEq, Eq, Structural)]
pub struct GregorianDate {
    pub year: i64,
    pub month: i64,
    pub day: i64,
}

/// Why a date was refused.
#[derive(Clone, Copy, Debug, PartialEq, Eq, Structural)]
pub enum DateError {
    /// The year is before year 1 or beyond the supported range.
    InvalidYear,
    /// The month does not exist in that year.
    InvalidMonth,
    /// The day does not exist in that month.
    InvalidDay,
}

/// What is wrong with a Gregorian date, if anything.
pub open spec fn gregorian_error(year: int, month: int, day: int) -> Option<DateError> {
    if !(1 <= year <= MAX_GREGORIAN_YEAR) {
        Some(DateError::InvalidYear)
    } else if !(1 <= month <= 12) {
        Some(DateError::InvalidMonth)
    } else if !(1 <= day <= gregorian_month_days(month, year)) {
        Some(DateError::InvalidDay)
    } else {
        None
    }
}

/// What is wrong with a Hebrew date, if anything.
pub open spec fn hebrew_error(year: int, month: int, day: int) -> Option<DateError> {
    if !(1 <= year <= MAX_HEBREW_YEAR) {
        Some(DateError::InvalidYear)
    } else if !valid_month(year, month) {
        Some(DateError::InvalidMonth)
    } else if !(1 <= day <= month_days(month, year)) {
        Some(DateError::InvalidDay)
    } else {
        None
    }
}

/// The Gregorian date of an absolute day.
pub open spec fn gregorian_date_of(abs: int) -> GregorianDate {
    let g = gregorian_from_abs(abs);
    GregorianDate { year: g.0 as i64, month: g.1 as i64, day: g.2 as i64 }
}

/// The Hebrew date of an absolute day.
pub open spec fn hebrew_date_of(abs: int) -> HebrewDate {
    let h = hebrew_from_abs(abs);
    HebrewDate { year: h.0 as i64, month: h.1 as i64, day: h.2 as i64 }
}

/// Result of converting a Gregorian date to its absolute day.
pub open spec fn gregorian_to_absolute_day_spec(year: int, month: int, day: int) -> Result<
    i64,
    DateError,
> {
    match gregorian_error(year, month, day) {
        Some(e) => Err(e),
        None => Ok(gregorian_to_abs(year, month, day) as i64),
    }
}

/// Result of converting an absolute day to a Gregorian date.
pub open spec fn absolute_day_to_gregorian_spec(abs: int) -> Result<GregorianDate, DateError> {
    if 1 <= abs <= MAX_ABS_DAY {
        Ok(gregorian_date_of(abs))
    } else {
        Err(DateError::InvalidYear)
    }
}

/// Result of converting a Hebrew date to its absolute day.
pub open spec fn hebrew_to_absolute_day_spec(year: int, month: int, day: int) -> Result<
    i64,
    DateError,
> {
    match hebrew_error(year, month, day) {
        Some(e) => Err(e),
        None => Ok(hebrew_to_abs(year, month, day) as i64),
    }
}

/// Result of converting a Gregorian date to a Hebrew date.
pub open spec fn gregorian_to_hebrew_spec(year: int, month: int, day: int) -> Result<
    HebrewDate,
    DateError,
> {
    match gregorian_error(year, month, day) {
        Some(e) => Err(e),
        None => Ok(hebrew_date_of(gregorian_to_abs(year, month, day))),
    }
}

/// Result of converting a Hebrew date to a Gregorian date: dates before
/// Gregorian year 1 or after `MAX_GREGORIAN_YEAR` have no Gregorian year.
pub open spec fn hebrew_to_gregorian_spec(year: int, month: int, day: int) -> Result<
    GregorianDate,
    DateError,
> {
    match hebrew_error(year, month, day) {
        Some(e) => Err(e),
        None => absolute_day_to_gregorian_spec(hebrew_to_abs(year, month, day)),
    }
}

/// A valid Gregorian date, taken to its absolute day and back, is the same date.
pub proof fn lemma_gregorian_date_round_trip(g: GregorianDate)
    requires
        gregorian_error(g.year as int, g.month as int, g.day as int) is None,
    ensures
        ({
            let abs = gregorian_to_abs(g.year as int, g.month as int, g.day as int);
            &&& gregorian_to_absolute_day_spec(g.year as int, g.month as int, g.day as int) == Ok::<
                i64,
                DateError,
            >(abs as i64)
            &&& absolute_day_to_gregorian_spec(abs) == Ok::<GregorianDate, DateError>(g)
        }),
{
    lemma_gregorian_round_trip(g.year as int, g.month as int, g.day as int);
}

/// A valid Hebrew date that has a Gregorian date, taken to the Gregorian
/// calendar and back, is the same date.
pub proof fn lemma_hebrew_date_round_trip(h: HebrewDate)
    requires
        hebrew_error(h.year as int, h.month as int, h.day as int) is None,
        hebrew_to_gregorian_spec(h.year as int, h.month as int, h.day as int) is Ok,
    ensures
        ({
            let g = hebrew_to_gregorian_spec(h.year as int, h.month as int, h.day as int)->Ok_0;
            gregorian_to_hebrew_spec(g.year as int, g.month as int, g.day as int) == Ok::<
                HebrewDate,
                DateError,
            >(h)
        }),
{
    lemma_hebrew_round_trip(h.year as int, h.month as int, h.day as int);
}

/// The error for a Gregorian date, if any.
fn check_gregorian(year: i64, month: i64, day: i64) -> (r: Option<DateError>)
    ensures
        r == gregorian_error(year as int, month as int, day as int),
{
    if year < 1 || year > MAX_GREGORIAN_YEAR {
        return Some(DateError::InvalidYear);
    }
    if month < 1 || month > 12 {
        return Some(DateError::InvalidMonth);
    }
    let length = get_gdays_till_month_start(month + 1, year) - get_gdays_till_month_start(
        month,
        year,
    );
    if day < 1 || day > length {
        return Some(DateError::InvalidDay);
    }
    None
}

/// The error for a Hebrew date, if any.
fn check_hebrew(year: i64, month: i64, day: i64) -> (r: Option<DateError>)
    ensures
        r == hebrew_error(year as int, month as int, day as int),
{
    if year < 1 || year > MAX_HEBREW_YEAR {
        return Some(DateError::InvalidYear);
    }
    let last = if is_jyear_leap(year) {
        ADAR_II
    } else {
        ADAR
    };
    if month < 1 || month > last {
        return Some(DateError::InvalidMonth);
    }
    if day < 1 || day > get_days_in_jmonth(month, year) {
        return Some(DateError::InvalidDay);
    }
    None
}

/// The absolute day of a Gregorian date.
pub fn gregorian_to_absolute_day(year: i64, month: i64, day: i64) -> (r: Result<i64, DateError>)
    ensures
        r == gregorian_to_absolute_day_spec(year as int, month as int, day as int),
{
    match check_gregorian(year, month, day) {
        Some(e) => Err(e),
        None => {
            proof {
                lemma_gregorian_round_trip(year as int, month as int, day as int);
            }
            Ok(gdate_to_absdate(year, month, day))
        },
    }
}

/// The Gregorian date of an absolute day; days before January 1 of year 1
/// or after the end of year `MAX_GREGORIAN_YEAR` have none.
pub fn absolute_day_to_gregorian(abs_date: i64) -> (r: Result<GregorianDate, DateError>)
    ensures
        r == absolute_day_to_gregorian_spec(abs_date as int),
{
    if abs_date < 1 || abs_date > MAX_ABS_DAY {
        return Err(DateError::InvalidYear);
    }
    let (year, month, day) = absdate_to_gdate(abs_date);
    Ok(GregorianDate { year, month, day })
}

/// The absolute day of a Hebrew date.
pub fn hebrew_to_absolute_day(year: i64, month: i64, day: i64) -> (r: Result<i64, DateError>)
    ensures
        r == hebrew_to_absolute_day_spec(year as int, month as int, day as int),
{
    match check_hebrew(year, month, day) {
        Some(e) => Err(e),
        None => Ok(jdate_to_abs_date(year, month, day)),
    }
}

/// The Hebrew date of a Gregorian date.
pub fn gregorian_to_hebrew(year: i64, month: i64, day: i64) -> (r: Result<HebrewDate, DateError>)
    ensures
        r == gregorian_to_hebrew_spec(year as int, month as int, day as int),
{
    match check_gregorian(year, month, day) {
        Some(e) => Err(e),
        None => {
            let (jyear, jmonth, jday) = gdate_to_jdate(year, month, day);
            Ok(HebrewDate { year: jyear, month: jmonth, day: jday })
        },
    }
}

/// The Gregorian date of a Hebrew date.
pub fn hebrew_to_gregorian(year: i64, month: i64, day: i64) -> (r: Result<
    GregorianDate,
    DateError,
>)
    ensures
        r == hebrew_to_gregorian_spec(year as int, month as int, day as int),
{
    match check_hebrew(year, month, day) {
        Some(e) => Err(e),
        None => {
            let abs_date = jdate_to_abs_date(year, month, day);
            if abs_date < 1 || abs_date > MAX_ABS_DAY {
                return Err(DateError::InvalidYear);
            }
            let (gyear, gmonth, gday) = jdate_to_gdate(year, month, day);
            Ok(GregorianDate { year: gyear, month: gmonth, day: gday })
        },
    }
}

} // verus!
