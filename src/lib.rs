//! Conversion between the Gregorian civil calendar and the Hebrew lunisolar
//! calendar, through a shared count of absolute days (day 1 is January 1 of
//! Gregorian year 1).

pub mod calendar;
pub mod convert;
pub mod gregorian;
pub mod hebrew;
