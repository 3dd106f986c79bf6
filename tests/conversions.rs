use jewishdate::calendar::{
    absolute_day_to_gregorian, gregorian_to_absolute_day, gregorian_to_hebrew,
    hebrew_to_absolute_day, hebrew_to_gregorian, DateError, GregorianDate, HebrewDate,
};
use jewishdate::convert::{gdate_to_jdate, jdate_to_gdate};
use jewishdate::gregorian::{absdate_to_gdate, gdate_to_absdate, get_gdays_till_month_start, MAX_ABS_DAY};
use jewishdate::hebrew::{
    divmod, get_days_cheshvan_kislev, get_days_in_jmonth, get_days_in_jyear, get_jmonth_of_year,
    get_rh_day, is_cheshvan_long, is_jyear_leap, is_kislev_short, jdate_to_abs_date,
};

fn hebrew(year: i64, month: i64, day: i64) -> HebrewDate {
    HebrewDate { year, month, day }
}

fn gregorian(year: i64, month: i64, day: i64) -> GregorianDate {
    GregorianDate { year, month, day }
}

fn months_of(year: i64) -> i64 {
    if is_jyear_leap(year) {
        13
    } else {
        12
    }
}

#[test]
fn gregorian_to_hebrew_kislev_5778() {
    assert_eq!(gregorian_to_hebrew(2017, 11, 27), Ok(hebrew(5778, 9, 9)));
    assert_eq!(gdate_to_jdate(2017, 11, 27), (5778, 9, 9));
}

#[test]
fn hebrew_to_gregorian_kislev_5778() {
    assert_eq!(hebrew_to_gregorian(5778, 9, 10), Ok(gregorian(2017, 11, 28)));
    assert_eq!(jdate_to_gdate(5778, 9, 10), (2017, 11, 28));
}

#[test]
fn absolute_day_round_trip_2017() {
    assert_eq!(gregorian_to_absolute_day(2017, 11, 27), Ok(736660));
    assert_eq!(gdate_to_absdate(2017, 11, 27), 736660);
    assert_eq!(absdate_to_gdate(736660), (2017, 11, 27));
    let abs = gregorian_to_absolute_day(2017, 11, 27).unwrap();
    assert_eq!(absolute_day_to_gregorian(abs), Ok(gregorian(2017, 11, 27)));
}

#[test]
fn month_thirteen_only_in_leap_years() {
    assert!(!is_jyear_leap(5777));
    assert!(is_jyear_leap(5779));
    assert_eq!(hebrew_to_absolute_day(5777, 13, 1), Err(DateError::InvalidMonth));
    assert_eq!(hebrew_to_gregorian(5777, 13, 1), Err(DateError::InvalidMonth));
    assert_eq!(hebrew_to_gregorian(5779, 13, 1), Ok(gregorian(2019, 3, 8)));
    assert_eq!(hebrew_to_gregorian(5779, 12, 1), Ok(gregorian(2019, 2, 6)));
}

#[test]
fn known_holidays() {
    assert_eq!(hebrew_to_gregorian(5778, 7, 1), Ok(gregorian(2017, 9, 21)));
    assert_eq!(hebrew_to_gregorian(5778, 1, 15), Ok(gregorian(2018, 3, 31)));
    assert_eq!(gregorian_to_hebrew(2000, 2, 29), Ok(hebrew(5760, 12, 23)));
    assert_eq!(gregorian_to_hebrew(2024, 3, 1), Ok(hebrew(5784, 12, 21)));
    assert_eq!(gregorian_to_hebrew(1, 1, 1), Ok(hebrew(3761, 10, 18)));
}

#[test]
fn hebrew_encoder_values() {
    assert_eq!(jdate_to_abs_date(5778, 7, 1), 736593);
    assert_eq!(hebrew_to_absolute_day(5779, 13, 1), Ok(737126));
    assert_eq!(jdate_to_abs_date(3761, 7, 1), -106);
    assert_eq!(jdate_to_abs_date(3762, 7, 1), 249);
}

#[test]
fn rosh_hashana_and_year_lengths() {
    assert_eq!(get_rh_day(5778), 2110021);
    assert_eq!(get_days_in_jyear(5777), 353);
    assert_eq!(get_days_in_jyear(5778), 354);
    assert_eq!(get_days_in_jyear(5779), 385);
    assert!(!is_cheshvan_long(5777));
    assert!(is_kislev_short(5777));
    assert!(is_cheshvan_long(5779));
    assert!(!is_kislev_short(5779));
    assert_eq!(get_days_cheshvan_kislev(5777), (29, 29));
    assert_eq!(get_days_cheshvan_kislev(5778), (29, 30));
    assert_eq!(get_days_cheshvan_kislev(5779), (30, 30));
}

#[test]
fn month_lengths_of_a_complete_leap_year() {
    let expected = [30, 29, 30, 29, 30, 29, 30, 30, 30, 29, 30, 30, 29];
    for month in 1..=13 {
        assert_eq!(get_days_in_jmonth(month, 5779), expected[(month - 1) as usize]);
    }
    assert_eq!(get_days_in_jmonth(12, 5777), 29);
}

#[test]
fn month_positions_from_tishrei() {
    assert_eq!(get_jmonth_of_year(5779, 7), 1);
    assert_eq!(get_jmonth_of_year(5779, 13), 7);
    assert_eq!(get_jmonth_of_year(5779, 1), 8);
    assert_eq!(get_jmonth_of_year(5777, 12), 6);
    assert_eq!(get_jmonth_of_year(5777, 1), 7);
    assert_eq!(get_jmonth_of_year(5777, 6), 12);
}

#[test]
fn divmod_values() {
    assert_eq!(divmod(31524, 25920), (1, 5604));
    assert_eq!(divmod(0, 7), (0, 0));
}

#[test]
fn gregorian_month_offsets() {
    assert_eq!(get_gdays_till_month_start(1, 2001), 0);
    assert_eq!(get_gdays_till_month_start(3, 2001), 59);
    assert_eq!(get_gdays_till_month_start(3, 2000), 60);
    assert_eq!(get_gdays_till_month_start(3, 1900), 59);
    assert_eq!(get_gdays_till_month_start(13, 2024), 366);
}

#[test]
fn seven_leap_years_in_every_nineteen() {
    for first in 1..400 {
        let count = (first..first + 19).filter(|y| is_jyear_leap(*y)).count();
        assert_eq!(count, 7);
    }
}

#[test]
fn year_lengths_are_bounded() {
    for year in 1..3000 {
        let days = get_days_in_jyear(year);
        assert!([353, 354, 355, 383, 384, 385].contains(&days), "year {} has {} days", year, days);
        if is_jyear_leap(year) {
            assert!(days >= 383);
        } else {
            assert!(days <= 355);
        }
    }
}

#[test]
fn rosh_hashana_never_on_sunday_wednesday_friday() {
    for year in 1..3000 {
        let weekday = get_rh_day(year) % 7;
        assert!(weekday != 0 && weekday != 3 && weekday != 5);
    }
}

#[test]
fn gregorian_round_trip_first_days_of_months() {
    for year in [1, 4, 100, 400, 1900, 2000, 2017, 2024] {
        for month in 1..=12 {
            let abs = gregorian_to_absolute_day(year, month, 1).unwrap();
            assert_eq!(absolute_day_to_gregorian(abs), Ok(gregorian(year, month, 1)));
        }
    }
}

#[test]
fn gregorian_round_trip_every_day_of_a_leap_year() {
    let mut abs = gregorian_to_absolute_day(2024, 1, 1).unwrap();
    for month in 1..=12 {
        let length = get_gdays_till_month_start(month + 1, 2024) - get_gdays_till_month_start(month, 2024);
        for day in 1..=length {
            assert_eq!(gregorian_to_absolute_day(2024, month, day), Ok(abs));
            assert_eq!(absolute_day_to_gregorian(abs), Ok(gregorian(2024, month, day)));
            abs += 1;
        }
    }
    assert_eq!(absolute_day_to_gregorian(abs), Ok(gregorian(2025, 1, 1)));
}

#[test]
fn hebrew_round_trip_every_day() {
    for year in [3762, 5760, 5777, 5778, 5779, 5784, 6000] {
        for month in 1..=months_of(year) {
            for day in 1..=get_days_in_jmonth(month, year) {
                let g = hebrew_to_gregorian(year, month, day).unwrap();
                assert_eq!(gregorian_to_hebrew(g.year, g.month, g.day), Ok(hebrew(year, month, day)));
            }
        }
    }
}

#[test]
fn absolute_day_range_edges() {
    assert_eq!(absolute_day_to_gregorian(0), Err(DateError::InvalidYear));
    assert_eq!(absolute_day_to_gregorian(-5), Err(DateError::InvalidYear));
    assert_eq!(absolute_day_to_gregorian(1), Ok(gregorian(1, 1, 1)));
    assert_eq!(absolute_day_to_gregorian(MAX_ABS_DAY), Ok(gregorian(1000000000, 12, 31)));
    assert_eq!(absolute_day_to_gregorian(MAX_ABS_DAY + 1), Err(DateError::InvalidYear));
    assert_eq!(gregorian_to_absolute_day(1000000000, 12, 31), Ok(MAX_ABS_DAY));
}

#[test]
fn gregorian_errors() {
    assert_eq!(gregorian_to_absolute_day(0, 1, 1), Err(DateError::InvalidYear));
    assert_eq!(gregorian_to_hebrew(-3, 1, 1), Err(DateError::InvalidYear));
    assert_eq!(gregorian_to_absolute_day(2017, 13, 1), Err(DateError::InvalidMonth));
    assert_eq!(gregorian_to_hebrew(2017, 0, 1), Err(DateError::InvalidMonth));
    assert_eq!(gregorian_to_absolute_day(2017, 2, 29), Err(DateError::InvalidDay));
    assert_eq!(gregorian_to_hebrew(2017, 4, 0), Err(DateError::InvalidDay));
    assert_eq!(gregorian_to_absolute_day(2016, 2, 29), Ok(736023));
}

#[test]
fn hebrew_errors() {
    assert_eq!(hebrew_to_absolute_day(0, 7, 1), Err(DateError::InvalidYear));
    assert_eq!(hebrew_to_gregorian(5778, 14, 1), Err(DateError::InvalidMonth));
    assert_eq!(hebrew_to_gregorian(5778, 0, 1), Err(DateError::InvalidMonth));
    assert_eq!(hebrew_to_gregorian(5778, 2, 30), Err(DateError::InvalidDay));
    assert_eq!(hebrew_to_absolute_day(5778, 8, 30), Err(DateError::InvalidDay));
    assert_eq!(hebrew_to_absolute_day(5778, 1, 0), Err(DateError::InvalidDay));
    // Before January 1 of Gregorian year 1 there is no Gregorian year.
    assert_eq!(hebrew_to_gregorian(1, 7, 1), Err(DateError::InvalidYear));
    assert_eq!(hebrew_to_gregorian(3761, 7, 1), Err(DateError::InvalidYear));
    assert!(hebrew_to_absolute_day(1, 7, 1).is_ok());
}
