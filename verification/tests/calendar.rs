use tick::calendar::{
    checked_days_from_civil, civil_from_days, date_range, dates_fit, days_from_civil, format_date,
    parse_date,
};
use tick::clock::{day_before, millis_of, now_ms, settled, yesterday_utc_date};

#[test]
fn known_dates_have_their_numbers() {
    assert_eq!(days_from_civil(1970, 1, 1), 0);
    assert_eq!(days_from_civil(1969, 12, 31), -1);
    assert_eq!(days_from_civil(2000, 3, 1), 11017);
    assert_eq!(days_from_civil(2026, 7, 1), 20635);
    assert_eq!(days_from_civil(0, 3, 1), -719468);
    assert_eq!(civil_from_days(0), (1970, 1, 1));
    assert_eq!(civil_from_days(-719469), (0, 2, 29));
    assert_eq!(civil_from_days(20635), (2026, 7, 1));
}

#[test]
fn numbers_and_dates_are_inverse() {
    let mut z: i64 = -800_000;
    let mut last = civil_from_days(z - 1);
    while z < 800_000 {
        let (y, m, d) = civil_from_days(z);
        assert_eq!(days_from_civil(y, m, d), z);
        assert!(last < (y, m, d));
        last = (y, m, d);
        z += 1;
    }
}

#[test]
fn leap_days_follow_the_calendar() {
    assert_eq!(civil_from_days(days_from_civil(2024, 2, 28) + 1), (2024, 2, 29));
    assert_eq!(civil_from_days(days_from_civil(2023, 2, 28) + 1), (2023, 3, 1));
    assert_eq!(civil_from_days(days_from_civil(1900, 2, 28) + 1), (1900, 3, 1));
    assert_eq!(civil_from_days(days_from_civil(2000, 2, 28) + 1), (2000, 2, 29));
    assert_eq!(civil_from_days(days_from_civil(2023, 12, 31) + 1), (2024, 1, 1));
}

#[test]
fn days_beyond_the_month_count_on() {
    assert_eq!(civil_from_days(days_from_civil(2026, 2, 31)), (2026, 3, 3));
}

#[test]
fn months_beyond_the_year_follow_the_formula() {
    assert_eq!(days_from_civil(1970, 13, 1), days_from_civil(1970, 12, 1) + 31);
    assert_eq!(days_from_civil(1970, -20, 1), -642);
}

#[test]
fn numbers_that_do_not_fit_are_refused() {
    assert_eq!(checked_days_from_civil(i64::MAX, 1, 1), None);
    assert_eq!(checked_days_from_civil(i64::MIN, 1, 1), None);
    assert_eq!(checked_days_from_civil(1970, 1, 2), Some(1));
    let (y, m, d) = civil_from_days(i64::MAX);
    assert_eq!(checked_days_from_civil(y, m, d), Some(i64::MAX));
    let (y, m, d) = civil_from_days(i64::MIN);
    assert_eq!(checked_days_from_civil(y, m, d), Some(i64::MIN));
}

#[test]
fn dates_are_written_with_zeros() {
    assert_eq!(format_date(2026, 7, 1), "2026-07-01");
    assert_eq!(format_date(33, 11, 9), "0033-11-09");
    assert_eq!(format_date(-5, 1, 1), "-005-01-01");
    assert_eq!(format_date(12345, 1, 1), "12345-01-01");
}

#[test]
fn dates_are_read() {
    assert_eq!(parse_date("2026-07-01"), Ok((2026, 7, 1)));
    assert_eq!(parse_date("+2026-7-+1"), Ok((2026, 7, 1)));
    assert_eq!(parse_date(&format_date(0, 12, 31)), Ok((0, 12, 31)));
}

#[test]
fn bad_dates_are_told() {
    assert_eq!(
        parse_date("2026-07"),
        Err("bad date: 2026-07; expected YYYY-MM-DD".to_string())
    );
    assert_eq!(
        parse_date("-5-01-01"),
        Err("bad date: -5-01-01; expected YYYY-MM-DD".to_string())
    );
    assert_eq!(
        parse_date("x-1-1"),
        Err("bad year in x-1-1: invalid digit found in string".to_string())
    );
    assert_eq!(
        parse_date("2026--1"),
        Err("bad month in 2026--1: cannot parse integer from empty string".to_string())
    );
    assert_eq!(
        parse_date("2026-1-99999999999999999999"),
        Err("bad day in 2026-1-99999999999999999999: number too large to fit in target type"
            .to_string())
    );
    assert_eq!(parse_date("2026-13-01"), Err("bad date range: 2026-13-01".to_string()));
    assert_eq!(parse_date("2026-12-32"), Err("bad date range: 2026-12-32".to_string()));
    assert_eq!(parse_date("2026-0-1"), Err("bad date range: 2026-0-1".to_string()));
}

#[test]
fn ranges_hold_both_ends() {
    assert_eq!(
        date_range("2024-02-28", "2024-03-01"),
        Ok(vec!["2024-02-28".to_string(), "2024-02-29".to_string(), "2024-03-01".to_string()])
    );
    assert_eq!(date_range("2026-07-01", "2026-07-01"), Ok(vec!["2026-07-01".to_string()]));
    assert_eq!(date_range("2026-02-31", "2026-3-3"), Ok(vec!["2026-03-03".to_string()]));
    assert_eq!(
        date_range("1969-12-31", "1970-01-01"),
        Ok(vec!["1969-12-31".to_string(), "1970-01-01".to_string()])
    );
}

#[test]
fn ranges_refuse_what_is_no_range() {
    assert_eq!(
        date_range("2026-07-02", "2026-07-01"),
        Err("--end must be >= --start".to_string())
    );
    assert_eq!(date_range("x", "y"), Err("bad date: x; expected YYYY-MM-DD".to_string()));
    assert_eq!(
        date_range("2026-07-02", "y"),
        Err("bad date: y; expected YYYY-MM-DD".to_string())
    );
}

#[test]
fn yesterday_is_the_day_before() {
    assert_eq!(day_before(0), "1969-12-31");
    assert_eq!(day_before(86_399), "1969-12-31");
    assert_eq!(day_before(86_400), "1970-01-01");
    assert_eq!(day_before(1_782_864_000), "2026-06-30");
    assert_eq!(day_before(u64::MAX), "1969-12-31");
}

#[test]
fn milliseconds_of_a_time() {
    assert_eq!(millis_of(0, 999_999), 0);
    assert_eq!(millis_of(12, 345_678_901), 12_345);
    assert_eq!(millis_of(u64::MAX, 999_999_999), u64::MAX as u128 * 1000 + 999);
}

#[test]
fn the_clock_runs() {
    let before = std::time::SystemTime::now()
        .duration_since(std::time::UNIX_EPOCH)
        .unwrap();
    let ms = now_ms();
    let day = yesterday_utc_date();
    let after = std::time::SystemTime::now()
        .duration_since(std::time::UNIX_EPOCH)
        .unwrap();
    assert!(before.as_millis() <= ms && ms <= after.as_millis());
    assert!(day == day_before(before.as_secs()) || day == day_before(after.as_secs()));
}

#[test]
fn dates_beyond_the_type_are_told_apart() {
    assert!(dates_fit("2026-07-01", "2026-07-02"));
    assert!(dates_fit("x", "y"));
    assert!(!dates_fit("9223372036854775807-01-01", "2026-07-02"));
    assert!(!dates_fit("2026-07-02", "9223372036854775807-01-01"));
    assert!(dates_fit("9223372036854775807-01-01", "y"));
    assert_eq!(
        date_range("9223372036854775807-01-01", "y"),
        Err("bad date: y; expected YYYY-MM-DD".to_string())
    );
}

#[test]
fn a_clock_before_the_epoch_stands_for_the_epoch() {
    assert_eq!(settled(Some((7, 8))), (7, 8));
    assert_eq!(settled(None), (0, 0));
}
