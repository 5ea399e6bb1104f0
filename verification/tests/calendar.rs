use pdf_printer::calendar::{days_since_epoch, format_timestamp, is_leap};

#[test]
fn leap_years() {
    assert!(is_leap(2000));
    assert!(is_leap(2024));
    assert!(!is_leap(1900));
    assert!(!is_leap(2023));
    assert!(is_leap(-4));
}

#[test]
fn epoch_and_known_dates() {
    assert_eq!(days_since_epoch(0), (1970, 1, 1));
    assert_eq!(days_since_epoch(31), (1970, 2, 1));
    assert_eq!(days_since_epoch(58), (1970, 2, 28));
    assert_eq!(days_since_epoch(59), (1970, 3, 1));
    assert_eq!(days_since_epoch(364), (1970, 12, 31));
    assert_eq!(days_since_epoch(365), (1971, 1, 1));
    assert_eq!(days_since_epoch(789), (1972, 2, 29));
    assert_eq!(days_since_epoch(10957), (2000, 1, 1));
    assert_eq!(days_since_epoch(11016), (2000, 2, 29));
    assert_eq!(days_since_epoch(19723), (2024, 1, 1));
    assert_eq!(days_since_epoch(20088), (2024, 12, 31));
}

#[test]
fn negative_days_stay_in_january_1970() {
    assert_eq!(days_since_epoch(-1), (1970, 1, 0));
    assert_eq!(days_since_epoch(-40), (1970, 1, -39));
}

#[test]
fn consecutive_days_are_consecutive_dates() {
    let mut prev = days_since_epoch(0);
    for n in 1..40000i64 {
        let cur = days_since_epoch(n);
        let next_day = (prev.0, prev.1, prev.2 + 1);
        let next_month = (prev.0, prev.1 + 1, 1);
        let next_year = (prev.0 + 1, 1, 1);
        assert!(cur == next_day || cur == next_month || cur == next_year, "day {n}");
        prev = cur;
    }
    assert_eq!(prev, days_since_epoch(39999));
}

#[test]
fn timestamp_text() {
    assert_eq!(format_timestamp(0), "1970-01-01 00:00:00");
    assert_eq!(format_timestamp(86399), "1970-01-01 23:59:59");
    assert_eq!(format_timestamp(951782400), "2000-02-29 00:00:00");
    assert_eq!(format_timestamp(1700000000), "2023-11-14 22:13:20");
    assert_eq!(format_timestamp(253402300799), "9999-12-31 23:59:59");
    assert_eq!(format_timestamp(253402300800), "10000-01-01 00:00:00");
}
