use plotui_core::calendar::civil_from_days;
use plotui_core::calendar::civil_of_seconds;
use plotui_core::calendar::days_from_civil;

#[test]
fn civil_roundtrip_across_leap_years() {
    // 2000 (leap, century-divisible-by-400), 2024 (leap), 2100 (not).
    for days in [-1, 0, 1, 11_016, 19_782, 19_783, 47_540, 47_541, -719_468] {
        let (y, m, d) = civil_from_days(days);
        assert_eq!(days_from_civil(y, m, d), days, "roundtrip failed for day {days}");
    }
    assert_eq!(civil_from_days(days_from_civil(2024, 2, 29)), (2024, 2, 29));
    assert_eq!(days_from_civil(2100, 3, 1) - days_from_civil(2100, 2, 28), 1, "2100 not leap");
    assert_eq!(days_from_civil(2000, 3, 1) - days_from_civil(2000, 2, 28), 2, "2000 leap");
    assert_eq!(days_from_civil(1970, 1, 1), 0);
}

#[test]
fn civil_from_days_known_dates() {
    assert_eq!(civil_from_days(0), (1970, 1, 1));
    assert_eq!(civil_from_days(-1), (1969, 12, 31));
    assert_eq!(civil_from_days(11_016), (2000, 2, 29));
    assert_eq!(civil_from_days(-719_468), (0, 3, 1));
    assert_eq!(days_from_civil(2024, 12, 31) - days_from_civil(2024, 1, 1), 365);
}

#[test]
fn consecutive_days_step_the_calendar_by_one() {
    let mut prev = civil_from_days(-800);
    for days in -799..800 {
        let cur = civil_from_days(days);
        assert_ne!(cur, prev);
        assert_eq!(days_from_civil(cur.0, cur.1, cur.2) - days_from_civil(prev.0, prev.1, prev.2), 1);
        prev = cur;
    }
}

#[test]
fn seconds_split_into_date_and_time_of_day() {
    assert_eq!(civil_of_seconds(0), (1970, 1, 1, 0));
    assert_eq!(civil_of_seconds(86_399), (1970, 1, 1, 86_399));
    assert_eq!(civil_of_seconds(86_400), (1970, 1, 2, 0));
    assert_eq!(civil_of_seconds(-1), (1969, 12, 31, 86_399));
    assert_eq!(civil_of_seconds(-86_400), (1969, 12, 31, 0));
    assert_eq!(civil_of_seconds(-86_401), (1969, 12, 30, 86_399));
    // 2024-02-29 12:34:56 UTC
    assert_eq!(civil_of_seconds(1_709_210_096), (2024, 2, 29, 45_296));
    // The far past still splits without overflow.
    let (_, _, _, sod) = civil_of_seconds(i64::MIN);
    assert!((0..86_400).contains(&sod));
}
