use plotui_core::calendar::civil_from_days;
use plotui_core::calendar::days_from_civil;
use plotui_core::dates::format_date;
use plotui_core::dates::format_datetime;
use plotui_core::dates::month_start;
use plotui_core::dates::month_walk;
use plotui_core::dates::MONTH_MAX;
use plotui_core::dates::push_padded;
use plotui_core::dates::step_ticks;

const DAY: i64 = 86_400;

fn ts(y: i32, m: u32, d: u32) -> i64 {
    days_from_civil(y, m, d) * DAY
}

#[test]
fn padding_matches_the_format_width_rule() {
    for n in [-12345i64, -1000, -999, -10, -1, 0, 1, 7, 42, 999, 1000, 2026, 123456, i64::MAX, i64::MIN] {
        for w in [0usize, 1, 2, 4, 6] {
            let mut s = String::new();
            push_padded(&mut s, n, w);
            assert_eq!(s, format!("{n:0w$}"), "n = {n}, width = {w}");
        }
    }
}

#[test]
fn day_steps_land_on_midnights_and_carry_the_year_once() {
    // Ten days on two-day steps.
    let step = 2 * DAY;
    let (lo, hi) = (ts(2026, 3, 10), ts(2026, 3, 20));
    let (t, l) = step_ticks((lo + step - 1).div_euclid(step), hi.div_euclid(step), step);
    assert!(!t.is_empty());
    assert_eq!(t.len(), l.len());
    for v in &t {
        assert_eq!(v.rem_euclid(DAY), 0, "tick {v} not at midnight");
        assert!(lo <= *v && *v <= hi);
    }
    assert_eq!(l[0], "2026-03-10", "first tick carries the year");
    assert!(l[1..].iter().all(|s| s.len() == 5), "later day labels are MM-DD: {l:?}");
    assert!(l.contains(&"03-14".into()));
    // A year change brings the year back.
    let (_, l) = step_ticks(ts(2025, 12, 30) / DAY, ts(2026, 1, 2) / DAY, DAY);
    assert_eq!(l, vec!["2025-12-30", "12-31", "2026-01-01", "01-02"]);
}

#[test]
fn hour_and_second_steps_use_clock_labels() {
    // Hour steps around midnight: HH:MM, midnight shows the date.
    let mid = ts(2026, 3, 10);
    let (_, l) = step_ticks((mid - 3 * 3600) / 3600, (mid + 3 * 3600) / 3600, 3600);
    assert_eq!(l, vec!["21:00", "22:00", "23:00", "03-10", "01:00", "02:00", "03:00"]);
    // Five-second steps: HH:MM:SS.
    let noon = mid + 12 * 3600;
    let (t, l) = step_ticks(noon / 5, (noon + 30) / 5, 5);
    assert_eq!(t.len(), 7);
    assert!(l.iter().all(|s| s.len() == 8 && s.starts_with("12:00:")), "labels: {l:?}");
    assert_eq!(l[6], "12:00:30");
    // An empty index range gives nothing.
    assert!(step_ticks(5, 4, 60).0.is_empty());
}

#[test]
fn month_walk_lands_on_the_first() {
    let (lo, hi) = (ts(2025, 11, 15), ts(2026, 8, 3));
    let mi0 = 2025 * 12 + 10; // November 2025
    let (t, l) = month_walk(mi0, 1, lo, hi, false);
    assert_eq!(t.len(), 9);
    for v in &t {
        let (_, _, d) = civil_from_days(v.div_euclid(DAY));
        assert_eq!(d, 1, "month tick {v} not on the 1st");
        assert!(lo <= *v && *v <= hi);
    }
    assert_eq!(l.first().map(String::as_str), Some("2025-12"));
    assert_eq!(l.last().map(String::as_str), Some("2026-08"));
    assert!(t.windows(2).all(|w| w[0] < w[1]));
    // Quarters from a quarter-aligned start.
    let (t, _) = month_walk((2025 * 12 + 1) / 3 * 3, 3, ts(2025, 2, 20), ts(2026, 4, 10), false);
    for v in &t {
        let (_, m, _) = civil_from_days(v.div_euclid(DAY));
        assert!([1, 4, 7, 10].contains(&m), "quarter tick landed on month {m}");
    }
    assert_eq!(month_start(1970 * 12), 0);
    assert_eq!(month_start(2000 * 12 + 2), ts(2000, 3, 1));
}

#[test]
fn year_walk_labels_years() {
    let (lo, hi) = (ts(2010, 6, 1), ts(2026, 2, 1));
    let (t, l) = month_walk(2010 / 2 * 2 * 12, 2 * 12, lo, hi, true);
    assert_eq!(l, vec!["2012", "2014", "2016", "2018", "2020", "2022", "2024", "2026"]);
    for (v, s) in t.iter().zip(&l) {
        let (y, m, d) = civil_from_days(v.div_euclid(DAY));
        assert_eq!((m, d), (1, 1), "year tick {v} not on Jan 1");
        assert_eq!(s, &format!("{y:04}"));
    }
}

#[test]
fn datetimes_drop_the_time_at_midnight() {
    assert_eq!(format_datetime(0), "1970-01-01");
    assert_eq!(format_datetime(ts(2026, 3, 10) + 13 * 3600 + 5 * 60 + 9), "2026-03-10 13:05:09");
    assert_eq!(format_datetime(-1), "1969-12-31 23:59:59");
    assert_eq!(format_date(ts(2024, 2, 29) + 5), "2024-02-29");
}

#[test]
fn year_walks_reach_forty_million_years_out() {
    let mi0: i64 = 12 * 40_000_000;
    let lo = month_start(mi0);
    let hi = month_start(mi0 + 24);
    assert!(hi > 1_000_000_000_000_000);
    let (ticks, labels) = month_walk(mi0, 12, lo, hi, true);
    assert_eq!(ticks, vec![lo, month_start(mi0 + 12), hi]);
    assert_eq!(labels, vec!["40000000", "40000001", "40000002"]);
    // The far end of `i32` years still walks.
    let last = MONTH_MAX - 1;
    let (t, l) = month_walk(last, 1, month_start(last), month_start(last), false);
    assert_eq!((t.len(), l), (1, vec!["2147483647-11".to_string()]));
}
