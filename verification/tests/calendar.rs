use chrono::{Datelike, NaiveDate};
use worklog::calendar::{add_days, num_days_from_monday, week_start_of};

fn day(s: &str) -> i32 {
    s.parse::<NaiveDate>().unwrap().num_days_from_ce()
}

fn d(s: &str) -> i32 {
    day(s)
}

#[test]
fn week_start_snaps_to_monday() {
    assert_eq!(week_start_of(d("2026-07-03")), d("2026-06-29")); // Fri -> Mon
    assert_eq!(week_start_of(d("2026-06-29")), d("2026-06-29")); // Mon stays
    assert_eq!(week_start_of(d("2026-07-05")), d("2026-06-29")); // Sun stays in week
}

#[test]
fn weekday_numbering_follows_the_calendar() {
    assert_eq!(num_days_from_monday(1), 0); // 0001-01-01 was a Monday
    assert_eq!(num_days_from_monday(d("2026-07-05")), 6);
    assert_eq!(num_days_from_monday(d("1969-12-31")), 2);
    assert_eq!(num_days_from_monday(0), 6); // the Sunday before day 1
    assert_eq!(num_days_from_monday(-6), 0);
}

#[test]
fn week_start_before_the_common_era() {
    let monday = NaiveDate::from_ymd_opt(-5, 3, 1).unwrap();
    let m = monday - chrono::Duration::days(monday.weekday().num_days_from_monday() as i64);
    assert_eq!(week_start_of(monday.num_days_from_ce()), m.num_days_from_ce());
}

#[test]
fn adding_days_moves_the_date() {
    assert_eq!(add_days(d("2026-06-29"), 6), d("2026-07-05"));
    assert_eq!(add_days(d("2026-03-01"), -1), d("2026-02-28"));
}
