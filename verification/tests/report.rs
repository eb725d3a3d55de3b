use chrono::{Datelike, Local, TimeDelta};
use takt::datetime::{Date, DateTime, Duration};
use takt::log::Entry;
use takt::report::{Period, Report, ReportRange};

fn entry(tag: &str, start: DateTime, end: Option<DateTime>) -> Entry {
    Entry { start, end, tag: tag.to_string() }
}

fn dt(year: i32, month: u32, day: u32, hour: u32, minute: u32) -> DateTime {
    DateTime { year, month, day, hour, minute, second: 0, nanosecond: 0 }
}

fn date_of(t: &DateTime) -> Date {
    Date { year: t.year, month: t.month, day: t.day }
}

#[test]
fn this_day_starts_at_midnight_today() {
    let (start, _) = ReportRange::This { period: Period::Day }.date_range().unwrap();
    let today = Local::now().date_naive();
    assert_eq!((start.year, start.month, start.day), (today.year(), today.month(), today.day()));
    assert_eq!((start.hour, start.minute, start.second, start.nanosecond), (0, 0, 0, 0));
}

#[test]
fn last_n_days_goes_back_exactly_n_days() {
    let (start, _) = ReportRange::Last { n: 7, period: Period::Day }.date_range().unwrap();
    let expected = Local::now().date_naive() - TimeDelta::days(7);
    assert_eq!(
        (start.year, start.month, start.day),
        (expected.year(), expected.month(), expected.day())
    );
}

#[test]
fn this_week_starts_on_monday() {
    let (start, _) = ReportRange::This { period: Period::Week }.date_range().unwrap();
    let d = chrono::NaiveDate::from_ymd_opt(start.year, start.month, start.day).unwrap();
    assert_eq!(d.weekday().num_days_from_monday(), 0);
}

#[test]
fn this_month_starts_on_the_first() {
    let (start, _) = ReportRange::This { period: Period::Month }.date_range().unwrap();
    assert_eq!(start.day, 1);
}

#[test]
fn generate_sums_durations_per_tag() {
    // Use a wide range so fixture entries always fall inside it.
    let range = ReportRange::Last { n: 3650, period: Period::Day };
    let entries = vec![
        entry("work", dt(2026, 4, 1, 9, 0), Some(dt(2026, 4, 1, 10, 30))),
        entry("work", dt(2026, 4, 2, 9, 0), Some(dt(2026, 4, 2, 11, 0))),
        entry("study", dt(2026, 4, 3, 14, 0), Some(dt(2026, 4, 3, 15, 0))),
    ];
    let report = Report::generate(&entries, range).unwrap();
    assert_eq!(report.get("work"), Some(Duration::minutes(90 + 120)));
    assert_eq!(report.get("study"), Some(Duration::hours(1)));
}

#[test]
fn generate_filters_entries_before_range_start() {
    // Window is "last 1 day" — old fixture entries should not be counted.
    let range = ReportRange::Last { n: 1, period: Period::Day };
    let long_ago = dt(2020, 1, 1, 9, 0);
    let entries = vec![entry("work", long_ago, Some(dt(2020, 1, 1, 11, 0)))];
    let report = Report::generate(&entries, range).unwrap();
    assert!(report.is_empty());
}

#[test]
fn display_includes_total_row() {
    let range = ReportRange::Last { n: 3650, period: Period::Day };
    let entries = vec![
        entry("work", dt(2026, 4, 1, 9, 0), Some(dt(2026, 4, 1, 10, 0))),
        entry("study", dt(2026, 4, 1, 11, 0), Some(dt(2026, 4, 1, 12, 30))),
    ];
    let rendered = Report::generate(&entries, range).unwrap().display();
    assert!(rendered.contains("work"));
    assert!(rendered.contains("study"));
    assert!(rendered.contains("Total"));
    assert!(rendered.contains("2h 30m"));
}

// Further cases: exact values, errors, and edges.

fn wednesday() -> DateTime {
    DateTime { year: 2026, month: 4, day: 8, hour: 15, minute: 30, second: 12, nanosecond: 5 }
}

#[test]
fn range_this_day_at_fixed_time() {
    let (s, e) = ReportRange::This { period: Period::Day }.date_range_at(wednesday());
    assert_eq!(s, dt(2026, 4, 8, 0, 0));
    assert_eq!(e, wednesday());
}

#[test]
fn range_this_week_at_fixed_time() {
    let (s, _) = ReportRange::This { period: Period::Week }.date_range_at(wednesday());
    assert_eq!(date_of(&s), Date { year: 2026, month: 4, day: 6 });
}

#[test]
fn range_last_weeks_at_fixed_time() {
    let (s, _) = ReportRange::Last { n: 2, period: Period::Week }.date_range_at(wednesday());
    assert_eq!(date_of(&s), Date { year: 2026, month: 3, day: 23 });
}

#[test]
fn range_last_days_at_fixed_time() {
    let (s, _) = ReportRange::Last { n: 7, period: Period::Day }.date_range_at(wednesday());
    assert_eq!(date_of(&s), Date { year: 2026, month: 4, day: 1 });
}

#[test]
fn range_months_at_fixed_time() {
    let (s, _) = ReportRange::This { period: Period::Month }.date_range_at(wednesday());
    assert_eq!(date_of(&s), Date { year: 2026, month: 4, day: 1 });
    let (s, _) = ReportRange::Last { n: 2, period: Period::Month }.date_range_at(wednesday());
    assert_eq!(date_of(&s), Date { year: 2026, month: 2, day: 1 });
    let end_of_march = DateTime { year: 2026, month: 3, day: 31, hour: 8, minute: 0, second: 0, nanosecond: 0 };
    let (s, _) = ReportRange::Last { n: 13, period: Period::Month }.date_range_at(end_of_march);
    assert_eq!(date_of(&s), Date { year: 2025, month: 2, day: 1 });
}

#[test]
fn generate_between_counts_running_entry_until_end() {
    let entries = vec![
        entry("a", dt(2026, 4, 1, 9, 0), None),
        entry("b", dt(2026, 3, 31, 9, 0), Some(dt(2026, 4, 1, 9, 0))),
    ];
    let report = Report::generate_between(&entries, dt(2026, 4, 1, 0, 0), dt(2026, 4, 1, 10, 15)).unwrap();
    assert_eq!(report.get("a"), Some(Duration::minutes(75)));
    assert_eq!(report.get("b"), None);
    assert!(!report.is_empty());
}

#[test]
fn display_exact_text() {
    let entries = vec![
        entry("work", dt(2026, 4, 1, 9, 0), Some(dt(2026, 4, 1, 10, 0))),
        entry("study", dt(2026, 4, 1, 11, 0), Some(dt(2026, 4, 1, 12, 30))),
    ];
    let report = Report::generate_between(&entries, dt(2026, 4, 1, 0, 0), dt(2026, 4, 2, 0, 0)).unwrap();
    assert_eq!(report.display(), "study 1h 30m\nwork  1h  0m\nTotal 2h 30m\n");
}

#[test]
fn display_pads_to_longest_tag_and_hours() {
    let entries = vec![
        entry("a", dt(2026, 4, 1, 0, 0), Some(dt(2026, 4, 1, 0, 5))),
        entry("long/tag", dt(2026, 1, 1, 0, 0), Some(dt(2026, 1, 5, 4, 0))),
    ];
    let report = Report::generate_between(&entries, dt(2026, 1, 1, 0, 0), dt(2026, 4, 2, 0, 0)).unwrap();
    assert_eq!(
        report.display(),
        "a          0h  5m\nlong/tag 100h  0m\nTotal    100h  5m\n"
    );
}

#[test]
fn display_of_empty_report() {
    let report = Report::generate_between(&[], dt(2026, 4, 1, 0, 0), dt(2026, 4, 2, 0, 0)).unwrap();
    assert!(report.is_empty());
    assert_eq!(report.display(), "Total 0h  0m\n");
}

#[test]
fn entry_ending_before_it_starts_counts_negative() {
    let entries = vec![entry("x", dt(2026, 4, 1, 10, 0), Some(dt(2026, 4, 1, 8, 30)))];
    let report = Report::generate_between(&entries, dt(2026, 4, 1, 0, 0), dt(2026, 4, 2, 0, 0)).unwrap();
    assert_eq!(report.get("x"), Some(Duration::minutes(-90)));
    assert_eq!(report.display(), "x     -1h -30m\nTotal -1h -30m\n");
}

#[test]
fn total_line_is_the_sum_of_counted_entries() {
    let entries = vec![
        entry("a", dt(2026, 4, 1, 9, 0), Some(dt(2026, 4, 1, 9, 20))),
        entry("b", dt(2026, 4, 1, 10, 0), Some(dt(2026, 4, 1, 10, 50))),
        entry("a", dt(2026, 4, 1, 11, 0), Some(dt(2026, 4, 1, 11, 40))),
        entry("c", dt(2026, 3, 1, 11, 0), Some(dt(2026, 3, 1, 18, 0))),
    ];
    let report = Report::generate_between(&entries, dt(2026, 4, 1, 0, 0), dt(2026, 4, 2, 0, 0)).unwrap();
    assert!(report.display().ends_with("Total 1h 50m\n"));
}
