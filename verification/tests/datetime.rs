use takt::datetime::{Date, DateTime, Duration};

#[test]
fn hours_and_minutes_round_toward_zero() {
    let d = Duration::minutes(90);
    assert_eq!(d.num_hours(), 1);
    assert_eq!(d.num_minutes(), 90);
    let n = Duration::minutes(-90);
    assert_eq!(n.num_hours(), -1);
    assert_eq!(n.num_minutes(), -90);
}

#[test]
fn adding_spans() {
    assert_eq!(Duration::minutes(30).add(Duration::hours(2)), Duration::minutes(150));
    assert_eq!(Duration::zero().add(Duration::minutes(-5)), Duration::minutes(-5));
    assert_eq!(Duration::hours(1).checked_add(Duration::minutes(-60)), Some(Duration::zero()));
}

#[test]
fn checked_add_refuses_what_a_span_cannot_hold() {
    let big = Duration::hours(2_562_047_788_015);
    assert_eq!(big.checked_add(big), None);
    assert_eq!(big.checked_add(Duration::zero()), Some(big));
}

#[test]
fn order_of_dates_and_times() {
    let a = DateTime { year: 2026, month: 4, day: 6, hour: 9, minute: 0, second: 0, nanosecond: 0 };
    let b = DateTime { nanosecond: 1, ..a };
    assert!(a.is_before(&b));
    assert!(!b.is_before(&a));
    assert!(!a.is_before(&a));
    let c = DateTime { year: 2025, month: 12, day: 31, hour: 23, minute: 59, second: 59, nanosecond: 0 };
    assert!(c.is_before(&a));
}

#[test]
fn midnight_and_date() {
    let d = Date { year: 2026, month: 2, day: 28 };
    let m = DateTime::midnight(d);
    assert_eq!(m.date(), d);
    assert_eq!((m.hour, m.minute, m.second, m.nanosecond), (0, 0, 0, 0));
}

#[test]
fn validity_of_dates_and_times() {
    assert!(Date { year: 2024, month: 2, day: 29 }.is_valid());
    assert!(!Date { year: 2023, month: 2, day: 29 }.is_valid());
    assert!(!Date { year: 1900, month: 2, day: 29 }.is_valid());
    assert!(Date { year: 2000, month: 2, day: 29 }.is_valid());
    assert!(!Date { year: 2026, month: 4, day: 31 }.is_valid());
    assert!(!Date { year: 262143, month: 1, day: 1 }.is_valid());
    let t = DateTime { year: 2026, month: 4, day: 6, hour: 23, minute: 59, second: 59, nanosecond: 1_500_000_000 };
    assert!(t.is_valid());
    assert!(!DateTime { second: 58, ..t }.is_valid());
    assert!(!DateTime { hour: 24, nanosecond: 0, ..t }.is_valid());
}
