use takt::datetime::DateTime;
use takt::log::Entry;
use takt::status::status_text;

fn dt(hour: u32, minute: u32, second: u32) -> DateTime {
    DateTime { year: 2026, month: 4, day: 6, hour, minute, second, nanosecond: 0 }
}

#[test]
fn status_when_idle() {
    assert_eq!(status_text(None, dt(12, 0, 0)), "Not tracking anything.\n");
}

#[test]
fn status_shows_tag_and_elapsed_time() {
    let e = Entry { start: dt(9, 0, 0), end: None, tag: "work/x".to_string() };
    assert_eq!(status_text(Some(&e), dt(11, 5, 30)), "Tracking: work/x\nElapsed: 2h 5m\n");
}

#[test]
fn status_before_start_is_negative() {
    let e = Entry { start: dt(9, 0, 0), end: None, tag: "a".to_string() };
    assert_eq!(status_text(Some(&e), dt(7, 50, 0)), "Tracking: a\nElapsed: -1h -10m\n");
}
