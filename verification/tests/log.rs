use takt::datetime::DateTime;
use takt::log::{Entry, TaskLog};
use takt::TaktError;

const SAMPLE: &str = "\
2026-04-06 09:15:04 -- 2026-04-06 11:30:10 | work/project-x/fix-bug
2026-04-06 11:35:02 -- * | study/math/linear-algebra";

fn dt(year: i32, month: u32, day: u32, hour: u32, minute: u32, second: u32) -> DateTime {
    DateTime { year, month, day, hour, minute, second, nanosecond: 0 }
}

#[test]
fn log_parse_and_write_round_trip() {
    let log = TaskLog::parse(SAMPLE).unwrap();
    let output = log.write();
    assert_eq!(output.trim_end(), SAMPLE)
}

#[test]
fn parse_completed_entry() {
    let log = TaskLog::parse(SAMPLE).unwrap();
    let entry = &log.entries()[0];
    assert_eq!(entry.tag, "work/project-x/fix-bug");
    assert!(entry.end.is_some());
}

#[test]
fn parse_active_entry() {
    let log = TaskLog::parse(SAMPLE).unwrap();
    let entry = &log.entries()[1];
    assert_eq!(entry.tag, "study/math/linear-algebra");
    assert!(entry.end.is_none());
}

#[test]
fn active_returns_running_task() {
    let log = TaskLog::parse(SAMPLE).unwrap();
    let active = log.active().unwrap();
    assert_eq!(active.tag, "study/math/linear-algebra");
}

#[test]
fn active_returns_none_when_all_stopped() {
    let input = "2026-04-06 09:15:04 -- 2026-04-06 11:30:10 | work/fix-bug";
    let log = TaskLog::parse(input).unwrap();
    assert!(log.active().is_none());
}

#[test]
fn start_adds_entry() {
    let mut log = TaskLog::parse("").unwrap();
    log.start("work/project-x").unwrap();
    assert_eq!(log.entries().len(), 1);
    assert_eq!(log.entries()[0].tag, "work/project-x");
    assert!(log.entries()[0].end.is_none());
}

#[test]
fn start_stops_active_task() {
    let mut log = TaskLog::parse(SAMPLE).unwrap();
    // "study/math/linear-algebra" is active
    log.start("work/new-task").unwrap();
    // previous task should now be stopped
    assert!(log.entries()[1].end.is_some());
    // new task should be active
    assert_eq!(log.entries()[2].tag, "work/new-task");
    assert!(log.entries()[2].end.is_none());
}

#[test]
fn stop_sets_end_time() {
    let mut log = TaskLog::parse(SAMPLE).unwrap();
    log.stop().unwrap();
    assert!(log.entries()[1].end.is_some());
    assert!(log.active().is_none());
}

#[test]
fn stop_with_no_active_task_errors() {
    let input = "2026-04-06 09:15:04 -- 2026-04-06 11:30:10 | work/fix-bug";
    let mut log = TaskLog::parse(input).unwrap();
    let err = log.stop().unwrap_err();
    assert!(matches!(err, TaktError::NoActiveTask));
}

#[test]
fn parse_malformed_line_errors() {
    let input = "this is not valid";
    let err = TaskLog::parse(input).unwrap_err();
    assert!(matches!(err, TaktError::MalformedLine { .. }));
}

#[test]
fn parse_bad_datetime_errors() {
    let input = "not-a-date -- 2026-04-06 11:30:10 | work/task";
    let err = TaskLog::parse(input).unwrap_err();
    assert!(matches!(err, TaktError::BadDateTime { .. }));
}

// Further cases: exact values, errors, and edges.

#[test]
fn parse_reads_times_and_trims_tag() {
    let log = TaskLog::parse("  2026-04-06 09:15:04 --  2026-04-06 11:30:10  |   work/x  \n").unwrap();
    let e = &log.entries()[0];
    assert_eq!(e.start, dt(2026, 4, 6, 9, 15, 4));
    assert_eq!(e.end, Some(dt(2026, 4, 6, 11, 30, 10)));
    assert_eq!(e.tag, "work/x");
}

#[test]
fn parse_skips_blank_log_lines() {
    let log = TaskLog::parse("\n\n2026-04-06 09:15:04 -- * | a\n   \n").unwrap();
    assert_eq!(log.entries().len(), 1);
}

#[test]
fn malformed_line_without_time_separator() {
    match TaskLog::parse("2026-04-06 09:15:04 * | a\n").unwrap_err() {
        TaktError::MalformedLine { line, content } => {
            assert_eq!(line, 0);
            assert_eq!(content, "2026-04-06 09:15:04 * | a");
        }
        _ => panic!("expected MalformedLine"),
    }
}

#[test]
fn bad_end_time_names_line_and_text() {
    let input = "2026-04-06 09:15:04 -- * | a\n2026-04-06 09:15:04 -- 2026-13-01 00:00:00 | b";
    match TaskLog::parse(input).unwrap_err() {
        TaktError::BadDateTime { line, value, .. } => {
            assert_eq!(line, 1);
            assert_eq!(value, "2026-13-01 00:00:00");
        }
        _ => panic!("expected BadDateTime"),
    }
}

#[test]
fn first_bad_line_decides_the_error() {
    let input = "garbage\nnot-a-date -- * | a";
    assert!(matches!(TaskLog::parse(input).unwrap_err(), TaktError::MalformedLine { line: 0, .. }));
}

#[test]
fn fraction_of_second_does_not_read_back() {
    let input = "2026-04-06 09:15:04.5 -- * | a";
    assert!(matches!(TaskLog::parse(input).unwrap_err(), TaktError::BadDateTime { .. }));
}

#[test]
fn stop_at_ends_first_running_entry() {
    let input = "2026-04-06 09:00:00 -- * | a\n2026-04-06 10:00:00 -- * | b";
    let mut log = TaskLog::parse(input).unwrap();
    log.stop_at(dt(2026, 4, 6, 12, 0, 0)).unwrap();
    assert_eq!(log.entries()[0].end, Some(dt(2026, 4, 6, 12, 0, 0)));
    assert!(log.entries()[1].end.is_none());
    assert_eq!(log.active().unwrap().tag, "b");
}

#[test]
fn stop_at_without_running_entry_changes_nothing() {
    let input = "2026-04-06 09:00:00 -- 2026-04-06 10:00:00 | a";
    let mut log = TaskLog::parse(input).unwrap();
    assert!(matches!(log.stop_at(dt(2026, 4, 6, 12, 0, 0)), Err(TaktError::NoActiveTask)));
    assert_eq!(log.write(), "2026-04-06 09:00:00 -- 2026-04-06 10:00:00 | a\n");
}

#[test]
fn written_stop_reads_back() {
    let mut log = TaskLog::parse("2026-04-06 09:00:00 -- * | work").unwrap();
    log.stop_at(dt(2026, 4, 6, 10, 30, 0)).unwrap();
    let text = log.write();
    assert_eq!(text, "2026-04-06 09:00:00 -- 2026-04-06 10:30:00 | work\n");
    let again = TaskLog::parse(&text).unwrap();
    assert_eq!(again.entries()[0].end, Some(dt(2026, 4, 6, 10, 30, 0)));
}

#[test]
fn start_leaves_exactly_one_running() {
    let mut log = TaskLog::parse("").unwrap();
    log.start("a").unwrap();
    log.start("b").unwrap();
    log.start("c").unwrap();
    let running: Vec<&Entry> = log.entries().iter().filter(|e| e.end.is_none()).collect();
    assert_eq!(running.len(), 1);
    assert_eq!(running[0].tag, "c");
}

#[test]
fn cloned_entry_keeps_fields() {
    let e = Entry { start: dt(2026, 1, 2, 3, 4, 5), end: None, tag: "x".to_string() };
    let c = e.clone();
    assert_eq!(c.start, e.start);
    assert_eq!(c.end, e.end);
    assert_eq!(c.tag, e.tag);
}

#[test]
fn start_at_ends_running_entry_at_same_moment() {
    let mut log = TaskLog::parse("2026-04-06 09:00:00 -- * | a").unwrap();
    log.start_at("b", dt(2026, 4, 6, 10, 0, 0));
    assert_eq!(log.entries()[0].end, Some(dt(2026, 4, 6, 10, 0, 0)));
    assert_eq!(log.entries()[1].start, dt(2026, 4, 6, 10, 0, 0));
    assert!(log.entries()[1].end.is_none());
    assert_eq!(
        log.write(),
        "2026-04-06 09:00:00 -- 2026-04-06 10:00:00 | a\n2026-04-06 10:00:00 -- * | b\n"
    );
}

#[test]
fn started_log_reads_back() {
    let mut log = TaskLog::parse("").unwrap();
    log.start("work/foo").unwrap();
    log.start("work/bar").unwrap();
    assert_eq!(log.entries()[1].start.nanosecond, 0);
    let again = TaskLog::parse(&log.write()).unwrap();
    assert_eq!(again.entries().len(), 2);
    assert_eq!(again.active().unwrap().tag, "work/bar");
    let mut again = again;
    again.stop().unwrap();
    assert!(TaskLog::parse(&again.write()).unwrap().active().is_none());
}

#[test]
fn bad_datetime_message() {
    let err = TaskLog::parse("x\n\nnot-a-date -- * | a").unwrap_err();
    assert!(matches!(err, TaktError::MalformedLine { line: 0, .. }));
    let err = TaskLog::parse("\nnot-a-date -- * | a").unwrap_err();
    assert_eq!(err.message(), "invalid datetime on line 2: 'not-a-date' (input contains invalid characters)");
}

#[test]
fn signed_years_read_back() {
    let input = "-0001-12-31 23:59:59 -- +10000-01-01 00:00:00 | far";
    let log = TaskLog::parse(input).unwrap();
    assert_eq!(log.entries()[0].start, dt(-1, 12, 31, 23, 59, 59));
    assert_eq!(log.entries()[0].end, Some(dt(10000, 1, 1, 0, 0, 0)));
    assert_eq!(log.write(), format!("{input}\n"));
}

#[test]
fn leap_second_reads_back() {
    let input = "2016-12-31 23:59:60 -- * | leap";
    let log = TaskLog::parse(input).unwrap();
    let t = DateTime { year: 2016, month: 12, day: 31, hour: 23, minute: 59, second: 59, nanosecond: 1_000_000_000 };
    assert_eq!(log.entries()[0].start, t);
    assert_eq!(log.write(), format!("{input}\n"));
}
