use takt::datetime::{Date, DateTime};
use takt::log::Entry;
use takt::store::flat::{entries_in_window, sort_by_start, FlatStore};
use takt::store::sqlite::{entry_from_row, from_ts, to_ts};

fn dt(year: i32, month: u32, day: u32, hour: u32, minute: u32, second: u32) -> DateTime {
    DateTime { year, month, day, hour, minute, second, nanosecond: 0 }
}

fn entry(tag: &str, start: DateTime) -> Entry {
    Entry { start, end: None, tag: tag.to_string() }
}

#[test]
fn tags_path_joins_directory() {
    assert_eq!(FlatStore::new("/data/takt".to_string()).tags_path(), "/data/takt/tags");
    assert_eq!(FlatStore::new("/data/takt/".to_string()).tags_path(), "/data/takt/tags");
    assert_eq!(FlatStore::new(String::new()).tags_path(), "tags");
}

#[test]
fn store_keeps_its_directory() {
    assert_eq!(FlatStore::new("/d".to_string()).data_dir(), "/d");
}

#[test]
fn log_path_names_year_and_month() {
    let store = FlatStore::new("/d".to_string());
    assert_eq!(store.log_path_for_date(Date { year: 2026, month: 4, day: 6 }), "/d/log/2026-04.takt");
    assert_eq!(store.log_path_for_date(Date { year: 987, month: 11, day: 30 }), "/d/log/0987-11.takt");
}

#[test]
fn active_log_paths_look_back_one_month() {
    let store = FlatStore::new("/d".to_string());
    let paths = store.active_log_paths(Date { year: 2026, month: 1, day: 15 });
    assert_eq!(paths, vec!["/d/log/2026-01.takt".to_string(), "/d/log/2025-12.takt".to_string()]);
}

#[test]
fn log_paths_cover_every_month_of_the_range() {
    let store = FlatStore::new("/d".to_string());
    let paths = store.log_paths_between(dt(2025, 11, 30, 23, 0, 0), dt(2026, 2, 1, 0, 0, 0));
    assert_eq!(
        paths,
        vec![
            "/d/log/2025-11.takt".to_string(),
            "/d/log/2025-12.takt".to_string(),
            "/d/log/2026-01.takt".to_string(),
            "/d/log/2026-02.takt".to_string(),
        ]
    );
    assert_eq!(store.log_paths_between(dt(2026, 3, 5, 0, 0, 0), dt(2026, 3, 9, 0, 0, 0)).len(), 1);
    assert!(store.log_paths_between(dt(2026, 3, 5, 0, 0, 0), dt(2026, 2, 9, 0, 0, 0)).is_empty());
}

#[test]
fn window_is_half_open_on_start() {
    let entries = vec![
        entry("before", dt(2026, 4, 1, 8, 59, 59)),
        entry("at-start", dt(2026, 4, 1, 9, 0, 0)),
        entry("inside", dt(2026, 4, 1, 12, 0, 0)),
        entry("at-end", dt(2026, 4, 1, 17, 0, 0)),
    ];
    let picked = entries_in_window(&entries, dt(2026, 4, 1, 9, 0, 0), dt(2026, 4, 1, 17, 0, 0));
    let tags: Vec<&str> = picked.iter().map(|e| e.tag.as_str()).collect();
    assert_eq!(tags, vec!["at-start", "inside"]);
}

#[test]
fn timestamps_count_from_the_epoch() {
    assert_eq!(to_ts(dt(1970, 1, 1, 0, 0, 0)), 0);
    assert_eq!(to_ts(dt(2026, 4, 6, 9, 15, 4)), 1775466904);
    assert_eq!(to_ts(dt(1969, 12, 31, 23, 59, 59)), -1);
}

#[test]
fn from_ts_inverts_to_ts() {
    let t = dt(2026, 4, 6, 9, 15, 4);
    assert_eq!(from_ts(1775466904), t);
    assert_eq!(from_ts(to_ts(dt(1900, 2, 28, 12, 0, 1))), dt(1900, 2, 28, 12, 0, 1));
    assert_eq!(from_ts(-1), dt(1969, 12, 31, 23, 59, 59));
}

#[test]
fn row_becomes_entry() {
    let e = entry_from_row(0, Some(3600), "work".to_string());
    assert_eq!(e.start, dt(1970, 1, 1, 0, 0, 0));
    assert_eq!(e.end, Some(dt(1970, 1, 1, 1, 0, 0)));
    assert_eq!(e.tag, "work");
    let running = entry_from_row(86400, None, "x".to_string());
    assert_eq!(running.start, dt(1970, 1, 2, 0, 0, 0));
    assert!(running.end.is_none());
}

#[test]
fn sort_orders_by_start() {
    let entries = vec![
        entry("c", dt(2026, 4, 3, 9, 0, 0)),
        entry("a", dt(2026, 4, 1, 9, 0, 0)),
        entry("b1", dt(2026, 4, 2, 9, 0, 0)),
        entry("b2", dt(2026, 4, 2, 9, 0, 0)),
    ];
    let sorted = sort_by_start(entries);
    let tags: Vec<&str> = sorted.iter().map(|e| e.tag.as_str()).collect();
    assert_eq!(tags, vec!["a", "b1", "b2", "c"]);
}

#[test]
fn timestamp_range_limits() {
    assert!(takt::store::sqlite::timestamp_in_range(0));
    assert!(takt::store::sqlite::timestamp_in_range(8210266876799));
    assert!(!takt::store::sqlite::timestamp_in_range(8210266876800));
    assert!(takt::store::sqlite::timestamp_in_range(-8334601228800));
    assert!(!takt::store::sqlite::timestamp_in_range(-8334601228801));
    assert!(chrono::DateTime::from_timestamp(8210266876799, 0).is_some());
    assert!(chrono::DateTime::from_timestamp(8210266876800, 0).is_none());
}

#[test]
fn running_entry_elsewhere_is_stopped_first() {
    let store = FlatStore::new("/d".to_string());
    let today = Date { year: 2026, month: 5, day: 2 };
    assert!(store.stop_elsewhere_first("/d/log/2026-04.takt", today));
    assert!(!store.stop_elsewhere_first("/d/log/2026-05.takt", today));
}
