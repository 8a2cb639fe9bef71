use std::collections::HashMap;
use timelog::summary::{bucket_totals, format_dur_wide, granularity_lines, Granularity};
use timelog::{sort_hash_map, summarize, Entry, Timestamp};

fn closed(start: i64, dur: i64) -> Entry {
    Entry {
        start: Some(Timestamp::new(start, 0).unwrap()),
        stop: Some(Timestamp::new(start + dur, 0).unwrap()),
        goal: String::new(),
        result: String::new(),
        notes: Vec::new(),
    }
}

const JUL_14_2020: i64 = 1594684800;
const JUL_15_2020: i64 = 1594771200;

#[test]
fn weekly_collapses_daily_splits() {
    let entries = vec![closed(JUL_14_2020, 1800), closed(JUL_15_2020, 1800)];
    let weekly = bucket_totals(&entries, Granularity::Weekly);
    assert_eq!(weekly.len(), 1);
    assert_eq!(weekly[0].1, 3600);
    assert_eq!(format_dur_wide(weekly[0].1), "1h");
    let daily = bucket_totals(&entries, Granularity::Daily);
    assert_eq!(daily.len(), 2);
    assert_eq!(daily[0].1, 1800);
    assert_eq!(daily[1].1, 1800);
    assert_eq!(format_dur_wide(daily[0].1), "30m");
}

#[test]
fn summarize_weekly_and_daily_blocks() {
    let entries = vec![closed(JUL_14_2020, 1800), closed(JUL_15_2020, 1800)];
    let lines = summarize(&entries, false, false, true, true);
    assert_eq!(
        lines,
        vec![
            "2020, Week 29: 1h".to_string(),
            "".to_string(),
            "2020-07-14: 30m".to_string(),
            "2020-07-15: 30m".to_string(),
        ]
    );
}

#[test]
fn summarize_yearly_and_monthly_labels() {
    let entries = vec![closed(JUL_14_2020, 1800), closed(JUL_15_2020, 1800)];
    let lines = summarize(&entries, true, true, false, false);
    assert_eq!(
        lines,
        vec!["2020: 1h".to_string(), "".to_string(), "2020-07: 1h".to_string()]
    );
}

#[test]
fn open_entries_do_not_count() {
    let open = Entry {
        start: Some(Timestamp::new(JUL_14_2020, 0).unwrap()),
        stop: None,
        goal: String::new(),
        result: String::new(),
        notes: Vec::new(),
    };
    let entries = vec![open, closed(JUL_15_2020, 60)];
    let daily = bucket_totals(&entries, Granularity::Daily);
    assert_eq!(daily.len(), 1);
    assert_eq!(daily[0].1, 60);
}

#[test]
fn offset_shifts_the_civil_date() {
    let start = JUL_14_2020 - 3600;
    let e = Entry {
        start: Some(Timestamp::new(start, 3600).unwrap()),
        stop: Some(Timestamp::new(start + 60, 3600).unwrap()),
        goal: String::new(),
        result: String::new(),
        notes: Vec::new(),
    };
    let entries = vec![e];
    let daily = bucket_totals(&entries, Granularity::Daily);
    let lines = granularity_lines(&daily, Granularity::Daily);
    assert_eq!(lines, vec!["2020-07-14: 1m".to_string()]);
}

#[test]
fn sort_hash_map_orders_by_key() {
    let mut m: HashMap<i64, i128> = HashMap::new();
    m.insert(3, 30);
    m.insert(1, 10);
    m.insert(2, 20);
    let sorted = sort_hash_map(m);
    assert_eq!(sorted, vec![(1, 10), (2, 20), (3, 30)]);
}

#[test]
fn empty_summary_has_no_lines() {
    let entries: Vec<Entry> = Vec::new();
    let lines = summarize(&entries, true, true, true, true);
    assert_eq!(lines, Vec::<String>::new());
}
