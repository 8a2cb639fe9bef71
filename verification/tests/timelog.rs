use timelog::{
    format_dur, read_entries, render_entry, write_entries, Entry, Log, OpError, Timestamp,
};

fn ts(secs: i64) -> Timestamp {
    Timestamp::new(secs, 0).unwrap()
}

fn open_entry(start: i64, goal: &str) -> Entry {
    Entry {
        start: Some(ts(start)),
        stop: None,
        goal: goal.to_string(),
        result: String::new(),
        notes: Vec::new(),
    }
}

fn closed_entry(start: i64, stop: i64, goal: &str) -> Entry {
    Entry {
        start: Some(ts(start)),
        stop: Some(ts(stop)),
        goal: goal.to_string(),
        result: String::new(),
        notes: Vec::new(),
    }
}

#[test]
fn format_dur_examples() {
    assert_eq!(format_dur(90 * 60), "1h30m");
    assert_eq!(format_dur(25 * 3600), "1d1h");
    assert_eq!(format_dur(3), "3s");
    assert_eq!(format_dur(0), "");
    assert_eq!(format_dur(86400 + 2 * 3600 + 3 * 60 + 4), "1d2h3m4s");
    assert_eq!(format_dur(-3), "-3s");
    assert_eq!(format_dur(-90 * 60), "-1h-30m");
}

#[test]
fn ordering_none_first_then_ascending() {
    let a = open_entry(1000, "a");
    let b = open_entry(2000, "b");
    let c = Entry {
        start: None,
        stop: None,
        goal: "c".to_string(),
        result: String::new(),
        notes: Vec::new(),
    };
    let mut log = Log::new();
    log.push(b.clone());
    log.push(c.clone());
    log.push(a.clone());
    let v = log.into_sorted_vec();
    assert_eq!(v.len(), 3);
    assert_eq!(v[0].goal, "c");
    assert_eq!(v[1].goal, "a");
    assert_eq!(v[2].goal, "b");
}

#[test]
fn pop_most_recent_returns_latest_started() {
    let a = open_entry(1000, "a");
    let b = open_entry(2000, "b");
    let mut log = Log::new();
    log.push(a);
    log.push(b);
    let first = log.pop_most_recent().unwrap();
    assert_eq!(first.goal, "b");
    let second = log.pop_most_recent().unwrap();
    assert_eq!(second.goal, "a");
    assert!(log.pop_most_recent().is_none());
}

#[test]
fn save_load_round_trip_open_entry() {
    let mut log = Log::new();
    log.push(open_entry(1234567, "write the report"));
    let text = write_entries(log);
    let back = read_entries(Some(text.as_str())).unwrap();
    let v = back.into_sorted_vec();
    assert_eq!(v.len(), 1);
    assert_eq!(v[0].start, Some(ts(1234567)));
    assert_eq!(v[0].stop, None);
    assert_eq!(v[0].goal, "write the report");
    assert_eq!(v[0].result, "");
    assert_eq!(v[0].notes, Vec::<String>::new());
}

#[test]
fn save_load_round_trip_full_entry() {
    let mut e = closed_entry(1000, 4000, "goal text\nwith two lines");
    e.result = "all done".to_string();
    e.notes = vec!["first note".to_string(), "note with \\ backslash\nand newline".to_string()];
    let mut log = Log::new();
    log.push(e);
    log.push(open_entry(9000, "later"));
    let text = write_entries(log);
    let back = read_entries(Some(text.as_str())).unwrap();
    let v = back.into_sorted_vec();
    assert_eq!(v.len(), 2);
    assert_eq!(v[0].goal, "goal text\nwith two lines");
    assert_eq!(v[0].result, "all done");
    assert_eq!(v[0].notes.len(), 2);
    assert_eq!(v[0].notes[1], "note with \\ backslash\nand newline");
    assert_eq!(v[1].goal, "later");
}

#[test]
fn missing_storage_is_empty_collection() {
    let log = read_entries(None).unwrap();
    assert_eq!(log.len(), 0);
}

#[test]
fn empty_text_is_empty_collection() {
    let log = read_entries(Some("")).unwrap();
    assert_eq!(log.len(), 0);
}

#[test]
fn malformed_text_is_an_error() {
    assert!(read_entries(Some("not the format")).is_err());
    assert!(read_entries(Some("entry\nstart nonsense here")).is_err());
    assert!(read_entries(Some("start 1 0")).is_err());
}

#[test]
fn double_stop_fails_and_leaves_state_alone() {
    let mut log = Log::new();
    log.start_entry(ts(1000), "work".to_string());
    assert!(log.stop_latest(ts(2000), "did work".to_string()).is_ok());
    let saved = write_entries(log);
    let mut reloaded = read_entries(Some(saved.as_str())).unwrap();
    let err = reloaded.stop_latest(ts(3000), "again".to_string()).unwrap_err();
    assert_eq!(err, OpError::AlreadyStopped);
    let saved_again = write_entries(reloaded);
    assert_eq!(saved, saved_again);
}

#[test]
fn pop_on_empty_is_distinct_from_double_stop() {
    let mut log = Log::new();
    let stop_err = log.stop_latest(ts(1000), "r".to_string()).unwrap_err();
    assert_eq!(stop_err, OpError::Empty);
    let note_err = log.add_note("n".to_string()).unwrap_err();
    assert_eq!(note_err, OpError::Empty);
    assert_ne!(stop_err, OpError::AlreadyStopped);
}

#[test]
fn note_appends_to_latest_entry() {
    let mut log = Log::new();
    log.start_entry(ts(1000), "work".to_string());
    log.add_note("remember this".to_string()).unwrap();
    log.add_note("and this".to_string()).unwrap();
    let v = log.into_sorted_vec();
    assert_eq!(v[0].notes, vec!["remember this".to_string(), "and this".to_string()]);
}

#[test]
fn render_open_entry_block() {
    let e = open_entry(0, "fix");
    let text = render_entry(&e);
    let expected = "Start Time: 1970-01-01 00:00:00 +00:00\n\
                    Stop Time:  --\n\
                    Duration:   --\n\
                    Goal:       fix\n\
                    Result:     ";
    assert_eq!(text, expected);
}

#[test]
fn render_full_entry_block() {
    let mut e = closed_entry(0, 5400, "fix\nthe bug");
    e.result = "fixed".to_string();
    e.notes = vec!["tricky".to_string()];
    let text = render_entry(&e);
    let expected = "Start Time: 1970-01-01 00:00:00 +00:00\n\
                    Stop Time:  1970-01-01 01:30:00 +00:00\n\
                    Duration:   1h30m\n\
                    Goal:       fix\n            the bug\n\
                    Result:     fixed\n\
                    Note:       tricky";
    assert_eq!(text, expected);
}

#[test]
fn timestamp_range_is_enforced() {
    assert!(Timestamp::new(0, 0).is_some());
    assert!(Timestamp::new(253402300799, 86399).is_some());
    assert!(Timestamp::new(253402300800, 0).is_none());
    assert!(Timestamp::new(0, 86400).is_none());
}
