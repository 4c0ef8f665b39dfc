use inbox_watch::entry::{path_less, FileEntry};
use inbox_watch::file_monitor::{diff, listed_entries, EventEntry, FileEvent};

fn path(p: &str) -> Vec<Vec<u8>> {
    p.split('/').map(|c| c.as_bytes().to_vec()).collect()
}

fn file(p: &str, t: i128) -> FileEntry {
    FileEntry { path: path(p), last_mod: t, is_dir: false }
}

fn dir(p: &str, t: i128) -> FileEntry {
    FileEntry { path: path(p), last_mod: t, is_dir: true }
}

fn summary(events: &[EventEntry]) -> Vec<(FileEvent, String, i128)> {
    events
        .iter()
        .map(|e| (e.event, String::from_utf8(e.entry.label()).unwrap(), e.entry.last_mod))
        .collect()
}

#[test]
fn diff_of_snapshot_with_itself_is_empty() {
    let s = vec![file("a.txt", 1), dir("d", 2), file("d/b.txt", 3)];
    assert!(diff(&s, &s).is_empty());
}

#[test]
fn diff_of_empty_snapshots_is_empty() {
    assert!(diff(&Vec::new(), &Vec::new()).is_empty());
}

#[test]
fn diff_classifies_each_path() {
    let prev = vec![file("gone.txt", 1), file("same.txt", 2), file("changed.txt", 3)];
    let cur = vec![file("same.txt", 2), file("changed.txt", 9), file("added.txt", 4)];
    assert_eq!(
        summary(&diff(&prev, &cur)),
        vec![
            (FileEvent::New, "added.txt".to_string(), 4),
            (FileEvent::Mod, "changed.txt".to_string(), 3),
            (FileEvent::Del, "gone.txt".to_string(), 1),
        ]
    );
}

#[test]
fn modified_event_carries_previous_entry() {
    let prev = vec![file("a.txt", 10)];
    let cur = vec![file("a.txt", 20)];
    let events = diff(&prev, &cur);
    assert_eq!(events.len(), 1);
    assert_eq!(events[0].event, FileEvent::Mod);
    assert_eq!(events[0].entry.last_mod, 10);
}

#[test]
fn diff_output_is_sorted_whatever_the_input_order() {
    let prev = vec![file("z.txt", 1), file("m/b.txt", 1), file("a.txt", 1)];
    let cur = vec![file("y.txt", 1), file("b.txt", 1)];
    let events = diff(&prev, &cur);
    let names: Vec<String> = summary(&events).into_iter().map(|e| e.1).collect();
    assert_eq!(names, vec!["a.txt", "b.txt", "m/b.txt", "y.txt", "z.txt"]);
    let reversed: Vec<FileEntry> = prev.iter().rev().map(|e| e.copy()).collect();
    assert_eq!(summary(&diff(&reversed, &cur)), summary(&events));
}

#[test]
fn path_order_is_by_component() {
    // "a" < "a.b" as components, although '/' sorts after '.' as a byte.
    assert!(path_less(&path("a/b"), &path("a.b")));
    assert!(!path_less(&path("a.b"), &path("a/b")));
    assert!(path_less(&path("a"), &path("a/b")));
    assert!(!path_less(&path("a/b"), &path("a/b")));
}

#[test]
fn directories_never_give_events() {
    let prev = vec![dir("old", 1), dir("kept", 1)];
    let cur = vec![dir("kept", 5), dir("new", 1)];
    assert!(diff(&prev, &cur).is_empty());
}

#[test]
fn path_that_changes_type_is_judged_by_presence() {
    let prev = vec![file("x", 1)];
    assert!(diff(&prev, &vec![dir("x", 1)]).is_empty());
    assert_eq!(summary(&diff(&prev, &vec![dir("x", 5)])), vec![(FileEvent::Mod, "x".to_string(), 1)]);
}

#[test]
fn event_tags() {
    assert_eq!(FileEvent::New.tag(), "NEW");
    assert_eq!(FileEvent::Mod.tag(), "MOD");
    assert_eq!(FileEvent::Del.tag(), "DEL");
}

#[test]
fn listing_shows_files_or_everything() {
    let entries = vec![dir("sub", 1), file("sub/c.txt", 2)];
    let files: Vec<String> = listed_entries(&entries, false)
        .iter()
        .map(|e| String::from_utf8(e.label()).unwrap())
        .collect();
    assert_eq!(files, vec!["sub/c.txt"]);
    let all: Vec<String> = listed_entries(&entries, true)
        .iter()
        .map(|e| String::from_utf8(e.label()).unwrap())
        .collect();
    assert_eq!(all, vec!["sub/", "sub/c.txt"]);
}

#[test]
fn modification_time_as_utc_text() {
    assert_eq!(file("a", 0).modified_utc().unwrap(), "1970-01-01 00:00:00 UTC");
    assert_eq!(file("a", -1).modified_utc().unwrap(), "1969-12-31 23:59:59 UTC");
    assert_eq!(
        file("a", 1_700_000_000_500_000_000).modified_utc().unwrap(),
        "2023-11-14 22:13:20 UTC"
    );
}

#[test]
fn modification_time_beyond_dates_has_no_text() {
    assert!(file("a", i128::MAX).modified_utc().is_none());
    assert!(file("a", i128::MIN).modified_utc().is_none());
    assert!(file("a", (i64::MAX as i128) * 1_000_000_000).modified_utc().is_none());
}

#[test]
fn initial_listing_line_format() {
    let entries = vec![dir("sub", 0), file("sub/c.txt", 0)];
    let lines: Vec<String> = listed_entries(&entries, false)
        .iter()
        .map(|e| format!("[{}] {}", e.modified_utc().unwrap(), String::from_utf8(e.label()).unwrap()))
        .collect();
    assert_eq!(lines, vec!["[1970-01-01 00:00:00 UTC] sub/c.txt"]);
}

#[test]
fn modification_time_within_promised_range_has_text() {
    assert!(file("a", 8_000_000_000_000_000_000_000).modified_utc().is_some());
    assert!(file("a", -8_000_000_000_000_000_000_000).modified_utc().is_some());
}
