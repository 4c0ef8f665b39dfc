use inbox_watch::entry::FileEntry;
use inbox_watch::file_monitor::{FileEvent, Monitor, Phase};

fn file(p: &str, t: i128) -> FileEntry {
    FileEntry { path: p.split('/').map(|c| c.as_bytes().to_vec()).collect(), last_mod: t, is_dir: false }
}

fn lines(m: &mut Monitor, snap: Vec<FileEntry>) -> Vec<String> {
    m.tick(snap)
        .iter()
        .map(|e| format!("[{}] {}", e.event.tag(), String::from_utf8(e.entry.label()).unwrap()))
        .collect()
}

#[test]
fn create_modify_delete_scenario() {
    let mut m = Monitor::new();
    assert_eq!(m.phase(), Phase::Initializing);
    m.start(vec![file("a.txt", 0)]);
    assert_eq!(m.phase(), Phase::Running);
    assert!(m.keep_running(false));
    assert!(lines(&mut m, vec![file("a.txt", 0)]).is_empty());
    assert_eq!(lines(&mut m, vec![file("a.txt", 0), file("b.txt", 1)]), vec!["[NEW] b.txt"]);
    assert_eq!(lines(&mut m, vec![file("a.txt", 2), file("b.txt", 1)]), vec!["[MOD] a.txt"]);
    assert_eq!(lines(&mut m, vec![file("a.txt", 2)]), vec!["[DEL] b.txt"]);
}

#[test]
fn cancellation_shuts_down_then_stops() {
    let mut m = Monitor::new();
    m.start(vec![file("a.txt", 0)]);
    assert!(!m.keep_running(true));
    assert_eq!(m.phase(), Phase::ShuttingDown);
    assert!(!m.keep_running(false));
    assert_eq!(m.phase(), Phase::Stopped);
    let last = m.finish();
    assert_eq!(last.len(), 1);
    assert_eq!(last[0].last_mod, 0);
}

#[test]
fn finish_returns_last_snapshot() {
    let mut m = Monitor::new();
    m.start(vec![file("a.txt", 0)]);
    let events = m.tick(vec![file("b.txt", 3)]);
    assert_eq!(events.len(), 2);
    assert_eq!(events[0].event, FileEvent::Del);
    let last = m.finish();
    assert_eq!(m.phase(), Phase::Stopped);
    assert_eq!(last.len(), 1);
    assert_eq!(last[0].label(), b"b.txt".to_vec());
}

#[test]
fn tick_before_start_does_nothing() {
    let mut m = Monitor::new();
    assert!(m.tick(vec![file("a.txt", 0)]).is_empty());
    assert!(!m.keep_running(false));
    m.start(vec![]);
    m.start(vec![file("x", 1)]);
    assert_eq!(lines(&mut m, vec![file("x", 1)]), vec!["[NEW] x"]);
}
