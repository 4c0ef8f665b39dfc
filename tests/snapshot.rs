use inbox_watch::entry::FileEntry;
use inbox_watch::file_list::{DirChild, FileList};

fn child(name: &str, t: i128, is_dir: bool) -> DirChild {
    DirChild { name: name.as_bytes().to_vec(), last_mod: t, is_dir }
}

fn labels(entries: &[FileEntry]) -> Vec<String> {
    entries.iter().map(|e| String::from_utf8(e.label()).unwrap()).collect()
}

/// Walks a tree given as a listing for each directory, read by `list`.
fn walk(fl: &mut FileList, list: &dyn Fn(&[Vec<u8>]) -> Vec<DirChild>) {
    while let Some(d) = fl.next_dir() {
        let children = list(&d);
        fl.add_listing(&children);
    }
}

fn tree(d: &[Vec<u8>]) -> Vec<DirChild> {
    let names: Vec<&str> = d.iter().map(|c| std::str::from_utf8(c).unwrap()).collect();
    match names.as_slice() {
        [] => vec![child("b.txt", 1, false), child("sub", 2, true), child("a.txt", 3, false)],
        ["sub"] => vec![child("deep", 4, true), child("c.txt", 5, false)],
        ["sub", "deep"] => vec![child("d.txt", 6, false)],
        _ => vec![],
    }
}

#[test]
fn empty_directory_gives_empty_snapshot() {
    let mut fl = FileList::new("/tmp/inbox");
    walk(&mut fl, &|_| Vec::new());
    assert!(fl.snapshot(true).is_empty());
    assert!(fl.snapshot(false).is_empty());
    assert_eq!(fl.root(), "/tmp/inbox");
}

#[test]
fn nested_tree_lists_all_descendants_relative_to_root() {
    let mut fl = FileList::new("/tmp/inbox");
    walk(&mut fl, &tree);
    assert_eq!(
        labels(&fl.snapshot(true)),
        vec!["a.txt", "b.txt", "sub/", "sub/c.txt", "sub/deep/", "sub/deep/d.txt"]
    );
    assert_eq!(fl.snapshot(false).len(), 6);
}

#[test]
fn walk_order_does_not_change_sorted_snapshot() {
    let mut fl = FileList::new("r");
    walk(&mut fl, &tree);
    let reversed = |d: &[Vec<u8>]| {
        let mut v = tree(d);
        v.reverse();
        v
    };
    let mut other = FileList::new("r");
    walk(&mut other, &reversed);
    assert_ne!(labels(&fl.snapshot(false)), labels(&other.snapshot(false)));
    assert_eq!(labels(&fl.snapshot(true)), labels(&other.snapshot(true)));
}

#[test]
fn first_directory_read_is_root_then_depth_first() {
    let mut fl = FileList::new("r");
    let root = fl.next_dir().unwrap();
    assert!(root.is_empty());
    // Until its listing comes, the same directory is handed out again.
    assert!(fl.next_dir().unwrap().is_empty());
    fl.add_listing(&vec![child("x", 1, true), child("y", 1, true)]);
    assert_eq!(fl.next_dir().unwrap(), vec![b"y".to_vec()]);
    fl.add_listing(&vec![child("y1", 1, false)]);
    assert_eq!(fl.next_dir().unwrap(), vec![b"x".to_vec()]);
    fl.add_listing(&vec![child("x1", 1, false)]);
    assert!(fl.next_dir().is_none());
    // Each directory is followed by its contents, whatever the reading order.
    assert_eq!(labels(&fl.snapshot(false)), vec!["x/", "x/x1", "y/", "y/y1"]);
}

#[test]
fn reset_forgets_entries_and_restarts_at_root() {
    let mut fl = FileList::new("r");
    walk(&mut fl, &tree);
    fl.reset();
    assert!(fl.snapshot(false).is_empty());
    assert!(fl.next_dir().unwrap().is_empty());
    assert_eq!(fl.root(), "r");
}

#[test]
fn unsorted_snapshot_keeps_listing_order() {
    let mut fl = FileList::new("r");
    fl.next_dir().unwrap();
    fl.add_listing(&vec![child("z", 1, false), child("a", 2, false)]);
    assert_eq!(labels(&fl.snapshot(false)), vec!["z", "a"]);
    assert_eq!(labels(&fl.snapshot(true)), vec!["a", "z"]);
}

#[test]
fn listing_without_awaited_directory_changes_nothing() {
    let mut fl = FileList::new("r");
    fl.add_listing(&vec![child("a", 1, false)]);
    assert!(fl.snapshot(false).is_empty());
    fl.next_dir().unwrap();
    fl.add_listing(&vec![child("a", 1, false)]);
    fl.add_listing(&vec![child("b", 1, false)]);
    assert_eq!(labels(&fl.snapshot(true)), vec!["a"]);
    assert!(fl.next_dir().is_none());
}

#[test]
fn unsorted_walk_is_depth_first() {
    let mut fl = FileList::new("r");
    fl.next_dir().unwrap();
    fl.add_listing(&vec![child("s", 1, true), child("x", 2, false)]);
    assert_eq!(fl.next_dir().unwrap(), vec![b"s".to_vec()]);
    fl.add_listing(&vec![child("c", 3, false)]);
    assert!(fl.next_dir().is_none());
    assert_eq!(labels(&fl.snapshot(false)), vec!["s/", "s/c", "x"]);
}

#[test]
fn unsorted_nested_walk_keeps_listing_order_of_siblings() {
    let mut fl = FileList::new("r");
    walk(&mut fl, &tree);
    assert_eq!(
        labels(&fl.snapshot(false)),
        vec!["b.txt", "sub/", "sub/deep/", "sub/deep/d.txt", "sub/c.txt", "a.txt"]
    );
}
