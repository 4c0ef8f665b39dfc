//! Polling watcher for a directory tree.
//!
//! A snapshot lists every entry under a root with its path relative to the
//! root, its modification time and whether it is a directory. `file_list`
//! builds snapshots one directory listing at a time, `file_monitor` compares
//! two snapshots into change events in path order and holds the decisions of
//! the poll loop, and `entry` holds the entries and the order on paths.

pub mod args;
pub mod entry;
pub mod file_monitor;
pub mod file_list;
