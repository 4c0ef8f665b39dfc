use inbox_watch::args::{Args, DEFAULT_PATH};

#[test]
fn default_path_is_under_home() {
    assert_eq!(DEFAULT_PATH, "~/inbox");
    assert!(Args { directory: DEFAULT_PATH.to_string() }.uses_home());
}

#[test]
fn tilde_prefix_uses_home_and_others_are_kept() {
    assert!(Args { directory: "~/elsewhere".to_string() }.uses_home());
    assert!(!Args { directory: "/tmp/inbox".to_string() }.uses_home());
    assert!(!Args { directory: "inbox/~".to_string() }.uses_home());
    assert!(!Args { directory: String::new() }.uses_home());
}
