use std::collections::hash_map::DefaultHasher;
use std::hash::{Hash, Hasher};

use rtk::watch_cmd::{cmd_key, compute_diff, watch_report, watch_run};

#[test]
fn test_compute_diff_all_new() {
    let prev = "test_a ... ok\ntest_b ... ok\n";
    let current = "test_a ... ok\ntest_b ... ok\ntest_c ... ok\n";
    let diff = compute_diff(prev, current);
    assert!(diff.contains("New (1)"));
    assert!(diff.contains("test_c"));
    assert!(!diff.contains("Resolved"));
}

#[test]
fn test_compute_diff_resolved() {
    let prev = "test_a ... FAILED\ntest_b ... ok\n";
    let current = "test_a ... ok\ntest_b ... ok\n";
    let diff = compute_diff(prev, current);
    assert!(diff.contains("Resolved (1)"));
    assert!(diff.contains("FAILED"));
    assert!(diff.contains("New (1)"));
}

#[test]
fn test_compute_diff_identical() {
    let prev = "test_a ... ok\ntest_b ... ok\n";
    let current = "test_a ... ok\ntest_b ... ok\n";
    let diff = compute_diff(prev, current);
    assert!(diff.contains("no changes"), "got: {}", diff);
}

#[test]
fn test_cmd_key_deterministic() {
    let a = cmd_key("cargo test");
    let b = cmd_key("cargo test");
    let c = cmd_key("go test ./...");
    assert_eq!(a, b);
    assert_ne!(a, c);
}

#[test]
fn test_cmd_key_filesystem_safe() {
    let key = cmd_key("cargo test -- --nocapture");
    assert!(key.chars().all(|c| c.is_ascii_hexdigit()));
    assert_eq!(key.len(), 16);
}

#[test]
fn test_compute_diff_many_changes() {
    let prev = (1..=50)
        .map(|i| format!("old_line_{}", i))
        .collect::<Vec<_>>()
        .join("\n");
    let current = (1..=50)
        .map(|i| format!("new_line_{}", i))
        .collect::<Vec<_>>()
        .join("\n");
    let diff = compute_diff(&prev, &current);
    // Should truncate at 20 removed, 30 added
    assert!(diff.contains("... (30 more)"));
    assert!(diff.contains("... (20 more)"));
}

#[test]
fn blank_lines_are_no_change() {
    assert_eq!(compute_diff("a\n\n", "a\n  \n\t\n"), "(no changes from last run)");
    assert_eq!(compute_diff("a\nb", "b\na\na"), "(no changes from last run)");
}

#[test]
fn sections_hold_their_lines() {
    assert_eq!(
        compute_diff("a\nb", "b\nc\nc"),
        "--- Resolved (1) ---\n  a\n--- New (2) ---\n  c\n  c"
    );
    assert_eq!(compute_diff("", "x"), "--- New (1) ---\n  x");
}

#[test]
fn reports_of_watched_runs() {
    assert_eq!(watch_report(None, "all of it\n", 0), "all of it\n");
    assert_eq!(
        watch_report(Some("same"), "same", 2),
        "(no changes from last run, exit code 2)"
    );
    assert_eq!(
        watch_report(Some("same"), "same", -1),
        "(no changes from last run, exit code -1)"
    );
    assert_eq!(
        watch_report(Some("same"), "same", i32::MIN),
        "(no changes from last run, exit code -2147483648)"
    );
    assert_eq!(
        watch_report(Some("old"), "new", 0),
        "--- Resolved (1) ---\n  old\n--- New (1) ---\n  new"
    );
}

#[test]
fn watch_keys_are_those_of_the_default_hasher() {
    let mut hasher = DefaultHasher::new();
    "cargo test".hash(&mut hasher);
    assert_eq!(cmd_key("cargo test"), format!("{:016x}", hasher.finish()));
}

#[test]
fn watched_runs_follow_each_other() {
    let first = watch_run(None, "  out\n", "err\n", Some(0));
    assert_eq!(first.saved, "  out\nerr\n");
    assert_eq!(first.report, "  out\nerr\n");
    assert_eq!(first.shown, "out\nerr");
    assert_eq!(first.exit, None);

    let second = watch_run(Some(&first.saved), "  out\n", "err\n", Some(3));
    assert_eq!(second.saved, first.saved);
    assert_eq!(second.shown, "(no changes from last run, exit code 3)");
    assert_eq!(second.exit, Some(3));

    let third = watch_run(Some(&second.saved), "  out\n", "", None);
    assert_eq!(third.saved, "  out\n");
    assert_eq!(third.shown, "--- Resolved (1) ---\n  err");
    assert_eq!(third.exit, Some(1));
}
