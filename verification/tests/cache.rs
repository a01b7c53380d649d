use std::collections::hash_map::DefaultHasher;
use std::hash::{Hash, Hasher};

use rtk::cache::{
    cache_file_name, cache_key, diff_output, get_ttl_minutes, is_enabled, is_expired, should_cache,
    should_cache_lowercase, switches_on,
};

#[test]
fn test_cache_key_deterministic() {
    let k1 = cache_key("cargo build", "/home/user/project");
    let k2 = cache_key("cargo build", "/home/user/project");
    assert_eq!(k1, k2, "Same inputs must produce the same key");
}

#[test]
fn test_cache_key_varies_by_cwd() {
    let k1 = cache_key("cargo build", "/home/user/project-a");
    let k2 = cache_key("cargo build", "/home/user/project-b");
    assert_ne!(k1, k2, "Different cwd must produce different keys");
}

#[test]
fn test_cache_key_varies_by_cmd() {
    let k1 = cache_key("cargo build", "/home/user/project");
    let k2 = cache_key("cargo test", "/home/user/project");
    assert_ne!(k1, k2, "Different commands must produce different keys");
}

#[test]
fn test_should_cache_positive() {
    assert!(should_cache("cargo build"));
    assert!(should_cache("cargo test"));
    assert!(should_cache("npm install"));
    assert!(should_cache("rustc --version"));
}

#[test]
fn test_should_cache_negative() {
    assert!(!should_cache("git status"));
    assert!(!should_cache("git diff"));
    assert!(!should_cache("git log"));
    assert!(!should_cache("git log --oneline -10"));
    assert!(!should_cache("git show abc123"));
    assert!(!should_cache("git stash"));
    assert!(!should_cache("ls"));
    assert!(!should_cache("ls -la"));
    assert!(!should_cache("find . -name foo"));
    assert!(!should_cache("grep pattern file"));
    assert!(!should_cache("ps"));
    assert!(!should_cache("top"));
    assert!(!should_cache("env"));
    assert!(!should_cache("date"));
    assert!(!should_cache("time"));
}

#[test]
fn test_diff_identical() {
    let output = diff_output("line1\nline2\nline3", "line1\nline2\nline3");
    assert_eq!(output, "(no changes)");
}

#[test]
fn test_diff_added_lines() {
    let cached = "line1\nline2";
    let current = "line1\nline2\nline3\nline4";
    let diff = diff_output(cached, current);
    assert!(diff.contains("New: line3"));
    assert!(diff.contains("New: line4"));
    assert!(!diff.contains("Resolved"));
}

#[test]
fn test_diff_removed_lines() {
    let cached = "line1\nline2\nline3";
    let current = "line1";
    let diff = diff_output(cached, current);
    assert!(diff.contains("Resolved: line2"));
    assert!(diff.contains("Resolved: line3"));
    assert!(!diff.contains("New"));
}

#[test]
fn test_diff_mixed_changes() {
    let cached = "error1\nerror2\nwarning1";
    let current = "error2\nwarning1\nnew_error";
    let diff = diff_output(cached, current);
    assert!(diff.contains("Resolved: error1"));
    assert!(diff.contains("New: new_error"));
}

#[test]
fn test_diff_truncates_removed() {
    let cached_lines: Vec<String> = (0..25).map(|i| format!("removed_{}", i)).collect();
    let cached = cached_lines.join("\n");
    let current = "only_this";
    let diff = diff_output(&cached, current);
    assert!(
        diff.contains("... (5 more)"),
        "Should truncate removed lines at 20"
    );
}

#[test]
fn test_diff_truncates_added() {
    let cached = "only_this";
    let added_lines: Vec<String> = (0..35).map(|i| format!("added_{}", i)).collect();
    let current = added_lines.join("\n");
    let diff = diff_output(cached, &current);
    assert!(
        diff.contains("... (5 more)"),
        "Should truncate added lines at 30"
    );
}

#[test]
fn cache_keys_are_those_of_the_default_hasher() {
    let mut hasher = DefaultHasher::new();
    "cargo build".hash(&mut hasher);
    "/home/user".hash(&mut hasher);
    let key = hasher.finish();
    assert_eq!(cache_key("cargo build", "/home/user"), key);
    assert_eq!(
        cache_file_name("cargo build", "/home/user"),
        format!("{}.txt", key)
    );
    assert_ne!(cache_key("ab", "c"), cache_key("a", "bc"));
}

#[test]
fn volatile_commands_are_found_in_any_case() {
    assert!(!should_cache("GIT Status --short"));
    assert!(should_cache_lowercase("GIT Status --short"));
    assert!(!should_cache_lowercase("git status --short"));
    assert!(should_cache("git statusx"));
    assert!(should_cache("lsof"));
    assert!(!should_cache("CAT file"));
    assert!(should_cache(""));
}

#[test]
fn lowercase_is_that_of_unicode() {
    // The Kelvin sign is a capital k.
    assert!(is_enabled(Some("FALSE\u{212a}"), None));
    assert!(!is_enabled(Some("FaLsE"), Some(true)));
}

#[test]
fn difference_cuts_each_list_at_its_limit() {
    let old: Vec<String> = (0..20).map(|i| format!("old{}", i)).collect();
    let shown = diff_output(&old.join("\n"), "");
    assert_eq!(shown.lines().count(), 20);
    assert!(!shown.contains("more"));
    let new: Vec<String> = (0..31).map(|i| format!("new{}", i)).collect();
    let shown = diff_output("", &new.join("\n"));
    assert_eq!(shown.lines().count(), 31);
    assert!(shown.ends_with("New: new29\n... (1 more)"));
}

#[test]
fn same_lines_in_another_order_are_no_difference() {
    assert_eq!(diff_output("a\nb\n", "b\na\na"), "(no changes)");
    assert_eq!(diff_output("", ""), "(no changes)");
}

#[test]
fn lifetimes() {
    assert_eq!(get_ttl_minutes(None, None), 5);
    assert_eq!(get_ttl_minutes(None, Some(9)), 9);
    assert_eq!(get_ttl_minutes(Some("12"), Some(9)), 12);
    assert_eq!(get_ttl_minutes(Some("+12"), Some(9)), 12);
    assert_eq!(get_ttl_minutes(Some("x"), Some(9)), 9);
    assert_eq!(get_ttl_minutes(Some(" 12"), None), 5);
    assert_eq!(get_ttl_minutes(Some(""), None), 5);
    assert_eq!(get_ttl_minutes(Some("18446744073709551615"), None), u64::MAX);
    assert_eq!(get_ttl_minutes(Some("18446744073709551616"), None), 5);
    assert!(!is_expired(300, 5));
    assert!(is_expired(301, 5));
    assert!(is_expired(1, 0));
}

#[test]
fn switches() {
    assert!(is_enabled(None, None));
    assert!(!is_enabled(None, Some(false)));
    assert!(!is_enabled(Some("0"), Some(true)));
    assert!(!is_enabled(Some("False"), None));
    assert!(is_enabled(Some("1"), Some(false)));
    assert!(is_enabled(Some(""), Some(false)));
    assert!(switches_on("no", "no"));
    assert!(!switches_on("FALSE", "false"));
}
