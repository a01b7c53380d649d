use rtk::bun_cmd::{
    filter_bun_install, filter_bun_pm_ls_json, filter_bun_pm_ls_text, pm_ls_args,
};

fn packages(json: &str) -> Option<Vec<(String, Option<String>)>> {
    let value: serde_json::Value = serde_json::from_str(json).ok()?;
    let list = value
        .as_object()?
        .iter()
        .map(|(name, package)| {
            let version = package.get("version").and_then(|v| v.as_str());
            (name.clone(), version.map(|v| v.to_string()))
        })
        .collect();
    Some(list)
}

fn listing(json: &str) -> Option<String> {
    filter_bun_pm_ls_json(&packages(json)?)
}

#[test]
fn test_filter_bun_install_strips_progress() {
    let output = r#"bun install v1.1.0
[1/5] Resolving packages...
[2/5] Fetching packages...
[3/5] Linking packages...
[4/5] Building fresh packages...
[5/5] Cleaning up...

+ installed express@4.18.2
+ installed lodash@4.17.21
3 packages installed in 1.2s
"#;
    let result = filter_bun_install(output);
    assert!(!result.contains("[1/5]"));
    assert!(!result.contains("bun install v1.1.0"));
    assert!(result.contains("express"));
    assert!(result.contains("3 packages installed"));
}

#[test]
fn test_filter_bun_install_empty_output() {
    let output = "\n\n\n";
    let result = filter_bun_install(output);
    assert_eq!(result, "ok");
}

#[test]
fn test_filter_bun_pm_ls_json() {
    let json = r#"{
            "express": {"version": "4.18.2"},
            "lodash": {"version": "4.17.21"},
            "axios": {"version": "1.6.0"}
        }"#;
    let result = listing(json).unwrap();
    assert!(result.starts_with("3 deps"));
    let lines: Vec<&str> = result.lines().collect();
    assert_eq!(lines[1], "axios@1.6.0");
    assert_eq!(lines[2], "express@4.18.2");
    assert_eq!(lines[3], "lodash@4.17.21");
}

#[test]
fn test_filter_bun_pm_ls_json_empty() {
    let result = listing("{}");
    assert!(result.is_none());
}

#[test]
fn test_filter_bun_install_preserves_errors() {
    let output = r#"bun install v1.1.0
[1/4] Resolving packages...
error: PackageNotFound - "nonexistent-pkg" not found in registry
"#;
    let result = filter_bun_install(output);
    assert!(result.contains("error:"));
    assert!(result.contains("nonexistent-pkg"));
}

#[test]
fn test_filter_bun_pm_ls_json_invalid() {
    let result = listing("not json");
    assert!(result.is_none());
}

#[test]
fn test_filter_bun_pm_ls_text_truncates() {
    let long_output = (0..100)
        .map(|i| format!("pkg-{i}@1.0.0"))
        .collect::<Vec<_>>()
        .join("\n");
    let result = filter_bun_pm_ls_text(&long_output);
    assert!(result.len() <= 520);
}

#[test]
fn packages_without_a_version_are_listed_by_name() {
    let list = vec![
        ("zod".to_string(), None),
        ("axios".to_string(), Some("1.6.0".to_string())),
    ];
    assert_eq!(
        filter_bun_pm_ls_json(&list),
        Some("2 deps\naxios@1.6.0\nzod".to_string())
    );
}

#[test]
fn listing_does_not_depend_on_the_order_of_packages() {
    let mut list = vec![
        ("b".to_string(), Some("2".to_string())),
        ("a".to_string(), Some("10".to_string())),
        ("a".to_string(), None),
        ("B".to_string(), None),
    ];
    let first = filter_bun_pm_ls_json(&list);
    list.reverse();
    assert_eq!(filter_bun_pm_ls_json(&list), first);
    assert_eq!(first, Some("4 deps\nB\na\na@10\nb@2".to_string()));
}

#[test]
fn install_keeps_what_only_looks_like_progress() {
    assert_eq!(filter_bun_install("[1/2/3] Working..."), "[1/2/3] Working...");
    assert_eq!(filter_bun_install("[1/x] Working..."), "[1/x] Working...");
    assert_eq!(filter_bun_install("[1/2] Done"), "[1/2] Done");
    assert_eq!(filter_bun_install("[12] Working..."), "[12] Working...");
    assert_eq!(filter_bun_install("[ 1 / +2 ] Working..."), "ok");
    assert_eq!(
        filter_bun_install("[1/4294967296] Working..."),
        "[1/4294967296] Working..."
    );
    assert_eq!(filter_bun_install("[1/4294967295] Working..."), "ok");
}

#[test]
fn install_header_has_at_most_four_words() {
    assert_eq!(filter_bun_install("bun add v1.1.0 (abc)"), "ok");
    assert_eq!(
        filter_bun_install("bun install v1 is the best"),
        "bun install v1 is the best"
    );
    assert_eq!(filter_bun_install("  + pkg@1  "), "+ pkg@1");
}

#[test]
fn text_listing_is_cut_to_its_limit() {
    assert_eq!(filter_bun_pm_ls_text("\n  \n"), "ok");
    assert_eq!(filter_bun_pm_ls_text("a\n\nb\n"), "a\nb");
    let exact = "x".repeat(500);
    assert_eq!(filter_bun_pm_ls_text(&exact), exact);
    let long = "x".repeat(501);
    let cut = filter_bun_pm_ls_text(&long);
    assert_eq!(cut, format!("{}...", "x".repeat(497)));
}

#[test]
fn json_flag_is_added_once() {
    let none: Vec<String> = Vec::new();
    assert_eq!(pm_ls_args(&none), vec!["pm", "ls", "--json"]);
    let given = vec!["--all".to_string(), "--json".to_string()];
    assert_eq!(pm_ls_args(&given), vec!["pm", "ls", "--all", "--json"]);
}

#[test]
fn a_second_pass_over_an_installation_changes_nothing() {
    for output in ["", "[1/2] Resolving...\n", " a \n\nbun install v1.1.0\n b\rc \r\n\n"] {
        let once = filter_bun_install(output);
        assert_eq!(filter_bun_install(&once), once);
    }
}
