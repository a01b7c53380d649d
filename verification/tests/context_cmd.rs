use rtk::context_cmd::{context_output, separate_reports, shows_anything};

#[test]
fn test_context_output_format() {
    // Verify the output structure has section headers
    let output = context_output(
        "## main...origin/main\n M src/main.rs",
        "",
        None,
        "",
        "abc1234 feat: add context command",
        5,
    );
    assert!(output.contains("=== Status ==="));
    assert!(output.contains("=== Log"));
    assert!(output.contains("abc1234"));
    assert_eq!(
        output,
        [
            "=== Status ===",
            "## main...origin/main",
            " M src/main.rs",
            "",
            "=== Log (last 5) ===",
            "abc1234 feat: add context command",
        ]
        .join("\n")
    );
}

#[test]
fn all_sections() {
    let output = context_output(" s \n", "d\n", Some("changes"), "t", "l", 3);
    assert_eq!(
        output,
        "=== Status ===\ns\n\n=== Diff ===\nd\nchanges\n\n=== Staged ===\nt\n\n=== Log (last 3) ===\nl"
    );
}

#[test]
fn a_clean_repository() {
    assert_eq!(
        context_output("\n", " ", Some("ignored"), "", "", 5),
        "=== Status ===\n(clean)"
    );
    assert_eq!(
        context_output("x", "d", Some(""), "", "", 5),
        "=== Status ===\nx\n\n=== Diff ===\nd"
    );
    assert!(!shows_anything(" \n\t"));
    assert!(shows_anything(" x"));
}

#[test]
fn separate_reports_are_joined() {
    assert_eq!(separate_reports("a", "b", "c"), "a\nb\nc");
}
