use rtk::read::{diet_markdown, format_with_line_numbers};

#[test]
fn test_stdin_support_signature() {
    // The view of what is read from the standard input takes text and gives text.
    let view: fn(&str) -> String = format_with_line_numbers;
    assert_eq!(view("line"), "1 │ line\n");
}

#[test]
fn test_diet_strips_code_blocks() {
    let input = "# Title\nSome text\n```bash\ngit status\ngit log\n```\nMore text";
    let output = diet_markdown(input);
    assert!(output.contains("# Title"));
    assert!(output.contains("Some text"));
    assert!(output.contains("(code example omitted)"));
    assert!(!output.contains("git status"));
    assert!(output.contains("More text"));
}

#[test]
fn test_diet_collapses_tables() {
    let input = "| Col1 | Col2 |\n|------|------|\n| a | b |\n| c | d |\n| e | f |\nAfter";
    let output = diet_markdown(input);
    assert!(output.contains("| Col1 | Col2 |"));
    assert!(output.contains("rows omitted"));
    assert!(!output.contains("| a | b |"));
    assert!(output.contains("After"));
}

#[test]
fn test_diet_strips_checklists() {
    let input = "# Steps\n- [ ] Do thing\n- [x] Done thing\n- Normal bullet";
    let output = diet_markdown(input);
    assert!(output.contains("# Steps"));
    assert!(!output.contains("Do thing"));
    assert!(!output.contains("Done thing"));
    assert!(output.contains("Normal bullet"));
}

#[test]
fn test_diet_strips_html_comments() {
    let input = "Before\n<!-- rtk-instructions v2 -->\nAfter\n<!-- start\nmultiline\n-->\nEnd";
    let output = diet_markdown(input);
    assert!(output.contains("Before"));
    assert!(output.contains("After"));
    assert!(!output.contains("rtk-instructions"));
    assert!(!output.contains("multiline"));
    assert!(output.contains("End"));
}

#[test]
fn test_diet_collapses_blank_lines() {
    let input = "Line 1\n\n\n\n\nLine 2";
    let output = diet_markdown(input);
    assert_eq!(output, "Line 1\n\nLine 2");
}

#[test]
fn test_diet_preserves_headings_and_bullets() {
    let input = "# H1\n## H2\n- bullet\n1. numbered\n**bold** text";
    let output = diet_markdown(input);
    assert_eq!(output, input);
}

#[test]
fn test_diet_real_claude_md_reduction() {
    // A typical file of instructions with examples and tables
    let input = r#"# Project
## Commands
```bash
cargo build
cargo test
```
## Table
| Command | Savings |
|---------|---------|
| git log | 80% |
| cargo test | 90% |
| pnpm list | 70% |
## Checklist
- [ ] Run tests
- [ ] Check lint
- [x] Build
## Rules
- Always use rtk prefix
- Never skip tests"#;
    let output = diet_markdown(input);
    let input_tokens: usize = input.split_whitespace().count();
    let output_tokens: usize = output.split_whitespace().count();
    let savings = 100.0 - (output_tokens as f64 / input_tokens as f64 * 100.0);
    assert!(
        savings >= 30.0,
        "Expected >=30% savings, got {:.1}%",
        savings
    );
}

#[test]
fn diet_drops_decorative_lines() {
    assert_eq!(diet_markdown("a\n===\n---\n~~~\n= = =\nb"), "a\nb");
    assert_eq!(diet_markdown("--\n==\n~~"), "--\n==\n~~");
    assert_eq!(diet_markdown("- - -\n-=-"), "-=-");
}

#[test]
fn diet_counts_the_rows_of_a_table() {
    assert_eq!(
        diet_markdown("| a |\n|---|\n| 1 |\n| 2 |\n| 3 |\nend"),
        "| a |\n|---|\n  (3 rows omitted)\nend"
    );
    assert_eq!(diet_markdown("| a |\n|---|\nend"), "| a |\n|---|\nend");
    assert_eq!(
        diet_markdown("| a |\n|---|\n| 1 |\n\n| b |\n|---|\n| 2 |"),
        "| a |\n|---|\n  (1 rows omitted)\n\n| b |\n|---|\n  (1 rows omitted)"
    );
}

#[test]
fn diet_does_not_look_into_code() {
    assert_eq!(
        diet_markdown("```\n<!-- not a comment\n```\nafter"),
        "  (code example omitted)\nafter"
    );
    assert_eq!(diet_markdown("```\nopen"), "  (code example omitted)");
}

#[test]
fn diet_leaves_no_two_empty_lines_in_a_row() {
    let shown = diet_markdown("a\n\n- [ ] x\n\n- [X] y\n\n<!-- c -->\n\nb\n\n");
    assert_eq!(shown, "a\n\nb\n");
}

#[test]
fn diet_keeps_a_blank_line_after_what_stands_for_something_omitted() {
    assert_eq!(
        diet_markdown("A\n\n```\nx\n```\n\nB"),
        "A\n\n  (code example omitted)\n\nB"
    );
    assert_eq!(diet_markdown("A\n\n| h |\n\nB"), "A\n\n| h |\n\nB");
    assert_eq!(
        diet_markdown("A\n\n| h |\n|---|\n| 1 |\n\nB"),
        "A\n\n| h |\n|---|\n  (1 rows omitted)\n\nB"
    );
}

#[test]
fn diet_cuts_comments_from_their_lines() {
    assert_eq!(diet_markdown("# Title <!-- note -->"), "# Title ");
    assert_eq!(diet_markdown("a <!-- x --> b <!-- y --> c"), "a  b  c");
    assert_eq!(diet_markdown("a <!-- x\ny\nz --> b\nc"), "a \n b\nc");
    assert_eq!(diet_markdown("a <!-- x"), "a ");
    assert_eq!(diet_markdown("<!-- x --> <!-- y -->\na"), "a");
    assert_eq!(diet_markdown("a\n<!-->\nb"), "a\nb");
    assert_eq!(diet_markdown("--> a"), "--> a");
    assert_eq!(diet_markdown("<!-- x --> - [ ] task\n<!-- y --> ---\na"), "a");
}

#[test]
fn diet_cuts_comments_from_tables_and_fences() {
    assert_eq!(
        diet_markdown("| h | <!-- x -->\n|---|\n| 1 |\n| 2 | <!-- y\nz -->\n| 3 |\nend"),
        "| h | \n|---|\n  (2 rows omitted)\n| 3 |\nend"
    );
    assert_eq!(
        diet_markdown("<!-- x -->```\ncode\n```\nend"),
        "  (code example omitted)\nend"
    );
}

#[test]
fn diet_keeps_the_header_of_each_table() {
    assert_eq!(
        diet_markdown("| a |\n|---|\n```\nx\n```\n| b |\n|---|\n| 1 |"),
        "| a |\n|---|\n  (code example omitted)\n| b |\n|---|\n  (1 rows omitted)"
    );
    assert_eq!(
        diet_markdown("| a |\n|---|\n---\n| b |\n|---|\n| 1 |"),
        "| a |\n|---|\n| b |\n|---|\n  (1 rows omitted)"
    );
    assert_eq!(
        diet_markdown("| a |\n|---|\n<!-- x -->\n| b |\n|---|\n| 1 |"),
        "| a |\n|---|\n| b |\n|---|\n  (1 rows omitted)"
    );
}

#[test]
fn diet_counts_on_over_removed_lines() {
    assert_eq!(
        diet_markdown("|a|\n|-|\n<!--x-->\n|1|\n|2|"),
        "|a|\n|-|\n  (2 rows omitted)"
    );
    assert_eq!(
        diet_markdown("|a|\n===\n|-|\n~~~\n|1|\n|2|\nend"),
        "|a|\n|-|\n  (2 rows omitted)\nend"
    );
    assert_eq!(
        diet_markdown("|a|\n|-|\n```\nx\n```\n|1|\nend"),
        "|a|\n|-|\n  (code example omitted)\n  (1 rows omitted)\nend"
    );
    assert_eq!(
        diet_markdown("|a|\n|-|\n<!-- x\ny\n-->\n|b|\n| :-: |\n|1|"),
        "|a|\n|-|\n|b|\n| :-: |\n  (1 rows omitted)"
    );
    assert_eq!(
        diet_markdown("|a|\n|-|\n|1|\n<!--x-->\n|2|\n|3|"),
        "|a|\n|-|\n  (1 rows omitted)\n|2|\n|3|"
    );
    assert_eq!(
        diet_markdown("|a|\n|-|\n- [ ] x\n|1|\n|2|"),
        "|a|\n|-|\n|1|\n|2|"
    );
}

#[test]
fn diet_ends_a_code_block_on_the_line_it_began() {
    assert_eq!(
        diet_markdown("```cargo build```\n# Title"),
        "  (code example omitted)\n# Title"
    );
    assert_eq!(
        diet_markdown("````\ncode\n````\n# Title"),
        "  (code example omitted)\n# Title"
    );
}

#[test]
fn diet_keeps_bullets_with_links() {
    assert_eq!(diet_markdown("- [x](url)\n- [X][ref]\n- [x]"), "- [x](url)\n- [X][ref]");
}

#[test]
fn diet_of_substance_changes_nothing() {
    let text = "# A\ntext [link](x)\n1. one\n* two\n> quote";
    assert_eq!(diet_markdown(text), text);
    assert_eq!(diet_markdown(""), "");
}

#[test]
fn line_numbers_are_right_aligned() {
    let text: Vec<String> = (1..=10).map(|i| format!("l{}", i)).collect();
    let shown = format_with_line_numbers(&text.join("\n"));
    assert!(shown.starts_with(" 1 │ l1\n 2 │ l2\n"));
    assert!(shown.ends_with("10 │ l10\n"));
    assert_eq!(format_with_line_numbers(""), "");
    assert_eq!(format_with_line_numbers("a\r\n\nb"), "1 │ a\n2 │ \n3 │ b\n");
}
