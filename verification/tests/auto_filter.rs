use rtk::auto_filter::{
    filter, filter_light, filter_with_status, limit_lines, strip_classified,
    strip_cr_overwrites, strip_decorative,
};

#[test]
fn test_filter_strips_ansi() {
    let input = "\x1b[32mSuccess\x1b[0m\n\x1b[31mError\x1b[0m";
    let (output, _) = filter(input);
    assert!(output.contains("Success"));
    assert!(output.contains("Error"));
    assert!(!output.contains("\x1b["));
}

#[test]
fn test_filter_dedup_compiling() {
    let mut input = String::new();
    for i in 1..=10 {
        input.push_str(&format!("   Compiling pkg{} v1.0.0\n", i));
    }
    input.push_str("    Finished dev target\n");
    let (output, _) = filter(&input);
    assert!(output.contains("Compiling pkg1"));
    assert!(output.contains("9 similar lines omitted"));
    assert!(output.contains("Finished"));
}

#[test]
fn test_filter_truncates_large_output_keeps_tail() {
    let mut input = String::new();
    for i in 1..=600 {
        input.push_str(&format!("line {}\n", i));
    }
    let (output, truncated) = filter(&input);
    assert!(truncated);
    assert!(output.contains("omitted"));
    assert!(output.contains("line 1")); // head preserved
    assert!(output.contains("line 600")); // tail preserved
    assert!(output.contains("line 580")); // within tail context
}

#[test]
fn test_filter_no_truncate_on_failure() {
    let mut input = String::new();
    for i in 1..=600 {
        input.push_str(&format!("error line {}\n", i));
    }
    let (output, truncated) = filter_with_status(&input, false);
    assert!(!truncated);
    assert!(output.contains("error line 1"));
    assert!(output.contains("error line 600"));
}

#[test]
fn test_filter_small_output_unchanged() {
    let input = "hello\nworld\n";
    let (output, truncated) = filter(input);
    assert!(!truncated);
    assert_eq!(output.trim(), "hello\nworld");
}

#[test]
fn test_filter_light_basic() {
    let input = "ok\nok\nok\ndone";
    let output = filter_light(input);
    assert!(output.contains("ok (x3)"));
    assert!(output.contains("done"));
}

#[test]
fn test_strip_cr_overwrites() {
    let input = "Building...\rBuilding... 50%\rBuilding... 100%\rDone!";
    let result = strip_cr_overwrites(input);
    assert_eq!(result, "Done!");
}

#[test]
fn test_strip_decorative_separators() {
    let input = "Header\n════════════════\nContent\n────────────────\nFooter";
    let result = strip_decorative(input);
    assert_eq!(result, "Header\nContent\nFooter");
}

#[test]
fn test_strip_decorative_preserves_short_dashes() {
    let input = "file-name.rs\n--flag value";
    let result = strip_decorative(input);
    assert!(result.contains("file-name.rs"));
    assert!(result.contains("--flag value"));
}

#[test]
fn test_collapse_blank_lines() {
    let input = "line1\n\n\n\n\nline2\n\nline3";
    let result = strip_decorative(input);
    let blank_count = result.lines().filter(|l| l.trim().is_empty()).count();
    // 4 consecutive blanks between line1/line2 collapse to 2,
    // 1 blank between line2/line3 stays → 3 total blanks
    assert!(
        blank_count <= 3,
        "Expected at most 3 blank lines, got {}",
        blank_count
    );
    // Verify the original 4-blank run was actually reduced
    assert!(blank_count < 5, "Blank lines were not collapsed");
    assert!(result.contains("line1"));
    assert!(result.contains("line2"));
}

#[test]
fn test_filter_build_output_savings() {
    let mut input = String::new();
    for i in 1..=20 {
        input.push_str(&format!("   Compiling pkg{} v1.0.0\n", i));
    }
    input.push_str("\n════════════════════════════════\n");
    input.push_str("✓ 42 modules transformed\n");
    input.push_str("✓ 38 modules transformed\n");
    input.push_str("✓ 15 modules transformed\n");
    input.push_str("\n\n\n\n\n");
    input.push_str("Build complete in 2.3s\n");
    input.push_str("  bundle size: 145 kB\n");

    let (output, _) = filter(&input);

    let input_tokens = input.split_whitespace().count();
    let output_tokens = output.split_whitespace().count();
    let savings = 100.0 - (output_tokens as f64 / input_tokens as f64 * 100.0);

    assert!(
        savings >= 50.0,
        "Expected ≥50% savings on build output, got {:.1}%\nOutput:\n{}",
        savings,
        output
    );
}

#[test]
fn truncated_output_keeps_head_and_tail() {
    let lines: Vec<String> = (1..=501).map(|i| format!("line {}", i)).collect();
    let (shown, omitted) = limit_lines(lines.join("\n"));
    assert!(omitted);
    let head = lines[..470].join("\n");
    let tail = lines[471..].join("\n");
    assert_eq!(
        shown,
        format!(
            "{}\n\n... (1 lines omitted, 501 total)\n\n{}",
            head, tail
        )
    );
    let (shown, omitted) = limit_lines(lines[..500].join("\n"));
    assert!(!omitted);
    assert_eq!(shown, lines[..500].join("\n"));
}

#[test]
fn failed_commands_lose_no_lines() {
    let lines: Vec<String> = (1..=700).map(|i| format!("message {}", i)).collect();
    let (shown, omitted) = filter_with_status(&lines.join("\n"), false);
    assert!(!omitted);
    assert_eq!(shown, lines.join("\n"));
}

#[test]
fn no_carriage_return_is_left() {
    let shown = strip_cr_overwrites("a\rb\r\nc\r\r\nlast\r");
    assert_eq!(shown, "b\n\n");
    assert!(!shown.contains('\r'));
}

#[test]
fn at_most_two_blank_lines_in_a_row() {
    assert_eq!(strip_decorative("a\n\n\n\nb"), "a\n\n\nb");
    assert_eq!(strip_decorative("a\n\n====\n\n\nb"), "a\n\n\nb");
    assert_eq!(strip_decorative("a\n\n\nb\n\n\nc"), "a\n\n\nb\n\n\nc");
}

#[test]
fn marked_lines_are_stripped() {
    let marks = vec![false, true, false, true];
    assert_eq!(strip_classified("a\nb\n\n\t", &marks), "a\n\n\t");
}

#[test]
fn decorations_have_at_least_four_characters() {
    assert_eq!(strip_decorative("===\n----\n* * *\n~~"), "===\n~~");
    assert_eq!(strip_decorative("-- x --"), "-- x --");
}

#[test]
fn light_filter_keeps_noise() {
    let text = "   Compiling a v1\n   Compiling b v1\n   Compiling c v1\n====\n\n\n\n";
    assert_eq!(
        filter_light(text),
        "   Compiling a v1\n   Compiling b v1\n   Compiling c v1\n====\n (x3)"
    );
    assert_eq!(filter_light("\x1b[1mx\x1b[0m\nx"), "x (x2)");
}

#[test]
fn plain_text_passes_the_whole_pipeline() {
    assert_eq!(filter("a\nb\nc"), ("a\nb\nc".to_string(), false));
}
