use rtk::discover::report::{
    can_write, format_sections, format_text, format_text_for, format_tokens, pad_left, pad_right,
    truncate_str, DiscoverReport, RtkHandling, RtkStatus, SupportedEntry, TokenConsumer,
    UnsupportedEntry,
};
use rtk::style::Paint;

fn no_style(s: &str) -> String {
    s.to_string()
}

#[test]
fn test_pad_right_shorter_text() {
    let result = pad_right("hello", 10, no_style);
    assert_eq!(result, "hello     ");
    assert_eq!(result.len(), 10);
}

#[test]
fn test_pad_right_exact_width() {
    let result = pad_right("hello", 5, no_style);
    assert_eq!(result, "hello");
}

#[test]
fn test_pad_left_shorter_text() {
    let result = pad_left("42", 5, no_style);
    assert_eq!(result, "   42");
    assert_eq!(result.len(), 5);
}

#[test]
fn test_pad_left_exact_width() {
    let result = pad_left("hello", 5, no_style);
    assert_eq!(result, "hello");
}

#[test]
fn test_pad_right_with_ansi_preserves_visual_width() {
    // Simulate ANSI styling that adds escape codes
    fn fake_ansi(s: &str) -> String {
        format!("\x1b[1;96m{}\x1b[0m", s)
    }
    let result = pad_right("git", 10, fake_ansi);
    // Should have ANSI around "git" then 7 trailing spaces
    assert!(result.starts_with("\x1b[1;96mgit\x1b[0m"));
    assert!(result.ends_with("       "));
    // Visual width: 3 (git) + 7 (spaces) = 10
}

#[test]
fn test_pad_left_with_ansi_preserves_visual_width() {
    fn fake_ansi(s: &str) -> String {
        format!("\x1b[97m{}\x1b[0m", s)
    }
    let result = pad_left("42", 8, fake_ansi);
    // Should have 6 spaces then ANSI "42"
    assert!(result.starts_with("      \x1b[97m42\x1b[0m"));
}

#[test]
fn test_format_text_table_alignment() {
    // Build a minimal report with varied-length data
    let report = DiscoverReport {
        supported: vec![
            SupportedEntry {
                command: "git status".into(),
                count: 42,
                rtk_equivalent: "rtk git",
                category: "Git",
                rtk_status: RtkStatus::Existing,
                estimated_savings_pct_bits: 70.0f64.to_bits(),
                estimated_savings_tokens: 1500,
            },
            SupportedEntry {
                command: "cargo test filter::".into(),
                count: 3,
                rtk_equivalent: "rtk cargo",
                category: "Cargo",
                rtk_status: RtkStatus::Existing,
                estimated_savings_pct_bits: 90.0f64.to_bits(),
                estimated_savings_tokens: 250000,
            },
        ],
        unsupported: vec![],
        consumers: vec![],

        total_commands: 100,
        sessions_scanned: 5,
        already_rtk: 0,
        since_days: 90,
        parse_errors: 0,
        rtk_disabled_count: 0,
        rtk_disabled_examples: vec![],
    };

    // Non-TTY output has no ANSI codes — verify columns align
    let output = format_text(&report, 20, false);
    let lines: Vec<&str> = output.lines().collect();

    // Find header and data rows in MISSED SAVINGS table
    let header_line = lines
        .iter()
        .find(|l| l.contains("Command") && l.contains("Count"))
        .expect("header not found");
    let data_line_1 = lines
        .iter()
        .find(|l| l.contains("git status"))
        .expect("git status row not found");
    let data_line_2 = lines
        .iter()
        .find(|l| l.contains("cargo test"))
        .expect("cargo test row not found");

    // Verify column alignment by checking "RTK Equivalent" column position
    let header_rtk_pos = header_line.find("RTK Equivalent").unwrap();
    let data1_rtk_pos = data_line_1.find("rtk git").unwrap();
    let data2_rtk_pos = data_line_2.find("rtk cargo").unwrap();

    // RTK Equivalent column should start at same position in all rows
    assert_eq!(
        data1_rtk_pos, data2_rtk_pos,
        "RTK Equivalent column misaligned:\n  '{}'\n  '{}'",
        data_line_1, data_line_2
    );
    assert_eq!(
        header_rtk_pos, data1_rtk_pos,
        "Header vs data RTK column misaligned:\n  '{}'\n  '{}'",
        header_line, data_line_1
    );
}

#[test]
fn test_consumers_table_alignment() {
    let report = DiscoverReport {
        supported: vec![],
        // Need at least one unsupported entry to avoid early return
        unsupported: vec![UnsupportedEntry {
            base_command: "dummy".into(),
            count: 1,
            example: "dummy".into(),
        }],

        consumers: vec![
            TokenConsumer {
                command: "git diff".into(),
                count: 99,
                total_tokens: 121600,
                avg_tokens: 1228,
                rtk_handling: RtkHandling::Filtered,
            },
            TokenConsumer {
                command: "cargo test".into(),
                count: 91,
                total_tokens: 59100,
                avg_tokens: 649,
                rtk_handling: RtkHandling::Filtered,
            },
            TokenConsumer {
                command: "grep -n".into(),
                count: 73,
                total_tokens: 5300,
                avg_tokens: 72,
                rtk_handling: RtkHandling::Passthrough,
            },
        ],
        total_commands: 263,
        sessions_scanned: 10,
        already_rtk: 0,
        since_days: 30,
        parse_errors: 0,
        rtk_disabled_count: 0,
        rtk_disabled_examples: vec![],
    };

    let output = format_text(&report, 20, false);
    let lines: Vec<&str> = output.lines().collect();

    // Find header and data lines in TOP TOKEN CONSUMERS
    let header = lines
        .iter()
        .find(|l| l.contains("Command") && l.contains("Total") && l.contains("Avg"))
        .expect("consumers header not found");
    let row1 = lines
        .iter()
        .find(|l| l.contains("git diff"))
        .expect("git diff row not found");
    let row3 = lines
        .iter()
        .find(|l| l.contains("grep -n"))
        .expect("grep row not found");

    // RTK? column should align — Yes/Pass/No all start at same column
    let header_rtk = header.find("RTK?").unwrap();
    let row1_rtk = row1.find("Yes").unwrap();
    let row3_rtk = row3.find("Pass").unwrap();
    assert_eq!(
        row1_rtk, row3_rtk,
        "RTK? column misaligned between rows:\n  '{}'\n  '{}'",
        row1, row3
    );
    assert_eq!(
        header_rtk, row1_rtk,
        "RTK? header vs data misaligned:\n  '{}'\n  '{}'",
        header, row1
    );
}

fn empty_report() -> DiscoverReport {
    DiscoverReport {
        sessions_scanned: 2,
        total_commands: 10,
        already_rtk: 7,
        since_days: 30,
        supported: vec![],
        unsupported: vec![],
        consumers: vec![],
        parse_errors: 3,
        rtk_disabled_count: 4,
        rtk_disabled_examples: vec!["git status (4x)".to_string()],
    }
}

fn full_report() -> DiscoverReport {
    let mut report = empty_report();
    report.supported.push(SupportedEntry {
        command: "git status".to_string(),
        count: 3,
        rtk_equivalent: "rtk git",
        category: "Git",
        estimated_savings_tokens: 1500,
        estimated_savings_pct_bits: 70.0f64.to_bits(),
        rtk_status: RtkStatus::Existing,
    });
    report.unsupported.push(UnsupportedEntry {
        base_command: "htop".to_string(),
        count: 2,
        example: "htop -d 10".to_string(),
    });
    report.consumers.push(TokenConsumer {
        command: "make all".to_string(),
        count: 12,
        total_tokens: 999,
        avg_tokens: 83,
        rtk_handling: RtkHandling::Unhandled,
    });
    report
}

#[test]
fn statuses_have_names() {
    assert_eq!(RtkStatus::Existing.as_str(), "existing");
    assert_eq!(RtkStatus::Passthrough.as_str(), "passthrough");
    assert_eq!(RtkStatus::NotSupported.as_str(), "not-supported");
}

#[test]
fn totals_add_up() {
    let mut report = full_report();
    report.supported.push(SupportedEntry {
        command: "cargo test".to_string(),
        count: 4,
        rtk_equivalent: "rtk cargo",
        category: "Cargo",
        estimated_savings_tokens: 500,
        estimated_savings_pct_bits: 0,
        rtk_status: RtkStatus::Passthrough,
    });
    assert_eq!(report.total_saveable_tokens(), 2000);
    assert_eq!(report.grand_total_tokens(), 2000);
    assert_eq!(report.total_supported_count(), 7);
    assert_eq!(empty_report().total_saveable_tokens(), 0);
}

#[test]
fn tokens_are_those_of_std() {
    let mut values: Vec<usize> = (0..3000).collect();
    for k in 0..64 {
        for d in 0..3 {
            let p = 1usize << k;
            values.push(p.wrapping_add(d).wrapping_sub(1));
            values.push(p.wrapping_mul(3).wrapping_add(d));
        }
    }
    let mut x: usize = 88172645463325252;
    for _ in 0..20000 {
        x ^= x << 13;
        x ^= x >> 7;
        x ^= x << 17;
        values.push(x);
        values.push(x >> 11);
        values.push(x >> 40);
        values.push(x >> 50);
    }
    for k in 0..2000 {
        values.push(1_000_000 + 50_000 * k);
        values.push(1_000 + 50 * k);
        values.push(1_000 + 50 * k + 25);
    }
    for v in values {
        let expected = if v >= 1_000_000 {
            format!("{:.1}M tokens", v as f64 / 1_000_000.0)
        } else if v >= 1_000 {
            format!("{:.1}K tokens", v as f64 / 1_000.0)
        } else {
            format!("{} tokens", v)
        };
        assert_eq!(format_tokens(v), expected);
    }
}

#[test]
fn tokens_by_size() {
    assert_eq!(format_tokens(0), "0 tokens");
    assert_eq!(format_tokens(999), "999 tokens");
    assert_eq!(format_tokens(1000), "1.0K tokens");
    assert_eq!(format_tokens(1250), "1.2K tokens");
    assert_eq!(format_tokens(999_999), "1000.0K tokens");
    assert_eq!(format_tokens(2_500_000), "2.5M tokens");
}

#[test]
fn truncation_never_splits_a_character() {
    assert_eq!(truncate_str("hello", 5), "hello");
    assert_eq!(truncate_str("hello!", 5), "hel..");
    assert_eq!(truncate_str("h\u{e9}llo!", 5), "h\u{e9}..");
    assert_eq!(truncate_str("\u{1f600}\u{1f600}", 4), "\u{1f600}..");
    assert_eq!(truncate_str("abc", 1), "..");
    assert_eq!(truncate_str("", 0), "");
}

#[test]
fn padding_of_long_texts() {
    assert_eq!(pad_right("hello world", 5, no_style), "hello world");
    fn mark(s: &str) -> String {
        format!("<{}>", s)
    }
    assert_eq!(pad_right("hello world", 5, mark), "<hello> world");
    assert_eq!(pad_right("\u{e9}", 3, mark), "<\u{e9}>  ");
    assert_eq!(pad_left("hello world", 5, mark), "<hello world>");
    assert_eq!(pad_left("\u{e9}", 3, mark), " <\u{e9}>");
}

#[test]
fn clean_report() {
    let rule = "=".repeat(52);
    assert_eq!(
        format_text_for(&empty_report(), 10, true, false),
        format!(
            "RTK Discover -- Savings Opportunities\n{}\nScanned: 2 sessions (last 30 days), 10 Bash commands\nAlready using RTK: 7 commands (70%)\n\nNo missed savings found. RTK usage looks good!\n",
            rule
        )
    );
}

#[test]
fn whole_report() {
    let rule = "-".repeat(72);
    let table = "\u{2500}".repeat(4 + 22 + 2 + 5 + 2 + 10 + 2 + 9 + 3 + 4);
    let expected = [
        "RTK Discover -- Savings Opportunities",
        &"=".repeat(52),
        "Scanned: 2 sessions (last 30 days), 10 Bash commands",
        "Already using RTK: 7 commands (70%)",
        "",
        "MISSED SAVINGS -- Commands RTK already handles",
        &rule,
        "Command                  Count    RTK Equivalent     Status        Est. Savings",
        "git status                   3    rtk git            existing      ~ 1.5K tokens",
        &rule,
        "Total: 3 commands -> ~1.5K tokens saveable",
        "",
        "TOTAL SAVEABLE: ~1.5K tokens",
        "",
        "TOP TOKEN CONSUMERS (by output size)",
        &table,
        "  #   Command                Count       Total        Avg   RTK?",
        &table,
        "  1.  make all                  12  999 tokens  83 tokens   No",
        &table,
        "  RTK?=No: not yet filtered. Request support:",
        "  -> github.com/rtk-ai/rtk/issues",
        "",
        "TOP UNHANDLED COMMANDS -- open an issue?",
        &"-".repeat(52),
        "Command                  Count    Example",
        "htop                         2    htop -d 10",
        &"-".repeat(52),
        "Total: 1 unique commands, 2 occurrences",
        "-> github.com/rtk-ai/rtk/issues",
        "",
        "RTK_DISABLED BYPASS -- 4 commands ran without filtering",
        &rule,
        "These commands used RTK_DISABLED=1 unnecessarily:",
        "  git status (4x)",
        "-> Remove RTK_DISABLED=1 to recover token savings",
        "",
        "~estimated from tool_result output sizes",
        "",
        "Parse errors skipped: 3",
        "",
    ]
    .join("\n");
    assert_eq!(format_text_for(&full_report(), 10, true, false), expected);
    let quiet = format_text_for(&full_report(), 10, false, false);
    assert!(quiet.ends_with("output sizes\n"));
}

#[test]
fn tables_are_cut_at_the_limit() {
    let shown = format_text_for(&full_report(), 0, false, false);
    assert!(!shown.contains("htop"));
    assert!(!shown.contains("make all"));
    assert!(!shown.contains("RTK?=No"));
    assert!(shown.contains("Total: 1 unique commands, 2 occurrences"));
}

#[test]
fn paints_of_the_report() {
    let spans = format_sections(&full_report(), 10, false);
    let painted = |text: &str, paint: Paint| {
        spans
            .iter()
            .any(|s| s.paint == paint && s.text.iter().collect::<String>() == text)
    };
    assert!(painted("70%", Paint::High));
    assert!(painted("git status", Paint::Command));
    assert!(painted("1.5K tokens", Paint::Tokens));
    assert!(painted("No", Paint::Low));
    assert!(painted("TOTAL SAVEABLE", Paint::Heading));
}

#[test]
fn reports_that_cannot_be_written() {
    assert!(can_write(&full_report(), 10));
    let mut report = full_report();
    report.already_rtk = usize::MAX;
    assert!(!can_write(&report, 10));
    let mut report = full_report();
    report.supported[0].estimated_savings_tokens = usize::MAX;
    assert!(can_write(&report, 10));
    report.supported.push(SupportedEntry {
        command: String::new(),
        count: 0,
        rtk_equivalent: "x",
        category: "x",
        estimated_savings_tokens: 1,
        estimated_savings_pct_bits: 0,
        rtk_status: RtkStatus::Existing,
    });
    assert!(!can_write(&report, 10));
    let mut report = full_report();
    report.consumers[0].command = format!("{}\u{1f600}aaaa", "a".repeat(19));
    assert!(!can_write(&report, 10));
    assert!(can_write(&report, 0));
    let mut report = full_report();
    report.supported[0].rtk_equivalent = "aaaaaaaaaaaaaaaaa\u{e9}";
    assert!(!can_write(&report, 10));
}

#[test]
fn text_off_a_terminal_is_plain() {
    assert_eq!(
        format_text_for(&full_report(), 5, false, false),
        format_text(&full_report(), 5, false)
    );
}

#[test]
fn commands_of_wide_characters_fit_their_column() {
    for n in 0..30 {
        for wide in ["\u{1f600}", "\u{2603}", "\u{e9}"] {
            let mut report = full_report();
            report.supported[0].command = format!("{}{}", "a".repeat(n), wide.repeat(12));
            report.unsupported[0].base_command = format!("{}{}", "b".repeat(n), wide.repeat(12));
            assert!(can_write(&report, 10));
            let shown = format_text_for(&report, 10, false, false);
            let row = shown.lines().find(|l| l.contains("rtk git")).unwrap();
            let column = row.chars().collect::<Vec<char>>();
            assert_eq!(column[34..41].iter().collect::<String>(), "rtk git");
        }
    }
}
