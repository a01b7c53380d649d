use rtk::gain::coverage::{
    category_order, count_routed, coverage, route_of, totals, Route, Totals, Usage,
};
use rtk::gain::export::{csv_table, Period, PeriodStats};
use rtk::gain::failures::{failures_page, is_short_time, FailedCommand, Failure};
use rtk::gain::pages::{
    cache_section, command_section, coverage_section, graph_section, history_section,
    is_clippable, is_graph_date, overview_section, quota_section, routing_section, title_section,
    CommandRow, GraphDay, Overview, Percent, RecentCommand, SavingsCell,
};
use rtk::gain::{
    choose_report, command_registry, lookup_category, monthly_quota, shorten_components,
    shorten_path,
    truncate_for_column, Periods, Report,
};
use rtk::style::{render, Paint, Span};

fn plain(spans: Vec<Span>) -> String {
    render(&spans, false)
}

fn percent(value: f64) -> Percent {
    Percent {
        text: format!("{:.1}%", value),
        floor: value.floor() as i64,
    }
}

fn usage(command: &str, count: usize, saved: usize) -> Usage {
    Usage {
        command: command.to_string(),
        count,
        saved,
    }
}

fn sample() -> Vec<Usage> {
    vec![
        usage("rtk git status", 10, 5000),
        usage("rtk cargo test", 5, 10000),
        usage("rtk find", 20, 3000),
    ]
}

#[test]
fn test_command_registry_categories_valid() {
    let valid_cats = [
        "Git & VCS",
        "Build & Compile",
        "Test",
        "Languages",
        "Package Managers",
        "Files & Search",
        "Analysis & Debug",
        "Infrastructure",
        "Meta Commands",
    ];
    for (cmd, cat) in command_registry() {
        assert!(
            valid_cats.contains(&cat),
            "Command '{}' has unknown category '{}'",
            cmd,
            cat
        );
    }
    assert_eq!(category_order(), valid_cats);
}

#[test]
fn test_command_registry_no_duplicates() {
    let mut seen = std::collections::HashSet::new();
    for (cmd, _) in command_registry() {
        assert!(seen.insert(cmd), "Duplicate command in registry: '{}'", cmd);
    }
    assert_eq!(seen.len(), 49);
}

#[test]
fn test_print_command_coverage_empty() {
    // Should not panic with empty data
    let stats = coverage(&vec![]).unwrap();
    let sums = totals(&stats).unwrap();
    assert_eq!((sums.used, sums.available), (0, 49));
    let cells: Vec<SavingsCell> = stats
        .iter()
        .map(|_| SavingsCell {
            saved: "0".to_string(),
            savings: percent(0.0),
        })
        .collect();
    let all = SavingsCell {
        saved: "0".to_string(),
        savings: percent(0.0),
    };
    let shown = plain(coverage_section(&stats, &cells, &sums, &all));
    assert!(shown.starts_with("Command Coverage (0 / 49 commands used)\n"));
    assert!(shown.contains("  Git & VCS                 0 / 3      0         0      —   git, gh, gt\n"));
    assert!(shown.contains("  Total                0 / 49 used      0         0  0.0%  \n"));
}

#[test]
fn test_print_command_coverage_with_data() {
    // Should not panic with sample data
    let stats = coverage(&sample()).unwrap();
    let sums = totals(&stats).unwrap();
    assert_eq!((sums.used, sums.count, sums.saved), (3, 35, 18000));
    let cells: Vec<SavingsCell> = stats
        .iter()
        .map(|s| SavingsCell {
            saved: format!("{}", s.saved),
            savings: percent(75.0),
        })
        .collect();
    let all = SavingsCell {
        saved: "18000".to_string(),
        savings: percent(78.5),
    };
    let shown = plain(coverage_section(&stats, &cells, &sums, &all));
    let rule = "\u{2500}".repeat(72);
    let lines: Vec<&str> = shown.lines().collect();
    assert_eq!(lines[0], "Command Coverage (3 / 49 commands used)");
    assert_eq!(lines[1], rule);
    assert_eq!(
        lines[2],
        "  Category             Used/Avail  Count     Saved   Avg%   Unused"
    );
    assert_eq!(
        lines[4],
        "  Build & Compile           1 / 6      5     10000  75.0%   tsc, next, 3..."
    );
    assert_eq!(
        lines[5],
        "  Git & VCS                 1 / 3     10      5000  75.0%   gh, gt"
    );
    assert_eq!(
        lines[6],
        "  Files & Search            1 / 7     20      3000  75.0%   ls, tree, 4..."
    );
    assert_eq!(
        lines[7],
        "  Test                      0 / 4      0         0      —   test, vitest, 2..."
    );
    assert_eq!(lines[13], rule);
    assert_eq!(
        lines[14],
        "  Total                3 / 49 used     35     18000  78.5%  ██████████"
    );
    assert_eq!(lines[15], "");
    assert_eq!(
        lines[16],
        "  Tip: Run 'rtk discover --all' to find missed savings opportunities"
    );
    assert_eq!(lines[17], rule);
    assert!(shown.ends_with("\n\n"));
}

#[test]
fn rows_belong_to_their_categories() {
    let stats = coverage(&sample()).unwrap();
    assert_eq!(stats[0].rows, vec![0]);
    assert_eq!(stats[1].rows, vec![1]);
    assert_eq!(stats[5].rows, vec![2]);
    assert_eq!(stats[5].unused, vec!["ls", "tree", "read", "grep", "diff", "wc"]);
    assert!(stats[2].rows.is_empty());
    for s in &stats {
        assert_eq!(s.used + s.unused.len(), s.available);
    }
}

#[test]
fn sums_of_a_category_may_not_fit() {
    let rows = vec![usage("rtk git a", usize::MAX, 0), usage("rtk gh b", 1, 0)];
    assert!(coverage(&rows).is_none());
    let rows = vec![usage("rtk git a", usize::MAX, 0), usage("rtk cargo b", 1, 0)];
    let stats = coverage(&rows).unwrap();
    assert!(totals(&stats).is_none());
    let rows = vec![usage("rtk git a", usize::MAX, 0), usage("rtk nothing b", 1, 0)];
    assert!(totals(&coverage(&rows).unwrap()).is_some());
}

#[test]
fn a_category_with_all_commands_used() {
    let rows = vec![
        usage("rtk git", 1, 1),
        usage("rtk gh", 1, 1),
        usage("rtk gt", 1, 1),
    ];
    let stats = coverage(&rows).unwrap();
    assert!(stats[0].unused.is_empty());
    let cells: Vec<SavingsCell> = stats
        .iter()
        .map(|_| SavingsCell {
            saved: "3".to_string(),
            savings: percent(39.9),
        })
        .collect();
    let sums = Totals {
        used: 3,
        available: 49,
        count: 3,
        saved: 3,
    };
    let spans = coverage_section(&stats, &cells, &sums, &cells[0]);
    assert!(spans
        .iter()
        .any(|s| s.paint == Paint::Low && s.text.iter().collect::<String>() == "39.9%"));
    assert!(plain(spans).contains("  Git & VCS                 3 / 3      3         3  39.9%   —\n"));
}

#[test]
fn categories_of_commands() {
    assert_eq!(lookup_category("rtk git status"), "Git & VCS");
    assert_eq!(lookup_category("rtk   vitest"), "Test");
    assert_eq!(lookup_category("rtk proxy x"), "Meta Commands");
    assert_eq!(lookup_category("rtk unknown"), "Other");
    assert_eq!(lookup_category("git"), "Other");
    assert_eq!(lookup_category(""), "Other");
}

#[test]
fn columns_have_their_width() {
    assert_eq!(truncate_for_column("abc", 5), "abc  ");
    assert_eq!(truncate_for_column("abcdef", 5), "ab...");
    assert_eq!(truncate_for_column("abcdef", 3), "abc");
    assert_eq!(truncate_for_column("abcdef", 0), "");
    assert_eq!(truncate_for_column("\u{e9}\u{e9}\u{e9}\u{e9}\u{e9}", 4), "\u{e9}...");
    for width in 0..12 {
        assert_eq!(truncate_for_column("hello world", width).chars().count(), width);
    }
}

#[test]
fn long_paths_are_shortened() {
    assert_eq!(shorten_path("/home/user/project"), "/home/user/project");
    assert_eq!(shorten_path("/home/user/dev/project"), "/.../dev/project");
    assert_eq!(shorten_path("a/b/c/d/e"), "a/.../d/e");
    assert_eq!(shorten_path("/a//b/./c/d/"), "/.../c/d");
    assert_eq!(shorten_path("./a/b/c/d"), "./.../c/d");
    assert_eq!(shorten_path(""), "");
    for path in [
        "/", "//", "/a/b/c/d", "a/./b/../c/d", "./a", ".", "..", "/./a/b/c/d/", "x/y/z/./",
        "a//b//c//d//e", "/home/user/./dev/project/..",
    ] {
        let parts: Vec<String> = std::path::Path::new(path)
            .components()
            .map(|c| c.as_os_str().to_string_lossy().to_string())
            .collect();
        let n = parts.len();
        let expected = if n <= 4 {
            path.to_string()
        } else if parts[0] == "/" {
            format!("/.../{}/{}", parts[n - 2], parts[n - 1])
        } else {
            format!("{}/.../{}/{}", parts[0], parts[n - 2], parts[n - 1])
        };
        assert_eq!(shorten_path(path), expected);
    }
}

#[test]
fn paths_are_shortened_by_their_components() {
    let of = |parts: &[&str]| -> Vec<String> { parts.iter().map(|p| p.to_string()).collect() };
    assert_eq!(
        shorten_components("C:\\a\\b\\c\\d", &of(&["C:", "\\", "a", "b", "c", "d"])),
        "C:/.../c/d"
    );
    assert_eq!(shorten_components("/a/b/c/d", &of(&["/", "a", "b", "c", "d"])), "/.../c/d");
    assert_eq!(shorten_components("x", &of(&["", "a", "b", "c", "d"])), "/.../c/d");
    assert_eq!(shorten_components("whole", &of(&["a", "b", "c", "d"])), "whole");
}

fn periods(daily: bool, weekly: bool, monthly: bool) -> Periods {
    Periods {
        daily,
        weekly,
        monthly,
    }
}

#[test]
fn options_choose_the_report() {
    assert_eq!(choose_report(true, "json", false, false, false, true), Report::Failures);
    assert_eq!(
        choose_report(false, "json", true, false, false, false),
        Report::Json(periods(true, false, false))
    );
    assert_eq!(
        choose_report(false, "csv", false, false, false, false),
        Report::Csv(periods(false, false, false))
    );
    assert_eq!(choose_report(false, "text", false, false, false, false), Report::Summary);
    assert_eq!(
        choose_report(false, "", false, true, false, false),
        Report::Tables(periods(false, true, false))
    );
    assert_eq!(
        choose_report(false, "", false, false, false, true),
        Report::Tables(periods(true, true, true))
    );
}

#[test]
fn quotas() {
    assert_eq!(monthly_quota("pro"), (6_000_000, "Pro ($20/mo)"));
    assert_eq!(monthly_quota("5x"), (30_000_000, "Max 5x ($100/mo)"));
    assert_eq!(monthly_quota("20x"), (120_000_000, "Max 20x ($200/mo)"));
    assert_eq!(monthly_quota("other"), (6_000_000, "Pro ($20/mo)"));
    assert_eq!(
        plain(quota_section("Pro ($20/mo)", "6.0M", "1.2K", "0.0%")),
        format!(
            "Monthly Quota Analysis\n{}\nSubscription tier: Pro ($20/mo)\nEstimated monthly quota: 6.0M\nTokens saved (lifetime): 1.2K\nQuota preserved:   0.0%\n\nNote: Heuristic estimate based on ~44K tokens/5h (Pro baseline)\n      Actual limits use rolling 5-hour windows, not monthly caps.\n",
            "\u{2500}".repeat(58)
        )
    );
}

#[test]
fn titles() {
    let rule = "\u{2550}".repeat(60);
    assert_eq!(
        plain(title_section(None)),
        format!("RTK Token Savings (Global Scope)\n{}\n\n", rule)
    );
    assert_eq!(
        plain(title_section(Some("/a/b/c/d/e"))),
        format!("RTK Token Savings (Project Scope)\n{}\nScope: /.../d/e\n\n", rule)
    );
}

#[test]
fn overview() {
    let o = Overview {
        total_commands: 12,
        input_tokens: "10.0K".to_string(),
        output_tokens: "2.0K".to_string(),
        saved_tokens: "8.0K".to_string(),
        savings: percent(80.0),
        meter: 19,
        total_time: "1.0s".to_string(),
        average_time: "83ms".to_string(),
    };
    let spans = overview_section(&o);
    assert!(spans.iter().any(|s| s.paint == Paint::High));
    assert!(spans.iter().any(|s| s.paint == Paint::Meter));
    assert_eq!(
        plain(spans),
        format!(
            "Total commands:    12\nInput tokens:      10.0K\nOutput tokens:     2.0K\nTokens saved:      8.0K (80.0%)\nTotal exec time:   1.0s (avg 83ms)\nEfficiency meter: {}{} 80.0%\n\n",
            "█".repeat(19),
            "░".repeat(5)
        )
    );
}

fn row(command: &str, saved: usize, bar: usize) -> CommandRow {
    CommandRow {
        command: command.to_string(),
        count: 3,
        saved,
        saved_text: format!("{}", saved),
        savings: percent(45.5),
        time: "12ms".to_string(),
        bar,
    }
}

#[test]
fn table_of_commands() {
    assert_eq!(plain(command_section(&vec![])), "");
    let rows = vec![
        row("rtk git status", 1234567, 10),
        row("rtk a very long command that is cut", 5, 0),
    ];
    let rule = "\u{2500}".repeat(73 + 5 + 7 + 6);
    let expected = [
        "By Command (top 10)",
        &rule,
        "  #  Command                   Category          Count    Saved    Avg%    Time  Impact    ",
        &rule,
        " 1.  rtk git status            Git & VCS             3  1234567   45.5%    12ms  ██████████",
        " 2.  rtk a very long comma...  Other                 3        5   45.5%    12ms  ░░░░░░░░░░",
        &rule,
        "",
        "",
    ]
    .join("\n");
    assert_eq!(plain(command_section(&rows)), expected);
}

#[test]
fn there_are_no_bars_where_nothing_was_saved() {
    let shown = plain(command_section(&vec![row("rtk git x", 0, 0)]));
    assert!(shown.contains("    12ms  \n"));
}

#[test]
fn cache_performance() {
    assert_eq!(plain(cache_section(0, "x", "y")), "");
    let rule = "\u{2500}".repeat(56);
    assert_eq!(
        plain(cache_section(3, "1.5K", "12.5%")),
        format!(
            "Cache Performance\n{}\nCache hits:        3\nTokens avoided:    1.5K\nHit rate:          12.5%\n{}\n\n",
            rule, rule
        )
    );
}

#[test]
fn routes_of_commands() {
    assert_eq!(route_of("rtk git"), Route::Dedicated);
    assert_eq!(route_of("rtk proxy x"), Route::Proxy);
    assert_eq!(route_of("rtk what"), Route::Other);
    assert_eq!(route_of("rtk"), Route::Other);
    let rows = vec![
        usage("rtk git a", 2, 0),
        usage("rtk proxy b", 3, 0),
        usage("x", 4, 0),
        usage("rtk cargo c", 5, 0),
    ];
    assert_eq!(count_routed(&rows, Route::Dedicated), Some(7));
    assert_eq!(count_routed(&rows, Route::Proxy), Some(3));
    assert_eq!(count_routed(&rows, Route::Other), Some(4));
    assert_eq!(7 + 3 + 4, rows.iter().map(|r| r.count).sum::<usize>());
    let rows = vec![usage("a", usize::MAX, 0), usage("b", 1, 0)];
    assert_eq!(count_routed(&rows, Route::Other), None);
    assert_eq!(count_routed(&rows, Route::Proxy), Some(0));
}

#[test]
fn routing_breakdown() {
    let rule = "\u{2500}".repeat(56);
    assert_eq!(
        plain(routing_section(7, 3, 0, 0)),
        format!(
            "Routing Breakdown\n{}\n  Dedicated filters:       7 commands  (specialized output)\n  Proxy auto-filter:       3 commands  (ANSI/dedup/truncate)\n{}\n\n",
            rule, rule
        )
    );
    let shown = plain(routing_section(7, 3, 4, 5));
    assert!(shown.contains("  Cache hits:              5 commands  (repeated output skipped)\n"));
    assert!(shown.contains("  Other:                   4 commands\n"));
}

#[test]
fn graph_of_days() {
    assert_eq!(plain(graph_section(&vec![])), "");
    let days = vec![
        GraphDay {
            date: "2024-01-31".to_string(),
            saved: "1.0K".to_string(),
            bar: 40,
        },
        GraphDay {
            date: "today".to_string(),
            saved: "0".to_string(),
            bar: 0,
        },
    ];
    assert_eq!(
        plain(graph_section(&days)),
        format!(
            "Daily Savings (last 30 days)\n{}\n01-31 │{} 1.0K\ntoday │{} 0\n\n",
            "\u{2500}".repeat(58),
            "█".repeat(40),
            " ".repeat(40)
        )
    );
    assert!(is_graph_date("2024-01-31"));
    assert!(is_graph_date("short"));
    assert!(!is_graph_date("2024\u{e9}-01-31"));
}

#[test]
fn recent_commands() {
    let recent = |command: &str, floor: i64| RecentCommand {
        time: "01-31 12:00".to_string(),
        command: command.to_string(),
        savings: "42".to_string(),
        floor,
        saved: "1.0K".to_string(),
    };
    assert_eq!(plain(history_section(&vec![])), "");
    let list = vec![
        recent("rtk git status", 70),
        recent("rtk a command of some length", 30),
        recent("x", 29),
    ];
    assert_eq!(
        plain(history_section(&list)),
        format!(
            "Recent Commands\n{}\n01-31 12:00 ▲ rtk git status            -42% (1.0K)\n01-31 12:00 ■ rtk a command of some ... -42% (1.0K)\n01-31 12:00 • x                         -42% (1.0K)\n\n",
            "\u{2500}".repeat(58)
        )
    );
    assert!(is_clippable("short", 25, 22));
    assert!(is_clippable(&"a".repeat(30), 25, 22));
    assert!(!is_clippable(&format!("{}\u{e9}aaaaaa", "a".repeat(21)), 25, 22));
}

#[test]
fn page_of_failures() {
    assert_eq!(
        plain(failures_page(0, "0.0%", &vec![], &vec![])),
        "No parse failures recorded.\nThis means all commands parsed successfully (or fallback hasn't triggered yet).\n"
    );
    let top = vec![FailedCommand {
        command: "c".repeat(51),
        count: 12,
    }];
    let recent = vec![
        Failure {
            timestamp: "2024-01-31T12:00:59Z".to_string(),
            raw_command: "r".repeat(41),
            fallback_succeeded: true,
        },
        Failure {
            timestamp: "now".to_string(),
            raw_command: "r".repeat(40),
            fallback_succeeded: false,
        },
    ];
    let rule = "\u{2500}".repeat(60);
    assert_eq!(
        plain(failures_page(13, "50.0%", &top, &recent)),
        format!(
            "RTK Parse Failures\n{}\n\nTotal failures:    13\nRecovery rate:     50.0%\n\nTop Commands (by frequency)\n{}\n    12x  {}...\n\nRecent Failures (last 10)\n{}\n  2024-01-31T12:00 [ok] {}...\n  now [FAIL] {}\n\n",
            "\u{2550}".repeat(60),
            rule,
            "c".repeat(47),
            rule,
            "r".repeat(37),
            "r".repeat(40)
        )
    );
    assert!(is_short_time("2024-01-31T12:00:59Z"));
    assert!(!is_short_time("2024-01-31T12:0\u{e9}:59Z"));
}

#[test]
fn exported_tables() {
    let stats = |labels: Vec<&str>| PeriodStats {
        labels: labels.iter().map(|l| l.to_string()).collect(),
        commands: 1,
        input_tokens: 2,
        output_tokens: 3,
        saved_tokens: 4,
        savings_pct: "66.67".to_string(),
        total_time_ms: 5,
        avg_time_ms: 6,
    };
    assert_eq!(
        csv_table(Period::Daily, &vec![stats(vec!["2024-01-31"])]),
        "# Daily Data\ndate,commands,input_tokens,output_tokens,saved_tokens,savings_pct,total_time_ms,avg_time_ms\n2024-01-31,1,2,3,4,66.67,5,6\n\n"
    );
    assert_eq!(
        csv_table(Period::Weekly, &vec![stats(vec!["a", "b"]), stats(vec!["c", "d"])]),
        "# Weekly Data\nweek_start,week_end,commands,input_tokens,output_tokens,saved_tokens,savings_pct,total_time_ms,avg_time_ms\na,b,1,2,3,4,66.67,5,6\nc,d,1,2,3,4,66.67,5,6\n\n"
    );
    assert_eq!(
        csv_table(Period::Monthly, &vec![]),
        "# Monthly Data\nmonth,commands,input_tokens,output_tokens,saved_tokens,savings_pct,total_time_ms,avg_time_ms\n"
    );
}
