use rtk::discover::report::{RtkHandling, RtkStatus};
use rtk::discover::summary::{
    consumer_handling, effective_index, output_estimates, summarize, with_argument, Bypass,
    Classification, ExtractedCommand, Part, Scan,
};

fn supported(equivalent: &'static str, status: RtkStatus) -> Classification {
    Classification::Supported {
        rtk_equivalent: equivalent,
        category: "Category",
        estimated_savings_pct_bits: 80.0f64.to_bits(),
        status,
    }
}

fn unsupported(base: &str) -> Classification {
    Classification::Unsupported {
        base_command: base.to_string(),
    }
}

fn part(text: &str, classification: Classification) -> Part {
    Part {
        text: text.to_string(),
        classification,
        average_tokens: 100,
        bypass: None,
        handling: RtkHandling::Filtered,
    }
}

fn ignored(text: &str) -> Part {
    part(text, Classification::Ignored)
}

fn chain(parts: Vec<Part>, output_len: Option<usize>) -> ExtractedCommand {
    ExtractedCommand { parts, output_len }
}

fn git() -> Classification {
    supported("rtk git", RtkStatus::Existing)
}

const SCAN: Scan = Scan {
    sessions_scanned: 3,
    since_days: 7,
    parse_errors: 1,
};

#[test]
fn test_effective_idx_single_command() {
    let parts = vec![part("git status", git())];
    assert_eq!(effective_index(&parts), Some(0));
}

#[test]
fn test_effective_idx_chain_with_cd_prefix() {
    let parts = vec![
        ignored("cd /some/dir"),
        part("npm run build", supported("rtk npm", RtkStatus::Existing)),
    ];
    assert_eq!(effective_index(&parts), Some(1));
}

#[test]
fn test_effective_idx_all_ignored() {
    let parts = vec![ignored("cd /tmp"), ignored("echo hello"), ignored("pwd")];
    assert_eq!(effective_index(&parts), None);
}

#[test]
fn test_effective_idx_env_chain() {
    // PATH=... is a pure assignment (Ignored), npm run build is Supported
    let parts = vec![
        ignored(r#"PATH="/c/Program Files/nodejs:$PATH""#),
        part("npm run build", supported("rtk npm", RtkStatus::Existing)),
    ];
    assert_eq!(effective_index(&parts), Some(1));
}

#[test]
fn test_effective_idx_last_non_ignored() {
    // Multiple supported commands — picks LAST one (rposition)
    let parts = vec![
        part("git status", git()),
        part("cargo test", supported("rtk cargo", RtkStatus::Existing)),
    ];
    assert_eq!(effective_index(&parts), Some(1));
}

#[test]
fn trailing_ignored_parts_do_not_count() {
    let parts = vec![part("htop", unsupported("htop")), ignored("cd x")];
    assert_eq!(effective_index(&parts), Some(0));
    assert_eq!(effective_index(&vec![]), None);
}

#[test]
fn output_belongs_to_the_effective_part() {
    let parts = vec![part("git status", git()), part("git log", git()), ignored("cd x")];
    assert_eq!(output_estimates(&chain(parts, Some(803))), vec![100, 200, 100]);
    let parts = vec![part("git log", git())];
    assert_eq!(output_estimates(&chain(parts, Some(803))), vec![200]);
    let parts = vec![part("git log", git())];
    assert_eq!(output_estimates(&chain(parts, None)), vec![100]);
}

#[test]
fn handling_tries_an_argument() {
    let plain = unsupported("find");
    assert_eq!(
        consumer_handling(&plain, &supported("rtk find", RtkStatus::Existing)),
        RtkHandling::Filtered
    );
    assert_eq!(
        consumer_handling(&supported("x", RtkStatus::Passthrough), &git()),
        RtkHandling::Passthrough
    );
    assert_eq!(
        consumer_handling(&supported("x", RtkStatus::NotSupported), &git()),
        RtkHandling::Unhandled
    );
    assert_eq!(
        consumer_handling(&Classification::Ignored, &unsupported("x")),
        RtkHandling::Unhandled
    );
    assert_eq!(with_argument("find"), "find .");
}

#[test]
fn summary_of_a_history() {
    let bypassed = |command: &str, classification: Classification| Part {
        text: format!("RTK_DISABLED=1 {}", command),
        classification: Classification::Ignored,
        average_tokens: 0,
        bypass: Some(Bypass {
            command: command.to_string(),
            classification,
        }),
        handling: RtkHandling::Unhandled,
    };
    let commands = vec![
        chain(
            vec![
                ignored("cd dir"),
                part("git status -s", git()),
                part("git status", git()),
            ],
            Some(40),
        ),
        chain(vec![part("git log", git())], Some(80)),
        chain(
            vec![part("cargo fmt", supported("rtk cargo", RtkStatus::Passthrough))],
            None,
        ),
        chain(vec![part("htop -d 1", unsupported("htop"))], Some(400)),
        chain(vec![part("vim a", unsupported("vim"))], None),
        chain(vec![part("htop", unsupported("htop"))], None),
        chain(vec![ignored("rtk git status")], Some(12)),
        chain(
            vec![
                bypassed("git diff x", git()),
                bypassed("git add x", git()),
                bypassed("git add y", git()),
                bypassed("htop", unsupported("htop")),
            ],
            None,
        ),
    ];
    let savings = vec![
        vec![0, 10, 20],
        vec![5],
        vec![50],
        vec![7],
        vec![7],
        vec![7],
        vec![7],
        vec![0, 0, 0, 0],
    ];
    let report = summarize(SCAN, &commands, &savings).unwrap();
    assert_eq!(report.sessions_scanned, 3);
    assert_eq!(report.since_days, 7);
    assert_eq!(report.parse_errors, 1);
    assert_eq!(report.total_commands, 13);
    assert_eq!(report.already_rtk, 1);
    assert_eq!(report.rtk_disabled_count, 3);
    assert_eq!(
        report.rtk_disabled_examples,
        vec!["git add (2x)", "git diff (1x)"]
    );

    assert_eq!(report.supported.len(), 2);
    let cargo = &report.supported[0];
    assert_eq!(cargo.rtk_equivalent, "rtk cargo");
    assert_eq!(cargo.command, "cargo fmt");
    assert_eq!(cargo.rtk_status, RtkStatus::Passthrough);
    assert_eq!(cargo.estimated_savings_tokens, 50);
    let git = &report.supported[1];
    assert_eq!(git.command, "git status");
    assert_eq!(git.count, 3);
    assert_eq!(git.estimated_savings_tokens, 35);
    assert_eq!(git.category, "Category");
    assert_eq!(git.estimated_savings_pct_bits, 80.0f64.to_bits());

    assert_eq!(report.unsupported.len(), 2);
    assert_eq!(report.unsupported[0].base_command, "htop");
    assert_eq!(report.unsupported[0].count, 2);
    assert_eq!(report.unsupported[0].example, "htop -d 1");
    assert_eq!(report.unsupported[1].base_command, "vim");

    let first = &report.consumers[0];
    assert_eq!(first.command, "htop -d");
    assert_eq!(first.total_tokens, 100);
    assert_eq!(first.avg_tokens, 100);
    let log = report.consumers.iter().find(|c| c.command == "git log");
    assert_eq!(log.unwrap().total_tokens, 20);
    let status = report.consumers.iter().find(|c| c.command == "git status");
    assert_eq!(status.unwrap().count, 2);
    assert_eq!(status.unwrap().total_tokens, 10);
    assert_eq!(status.unwrap().avg_tokens, 5);

    // Every part is counted once.
    let missed: usize = report.supported.iter().map(|s| s.count).sum();
    let unhandled: usize = report.unsupported.iter().map(|s| s.count).sum();
    assert_eq!(missed, 4);
    assert_eq!(unhandled, 3);
    assert!(
        missed + unhandled + report.already_rtk + report.rtk_disabled_count
            <= report.total_commands
    );
}

#[test]
fn tables_of_a_summary_are_sorted_and_cut() {
    let mut commands = Vec::new();
    let mut savings = Vec::new();
    for i in 0..20usize {
        commands.push(chain(
            vec![part(&format!("tool{} x", i), unsupported(&format!("tool{}", i)))],
            Some(40 * (i % 7)),
        ));
        savings.push(vec![0]);
    }
    let report = summarize(SCAN, &commands, &savings).unwrap();
    assert_eq!(report.consumers.len(), 15);
    assert_eq!(report.consumers[0].command, "tool6 x");
    assert_eq!(report.consumers[1].command, "tool13 x");
    for pair in report.consumers.windows(2) {
        assert!(pair[0].total_tokens >= pair[1].total_tokens);
    }
    assert_eq!(report.unsupported.len(), 20);
    assert_eq!(report.unsupported[0].base_command, "tool0");
}

#[test]
fn names_differ_by_status() {
    let commands = vec![
        chain(vec![part("cargo x", supported("rtk cargo", RtkStatus::Existing))], None),
        chain(vec![part("cargo x", supported("rtk cargo", RtkStatus::Passthrough))], None),
        chain(vec![part("cargo x", supported("rtk cargo", RtkStatus::Passthrough))], None),
        chain(vec![part("cargo y", supported("rtk cargo", RtkStatus::Existing))], None),
    ];
    let savings = vec![vec![1]; 4];
    let report = summarize(SCAN, &commands, &savings).unwrap();
    assert_eq!(report.supported.len(), 1);
    assert_eq!(report.supported[0].command, "cargo x");
    assert_eq!(report.supported[0].rtk_status, RtkStatus::Passthrough);
    assert_eq!(report.supported[0].count, 4);
}

#[test]
fn sums_that_do_not_fit_give_no_report() {
    let twice = || {
        vec![
            chain(vec![part("git log", git())], Some(usize::MAX)),
            chain(vec![part("git log", git())], Some(1)),
        ]
    };
    assert!(summarize(SCAN, &twice(), &vec![vec![0], vec![0]]).is_none());
    let small = || {
        vec![
            chain(vec![part("git log", git())], Some(1)),
            chain(vec![part("git log", git())], Some(1)),
        ]
    };
    assert!(summarize(SCAN, &small(), &vec![vec![usize::MAX], vec![1]]).is_none());
    assert!(summarize(SCAN, &small(), &vec![vec![usize::MAX], vec![0]]).is_some());
}

#[test]
fn empty_history() {
    let report = summarize(SCAN, &vec![], &vec![]).unwrap();
    assert_eq!(report.total_commands, 0);
    assert!(report.supported.is_empty());
    assert!(report.unsupported.is_empty());
    assert!(report.consumers.is_empty());
    assert!(report.rtk_disabled_examples.is_empty());
}

#[test]
fn equally_frequent_bypasses_come_in_order() {
    let bypassed = |command: &str| Part {
        text: command.to_string(),
        classification: Classification::Ignored,
        average_tokens: 0,
        bypass: Some(Bypass {
            command: command.to_string(),
            classification: git(),
        }),
        handling: RtkHandling::Unhandled,
    };
    let names = ["g z", "g b", "g f", "g a", "g c", "g e", "g z"];
    let parts: Vec<Part> = names.iter().map(|n| bypassed(n)).collect();
    let savings = vec![vec![0; parts.len()]];
    let report = summarize(SCAN, &vec![chain(parts, None)], &savings).unwrap();
    assert_eq!(
        report.rtk_disabled_examples,
        vec!["g z (2x)", "g a (1x)", "g b (1x)", "g c (1x)", "g e (1x)"]
    );
}
