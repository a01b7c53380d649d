use rtk::discover::{consumer_base, extract_subcmd, truncate_command};

#[test]
fn test_consumer_base_empty() {
    assert_eq!(consumer_base(""), "");
}

#[test]
fn test_consumer_base_single_word() {
    assert_eq!(consumer_base("htop"), "htop");
}

#[test]
fn test_consumer_base_two_words() {
    assert_eq!(consumer_base("git status"), "git status");
}

#[test]
fn test_consumer_base_three_words_truncated() {
    assert_eq!(consumer_base("go test ./..."), "go test");
}

#[test]
fn test_consumer_base_python_m_module() {
    assert_eq!(consumer_base("python -m pytest foo"), "python -m pytest");
    assert_eq!(consumer_base("python3 -m mypy src/"), "python3 -m mypy");
}

#[test]
fn test_consumer_base_python_m_short() {
    // Only 2 words: "python -m" — not enough for 3-word form, falls to default
    assert_eq!(consumer_base("python -m"), "python -m");
}

#[test]
fn test_consumer_base_pnpm_filter_skip() {
    assert_eq!(consumer_base("pnpm --filter @app/web build"), "pnpm build");
    assert_eq!(consumer_base("pnpm -F @app/api test"), "pnpm test");
}

#[test]
fn test_consumer_base_pnpm_recursive_skip() {
    assert_eq!(consumer_base("pnpm -r build"), "pnpm build");
    assert_eq!(consumer_base("pnpm --recursive build"), "pnpm build");
    assert_eq!(consumer_base("pnpm -w install"), "pnpm install");
    assert_eq!(
        consumer_base("pnpm --workspace-root install"),
        "pnpm install"
    );
}

#[test]
fn test_consumer_base_pnpm_filter_combined() {
    // --filter=value form
    assert_eq!(consumer_base("pnpm --filter=@app/web build"), "pnpm build");
}

#[test]
fn test_consumer_base_pnpm_only_flags() {
    // All flags, no subcommand — falls back to "pnpm"
    assert_eq!(consumer_base("pnpm -r"), "pnpm");
}

#[test]
fn test_consumer_base_arg_commands() {
    // cat/head/tail etc. group by command name only
    assert_eq!(consumer_base("cat foo.txt"), "cat");
    assert_eq!(consumer_base("head -20 file.rs"), "head");
    assert_eq!(consumer_base("wc -l src/main.rs"), "wc");
    assert_eq!(consumer_base("sort output.txt"), "sort");
}

#[test]
fn test_consumer_base_flag_commands() {
    // grep/find/ls keep first flag if present
    assert_eq!(consumer_base("grep -n pattern"), "grep -n");
    assert_eq!(consumer_base("find . -name"), "find");
    assert_eq!(consumer_base("ls -la"), "ls -la");
    // No flag — just command name
    assert_eq!(consumer_base("grep pattern"), "grep");
    assert_eq!(consumer_base("ls src/"), "ls");
}

#[test]
fn pnpm_flag_without_its_argument() {
    assert_eq!(consumer_base("pnpm --filter"), "pnpm --filter");
    assert_eq!(consumer_base("pnpm -F"), "pnpm");
    assert_eq!(consumer_base("pnpm -Fweb -r -w dev"), "pnpm dev");
    assert_eq!(consumer_base("pnpm"), "pnpm");
}

#[test]
fn single_flag_commands() {
    assert_eq!(consumer_base("grep"), "grep");
    assert_eq!(consumer_base("  ls   -a  x "), "ls -a");
    assert_eq!(consumer_base("xargs rm"), "xargs");
    assert_eq!(consumer_base("python3 script.py -m x"), "python3 script.py");
}

#[test]
fn subcommands() {
    assert_eq!(extract_subcmd("git status -s"), "status");
    assert_eq!(extract_subcmd("  git\tstatus"), "status");
    assert_eq!(extract_subcmd("git"), "");
    assert_eq!(extract_subcmd(""), "");
    assert_eq!(extract_subcmd("git  status"), "status");
    assert_eq!(extract_subcmd("git \t status  -s"), "status");
}

#[test]
fn display_names() {
    assert_eq!(truncate_command("git status -s"), "git status");
    assert_eq!(truncate_command(" git\tstatus "), "git status");
    assert_eq!(truncate_command("git"), "git");
    assert_eq!(truncate_command("  "), "");
    assert_eq!(truncate_command("git  status"), "git status");
    assert_eq!(truncate_command("a   b   c"), "a b");
}

#[test]
fn every_command_with_words_has_a_base() {
    for cmd in ["x", "pnpm -r", "python -m", "cat", "grep", "a b c"] {
        assert!(!consumer_base(cmd).is_empty());
    }
    assert_eq!(consumer_base(" \t "), "");
}

#[test]
fn the_name_of_a_group_is_in_the_group() {
    for cmd in [
        "",
        "  htop ",
        "git   status -s",
        "python -m  pytest x",
        "pnpm --filter a -r build",
        "pnpm --filter",
        "pnpm -F",
        "cat a b",
        "grep -n x",
        "ls src",
    ] {
        let base = consumer_base(cmd);
        assert_eq!(consumer_base(&base), base);
    }
}
