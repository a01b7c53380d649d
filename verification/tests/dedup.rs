use rtk::dedup::{
    dedup_classified, dedup_identical, dedup_output, estimate_savings, match_noise,
};

#[test]
fn test_dedup_cargo_compiling() {
    let input = "   Compiling serde v1.0.0
   Compiling serde_json v1.0.0
   Compiling clap v4.0.0
   Compiling anyhow v1.0.0
   Compiling regex v1.0.0
    Finished dev [unoptimized + debuginfo] target(s) in 5.0s";
    let output = dedup_output(input);
    assert!(output.contains("Compiling serde v1.0.0"));
    assert!(output.contains("4 similar lines omitted"));
    assert!(output.contains("Finished"));
}

#[test]
fn test_dedup_npm_warnings() {
    let input = "npm warn deprecated foo@1.0.0
npm warn deprecated bar@2.0.0
npm warn deprecated baz@3.0.0
npm warn deprecated qux@4.0.0
added 200 packages in 3s";
    let output = dedup_output(input);
    assert!(output.contains("npm warn deprecated foo"));
    assert!(output.contains("3 similar lines omitted"));
    assert!(output.contains("added 200 packages"));
}

#[test]
fn test_dedup_pip_satisfied() {
    let input = "Requirement already satisfied: requests in /usr/lib
Requirement already satisfied: urllib3 in /usr/lib
Requirement already satisfied: certifi in /usr/lib
Requirement already satisfied: charset-normalizer in /usr/lib
Successfully installed new-package-1.0";
    let output = dedup_output(input);
    assert!(output.contains("Requirement already satisfied: requests"));
    assert!(output.contains("3 similar lines omitted"));
    assert!(output.contains("Successfully installed"));
}

#[test]
fn test_dedup_few_lines_preserved() {
    let input = "   Compiling serde v1.0.0
   Compiling clap v4.0.0
    Finished dev target(s) in 2.0s";
    let output = dedup_output(input);
    // Only 2 compile lines — below threshold, keep them
    assert!(output.contains("serde"));
    assert!(output.contains("clap"));
    assert!(!output.contains("omitted"));
}

#[test]
fn test_dedup_identical() {
    let input = "Processing...
Processing...
Processing...
Done!";
    let output = dedup_identical(input);
    assert!(output.contains("Processing... (x3)"));
    assert!(output.contains("Done!"));
    assert_eq!(output.lines().count(), 2);
}

#[test]
fn test_dedup_mixed_content() {
    let input = "Building project...
   Compiling a v1.0
   Compiling b v1.0
   Compiling c v1.0
   Compiling d v1.0
error[E0308]: mismatched types
  --> src/main.rs:10:5";
    let output = dedup_output(input);
    assert!(output.contains("Building project"));
    assert!(output.contains("3 similar lines omitted"));
    assert!(output.contains("error[E0308]"));
}

#[test]
fn test_estimate_savings() {
    let input = "   Compiling a v1.0
   Compiling b v1.0
   Compiling c v1.0
Real output here
Another real line";
    let (total, noise) = estimate_savings(input);
    let pct = noise as f64 / total as f64 * 100.0;
    assert_eq!(total, 5);
    assert_eq!(noise, 3);
    assert!((pct - 60.0).abs() < 0.1);
}

#[test]
fn noise_is_caught_by_the_first_expression() {
    assert_eq!(match_noise("# github.com/a/b"), Some(0));
    assert_eq!(match_noise("   Compiling serde v1.0.0"), Some(1));
    assert_eq!(match_noise("npm warn deprecated"), Some(4));
    assert_eq!(match_noise("npm WARN deprecated"), Some(5));
    assert_eq!(match_noise("Collecting requests"), Some(8));
    assert_eq!(match_noise("warning[E0001]"), Some(10));
    assert_eq!(match_noise("[=====>    ] 45%"), None);
    assert_eq!(match_noise("[=====>] 45%"), Some(11));
    assert_eq!(match_noise("✓ 42 modules transformed"), Some(12));
    assert_eq!(match_noise(" ✓ 42 modules transformed"), Some(13));
    assert_eq!(match_noise("[vite] optimized deps"), Some(14));
    assert_eq!(match_noise("cache hit"), Some(16));
    assert_eq!(match_noise("Generating code"), Some(20));
    assert_eq!(match_noise("error: something broke"), None);
    assert_eq!(match_noise(""), None);
}

#[test]
fn three_neighbours_of_one_class_collapse() {
    let text = "a\nb\nc\nd\ne";
    let noise = vec![Some(3), Some(3), Some(3), None, Some(3)];
    assert_eq!(
        dedup_classified(text, &noise),
        "a\n  ... (2 similar lines omitted)\nd\ne"
    );
    let mixed = vec![Some(3), Some(3), Some(4), Some(4), Some(3)];
    assert_eq!(dedup_classified(text, &mixed), text);
    assert_eq!(dedup_classified(text, &vec![None; 5]), text);
    assert_eq!(
        dedup_classified(text, &vec![Some(0); 5]),
        "a\n  ... (4 similar lines omitted)"
    );
}

#[test]
fn lines_without_noise_stay() {
    let text = "one\ntwo\nthree";
    assert_eq!(dedup_output(text), text);
    assert_eq!(dedup_output(""), "");
}

#[test]
fn only_neighbours_are_squeezed() {
    assert_eq!(dedup_identical("a\na\nb\na"), "a (x2)\nb\na");
    assert_eq!(dedup_identical("a\nb\nc\n"), "a\nb\nc");
    assert_eq!(dedup_identical(""), "");
    assert_eq!(dedup_identical("\n\n\n"), " (x3)");
}

#[test]
fn savings_of_nothing() {
    assert_eq!(estimate_savings(""), (0, 0));
    assert_eq!(estimate_savings("plain"), (1, 0));
}

#[test]
fn a_second_pass_changes_nothing() {
    for text in [
        "",
        "\n",
        "plain\ntext",
        "   Compiling a v1\n   Compiling b v1\n   Compiling c v1\n   Compiling d v1\ndone\n",
        "Collecting a\nCollecting b\nCollecting c\n\nCollecting d\nCollecting e\nCollecting f",
    ] {
        let once = dedup_output(text);
        assert_eq!(dedup_output(&once), once);
        assert!(once.lines().count() <= text.lines().count());
    }
    assert_eq!(match_noise("  ... (4 similar lines omitted)"), None);
    // An empty last line is lost in the second pass.
    assert_eq!(dedup_output("a\n\n"), "a\n");
    assert_eq!(dedup_output("a\n"), "a");
}
