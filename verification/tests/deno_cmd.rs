use rtk::deno_cmd::filter_deno_output;

#[test]
fn test_filter_deno_output_strips_download() {
    let input = r#"Download https://deno.land/std@0.200.0/path/mod.ts
Download https://deno.land/x/oak@v12.6.1/mod.ts
error: Expected ';' at main.ts:5:10
some warning here"#;

    let result = filter_deno_output(input);
    assert!(!result.contains("Download "));
    assert!(result.contains("error: Expected ';' at main.ts:5:10"));
    assert!(result.contains("some warning here"));
}

#[test]
fn test_filter_deno_output_empty() {
    let input = r#"Download https://deno.land/std@0.200.0/path/mod.ts

Download https://deno.land/x/oak@v12.6.1/mod.ts

"#;

    let result = filter_deno_output(input);
    assert_eq!(result, "ok");
}

#[test]
fn test_filter_deno_preserves_check_lines() {
    let input = "Check file:///project/main.ts\n";
    let result = filter_deno_output(input);
    assert!(result.contains("Check"));
}

#[test]
fn test_filter_deno_preserves_errors_strips_downloads() {
    let input = r#"Download https://deno.land/std@0.210.0/path/mod.ts
error: Module not found "https://deno.land/x/nonexistent/mod.ts"
"#;
    let result = filter_deno_output(input);
    assert!(result.contains("error:"));
    assert!(result.contains("Module not found"));
    assert!(!result.contains("Download"));
}

#[test]
fn indented_lines_stay_as_they_are() {
    assert_eq!(
        filter_deno_output("  error here  \n\t\n  Download x\nDownloading"),
        "  error here  \nDownloading"
    );
    assert_eq!(filter_deno_output(""), "ok");
}
