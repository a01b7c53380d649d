use rtk::hook_rewrite_cmd::{frame_answer, hook_answer, hook_command, needs_rewrite, HookError};

fn parse(text: &str) -> serde_json::Value {
    serde_json::from_str(text).unwrap()
}

#[test]
fn test_rewrite_hook_json_structure() {
    // Verify the JSON response structure matches the hook protocol
    let input = r#"{"tool_input": {"command": "git status", "description": "test"}}"#;
    let shown = hook_answer(input, Some("rtk git status")).unwrap().unwrap();
    let response = parse(&shown);

    let output = response.get("hookSpecificOutput").unwrap();
    assert_eq!(output["hookEventName"], "PreToolUse");
    assert_eq!(output["permissionDecision"], "allow");
    assert_eq!(output["permissionDecisionReason"], "RTK auto-rewrite");
    assert_eq!(output["updatedInput"]["command"], "rtk git status");
    assert_eq!(output["updatedInput"]["description"], "test");
}

#[test]
fn test_rewrite_preserves_other_fields() {
    let input = r#"{
        "tool_input": {
            "command": "git status",
            "description": "Show working tree status",
            "timeout": 30000
        }
    }"#;
    assert_eq!(hook_command(input).unwrap().unwrap(), "git status");
    let shown = hook_answer(input, Some("rtk git status")).unwrap().unwrap();
    let updated = parse(&shown)["hookSpecificOutput"]["updatedInput"].clone();

    // All original fields preserved
    assert_eq!(updated["command"], "rtk git status");
    assert_eq!(updated["description"], "Show working tree status");
    assert_eq!(updated["timeout"], 30000);
    assert_eq!(updated.as_object().unwrap().len(), 3);
}

#[test]
fn test_unsupported_gets_proxy_filter() {
    let input = r#"{"tool_input": {"command": "terraform plan"}}"#;
    let shown = hook_answer(input, Some("rtk proxy -f terraform plan")).unwrap();
    assert_eq!(
        parse(&shown.unwrap())["hookSpecificOutput"]["updatedInput"]["command"],
        "rtk proxy -f terraform plan"
    );
}

#[test]
fn test_no_rewrite_for_already_rtk() {
    let cmd = "rtk git status";
    // Same as input — hook should skip
    assert!(!needs_rewrite(cmd, Some(cmd)));
    let input = r#"{"tool_input": {"command": "rtk git status"}}"#;
    assert_eq!(hook_answer(input, Some(cmd)).unwrap(), None);
}

#[test]
fn rewriting_is_decided_by_the_texts() {
    assert!(needs_rewrite("git status", Some("rtk git status")));
    assert!(!needs_rewrite("git status", None));
    assert!(needs_rewrite("a", Some("")));
}

#[test]
fn exact_answer() {
    let input = r#"{"x": 1, "tool_input": {"z": [1, {"b": "c"}], "command": "ls", "a": null}}"#;
    let shown = hook_answer(input, Some("rtk ls \"q\"")).unwrap().unwrap();
    assert_eq!(
        shown,
        concat_all(&[
            r#"{"hookSpecificOutput":{"hookEventName":"PreToolUse","permissionDecision":"allow","#,
            r#""permissionDecisionReason":"RTK auto-rewrite","updatedInput":"#,
            r#"{"a":null,"command":"rtk ls \"q\"","z":[1,{"b":"c"}]}}}"#,
        ])
    );
    assert_eq!(
        frame_answer("{}"),
        concat_all(&[
            r#"{"hookSpecificOutput":{"hookEventName":"PreToolUse","permissionDecision":"allow","#,
            r#""permissionDecisionReason":"RTK auto-rewrite","updatedInput":{}}}"#,
        ])
    );
}

fn concat_all(parts: &[&str]) -> String {
    parts.concat()
}

#[test]
fn calls_without_a_command_pass() {
    for input in [
        "{}",
        "[]",
        "null",
        r#"{"tool_input": {}}"#,
        r#"{"tool_input": "command"}"#,
        r#"{"tool_input": {"command": 7}}"#,
        r#"[{"command": "ls"}]"#,
    ] {
        assert!(hook_command(input).unwrap().is_none());
        assert_eq!(hook_answer(input, Some("x")).unwrap(), None);
    }
}

#[test]
fn input_that_is_not_json_is_an_error() {
    assert!(matches!(hook_command("not json"), Err(HookError::Parse(_))));
    assert!(matches!(
        hook_answer("{\"a\":", Some("x")),
        Err(HookError::Parse(_))
    ));
}

#[test]
fn strings_of_all_kinds_come_back() {
    let odd = "tab\t quote\" back\\ nul\u{0} snow\u{2603} \u{1f600}";
    let mut object = serde_json::Map::new();
    object.insert("command".to_string(), serde_json::Value::String("ls".to_string()));
    object.insert("odd".to_string(), serde_json::Value::String(odd.to_string()));
    let mut outer = serde_json::Map::new();
    outer.insert("tool_input".to_string(), serde_json::Value::Object(object));
    let input = serde_json::Value::Object(outer).to_string();
    let shown = hook_answer(&input, Some(odd)).unwrap().unwrap();
    let updated = parse(&shown)["hookSpecificOutput"]["updatedInput"].clone();
    assert_eq!(updated["command"], odd);
    assert_eq!(updated["odd"], odd);
}

#[test]
fn fields_of_all_kinds_come_back() {
    let input = r#"{"tool_input": {
        "command": "ls",
        "max": 18446744073709551615,
        "min": -9223372036854775808,
        "yes": true,
        "no": false,
        "nothing": null,
        "list": [1, [], {}, "x", null],
        "object": {"deep": {"er": [7, "y"]}},
        "": "empty"
    }}"#;
    let shown = hook_answer(input, Some("rtk ls")).unwrap().unwrap();
    let before = parse(input)["tool_input"].clone();
    let after = parse(&shown)["hookSpecificOutput"]["updatedInput"].clone();
    for (key, value) in before.as_object().unwrap() {
        if key != "command" {
            assert_eq!(&after[key.as_str()], value);
            assert_eq!(after[key.as_str()].to_string(), value.to_string());
        }
    }
    assert_eq!(after["command"], "rtk ls");
    assert_eq!(after.as_object().unwrap().len(), before.as_object().unwrap().len());
}
