//! The hook that rewrites commands before they run.
//!
//! It reads the description of a tool call as JSON, and answers with the input of the call
//! in which the command is replaced.

use vstd::prelude::*;

use crate::text;
use crate::text::{chars_of, extend_str, string_of};

verus! {

/// The error of `serde_json`.
#[verifier::external_type_specification]
#[verifier::external_body]
pub struct ExJsonError(serde_json::Error);

/// The string at a place of a JSON text, by way of `serde_json::from_str`,
/// `serde_json::Value::pointer` and `serde_json::Value::as_str`: `None` if the text is not
/// JSON, and `Some(None)` if there is no string at that place.
pub uninterp spec fn json_text_at(json: Seq<char>, pointer: Seq<char>) -> Option<Option<Seq<char>>>;

/// What `serde_json::Value` writes for the value at a place of a JSON text, by way of
/// `serde_json::from_str` and `serde_json::Value::pointer`: `None` if the text is not JSON,
/// and `Some(None)` if there is nothing at that place.
pub uninterp spec fn json_value_at(json: Seq<char>, pointer: Seq<char>) -> Option<Option<Seq<char>>>;

/// What `serde_json::Value` writes for the member `object` of a JSON text, after the member
/// `key` of that object has been set to the string `value`.
pub uninterp spec fn json_with_text(
    json: Seq<char>,
    object: Seq<char>,
    key: Seq<char>,
    value: Seq<char>,
) -> Seq<char>;

/// The pointer to the member `key` of the member `object`.
pub open spec fn member_pointer(object: Seq<char>, key: Seq<char>) -> Seq<char> {
    "/"@ + object + "/"@ + key
}

/// `key` stands for itself in a pointer, and for no position in an array.
pub open spec fn is_plain_key(key: Seq<char>) -> bool {
    !key.contains('/') && !key.contains('~') && key.len() > 0 && !('0' <= key[0] <= '9')
}

/// The pointer to the member `key` of the input in an answer of the hook.
pub open spec fn answer_pointer(key: Seq<char>) -> Seq<char> {
    "/hookSpecificOutput/updatedInput/"@ + key
}

/// The pointer `rest` leads neither to the member `key` nor into it.
pub open spec fn leads_elsewhere(rest: Seq<char>, key: Seq<char>) -> bool {
    rest != key && !text::starts_with(rest, key + "/"@)
}

/// A written JSON value with a digit before a point or an exponent. Every number that
/// `serde_json` holds as a float is written like that.
pub open spec fn has_fraction(value: Seq<char>) -> bool {
    exists|i: int, j: int|
        0 <= i && j == i + 1 && j < value.len() && '0' <= #[trigger] value[i] <= '9' && (
        #[trigger] value[j] == '.' || value[j] == 'e' || value[j] == 'E')
}

/// What stood at a place as `before` stands there as `after`: something if and only if there
/// was something, and the same, if it is written without a fraction.
pub open spec fn is_preserved(before: Option<Seq<char>>, after: Option<Seq<char>>) -> bool {
    &&& before is Some <==> after is Some
    &&& before matches Some(value) ==> !has_fraction(value) ==> after == before
}

/// `serde_json::from_str` reads a JSON text, `serde_json::Value::pointer` finds the value at
/// a place of it, `serde_json::Value::as_str` gives that value, if it is a string, and
/// `serde_json::Value::to_string` writes it. What they give is a function of the text and the
/// place.
#[verifier::external_body]
fn value_at(json: &str, pointer: &str) -> (r: Result<
    Option<(Option<String>, String)>,
    serde_json::Error,
>)
    ensures
        r is Err <==> json_text_at(json@, pointer@) is None,
        r is Err <==> json_value_at(json@, pointer@) is None,
        r matches Ok(found) ==> json_text_at(json@, pointer@) == Some(
            match found {
                Some((Some(s), _)) => Some(s@),
                _ => None,
            },
        ),
        r matches Ok(found) ==> json_value_at(json@, pointer@) == Some(
            match found {
                Some((_, written)) => Some(written@),
                None => None,
            },
        ),
{
    let value: serde_json::Value = serde_json::from_str(json)?;
    Ok(value.pointer(pointer).map(|v| (v.as_str().map(|s| s.to_string()), v.to_string())))
}

/// `serde_json::Value` sets the member `key` of the member `object` of a JSON text to a
/// string, and writes that object. What it writes is a function of the four texts.
///
/// Read back inside an answer of the hook, the member is that string. At every other place of
/// the object stands what stood there before: the same string, or the same value as it is
/// written, if that has no fraction. A float may come back with another last digit, so of a
/// value that holds one it is only said that it is there. All that is said only of answers
/// that can be read: the object lies one level deeper in an answer than in the text that it
/// comes from, and `serde_json` reads texts up to some depth.
#[verifier::external_body]
fn with_text(json: &str, object: &str, key: &str, value: &str) -> (r: String)
    requires
        is_plain_key(object@),
        is_plain_key(key@),
        json_text_at(json@, member_pointer(object@, key@)) matches Some(Some(_)),
    ensures
        r@ == json_with_text(json@, object@, key@, value@),
        json_text_at(answer(r@), answer_pointer(key@)) matches Some(t) ==> t == Some(value@),
        forall|rest: Seq<char>|
            leads_elsewhere(rest, key@) ==> ((#[trigger] json_text_at(
                answer(r@),
                answer_pointer(rest),
            )) matches Some(t) ==> json_text_at(json@, member_pointer(object@, rest)) == Some(t)),
        forall|rest: Seq<char>|
            leads_elsewhere(rest, key@) ==> ((#[trigger] json_value_at(
                answer(r@),
                answer_pointer(rest),
            )) matches Some(after) ==> (json_value_at(
                json@,
                member_pointer(object@, rest),
            ) matches Some(before) && is_preserved(before, after))),
{
    let mut parsed: serde_json::Value = serde_json::from_str(json).unwrap();
    parsed[object][key] = serde_json::Value::String(value.to_string());
    parsed[object].to_string()
}

/// Why the hook cannot answer.
#[derive(Debug)]
pub enum HookError {
    /// Its input is not JSON.
    Parse(serde_json::Error),
}

/// Where the command of a tool call stands.
pub open spec fn command_pointer() -> Seq<char> {
    "/tool_input/command"@
}

/// The command of a tool call, if there is one.
pub fn hook_command(input: &str) -> (r: Result<Option<String>, HookError>)
    ensures
        r is Err <==> json_text_at(input@, command_pointer()) is None,
        r matches Ok(found) ==> json_text_at(input@, command_pointer()) == Some(
            match found {
                Some(s) => Some(s@),
                None => None,
            },
        ),
{
    match value_at(input, "/tool_input/command") {
        Ok(Some((found, _))) => Ok(found),
        Ok(None) => Ok(None),
        Err(e) => Err(HookError::Parse(e)),
    }
}

/// A command is replaced if there is something else to replace it with.
pub open spec fn is_rewrite(cmd: Seq<char>, rewritten: Option<&str>) -> bool {
    rewritten matches Some(r) && r@ != cmd
}

/// Decides whether a command is replaced.
pub fn needs_rewrite(cmd: &str, rewritten: Option<&str>) -> (r: bool)
    ensures
        r == is_rewrite(cmd@, rewritten),
        r <==> rewritten is Some && rewritten->0@ != cmd@,
{
    match rewritten {
        Some(r) => !text::same(&chars_of(r), &chars_of(cmd)),
        None => false,
    }
}

/// The answer of the hook that allows a tool call with the input `updated_input`.
pub open spec fn answer(updated_input: Seq<char>) -> Seq<char> {
    "{\"hookSpecificOutput\":{\"hookEventName\":\"PreToolUse\",\"permissionDecision\":\"allow\",\"permissionDecisionReason\":\"RTK auto-rewrite\",\"updatedInput\":"@
        + updated_input + "}}"@
}

/// Writes the answer of the hook around the JSON text of the input.
pub fn frame_answer(updated_input: &str) -> (r: String)
    ensures
        r@ == answer(updated_input@),
{
    let mut out = chars_of(
        "{\"hookSpecificOutput\":{\"hookEventName\":\"PreToolUse\",\"permissionDecision\":\"allow\",\"permissionDecisionReason\":\"RTK auto-rewrite\",\"updatedInput\":",
    );
    extend_str(&mut out, updated_input);
    extend_str(&mut out, "}}");
    string_of(&out)
}

/// What the hook prints for a tool call whose command the rules rewrite to `rewritten`, if
/// they do: nothing, where there is no command or nothing to replace it with.
///
/// The answer carries the new command, and every other field of the input as it was.
pub fn hook_answer(input: &str, rewritten: Option<&str>) -> (r: Result<Option<String>, HookError>)
    ensures
        r is Err <==> json_text_at(input@, command_pointer()) is None,
        json_text_at(input@, command_pointer()) matches Some(found) ==> {
            let replaced = found matches Some(cmd) && is_rewrite(cmd, rewritten);
            &&& r matches Ok(shown) && (shown is Some <==> replaced)
            &&& replaced ==> r->Ok_0->0@ == answer(
                json_with_text(input@, "tool_input"@, "command"@, rewritten->0@),
            )
        },
        json_text_at(input@, command_pointer()) matches Some(Some(cmd)) ==> (r matches Ok(Some(_))
            <==> rewritten is Some && rewritten->0@ != cmd),
        json_text_at(input@, command_pointer()) == Some(None::<Seq<char>>) ==> r matches Ok(None),
        r matches Ok(Some(shown)) ==> (json_text_at(
            shown@,
            answer_pointer("command"@),
        ) matches Some(t) ==> t == Some(rewritten->0@)),
        r matches Ok(Some(shown)) ==> forall|rest: Seq<char>|
            leads_elsewhere(rest, "command"@) ==> ((#[trigger] json_text_at(
                shown@,
                answer_pointer(rest),
            )) matches Some(t) ==> json_text_at(input@, member_pointer("tool_input"@, rest))
                == Some(t)),
        r matches Ok(Some(shown)) ==> forall|rest: Seq<char>|
            leads_elsewhere(rest, "command"@) ==> ((#[trigger] json_value_at(
                shown@,
                answer_pointer(rest),
            )) matches Some(after) ==> (json_value_at(
                input@,
                member_pointer("tool_input"@, rest),
            ) matches Some(before) && is_preserved(before, after))),
{
    proof {
        reveal_strlit("/");
        reveal_strlit("tool_input");
        reveal_strlit("command");
        reveal_strlit("/tool_input/command");
        assert("tool_input"@.len() == 10 && "command"@.len() == 7);
        assert(member_pointer("tool_input"@, "command"@) =~= command_pointer());
        assert(is_plain_key("tool_input"@));
        assert(is_plain_key("command"@));
    }
    match hook_command(input) {
        Err(e) => Err(e),
        Ok(None) => Ok(None),
        Ok(Some(cmd)) => match rewritten {
            None => Ok(None),
            Some(new) => {
                if !needs_rewrite(cmd.as_str(), rewritten) {
                    return Ok(None);
                }
                let updated = with_text(input, "tool_input", "command", new);
                Ok(Some(frame_answer(updated.as_str())))
            },
        },
    }
}

/// A command is replaced by every text that differs from it, and by nothing else.
pub proof fn lemma_is_rewrite(cmd: Seq<char>, new: &str)
    ensures
        is_rewrite(cmd, Some(new)) <==> new@ != cmd,
        !is_rewrite(cmd, None),
{
}

}
