//! What the commands that run another program have in common.

use vstd::prelude::*;

use crate::text;
use crate::text::{chars_of, extend, extend_str, joined, string_of, texts_of};

verus! {

/// A program's two output streams as one text.
pub fn streams(stdout: &str, stderr: &str) -> (r: String)
    ensures
        r@ == stdout@ + "\n"@ + stderr@,
{
    let mut raw = chars_of(stdout);
    extend_str(&mut raw, "\n");
    extend_str(&mut raw, stderr);
    string_of(&raw)
}

/// The exit code to hand on: the program's own, or without one 0 for success and 1 for
/// failure.
pub fn exit_code(code: Option<i32>, success: bool) -> (r: i32)
    ensures
        r == match code {
            Some(c) => c,
            None => if success {
                0i32
            } else {
                1i32
            },
        },
{
    match code {
        Some(c) => c,
        None => if success {
            0
        } else {
            1
        },
    }
}

/// A command and its arguments as one line.
pub fn command_line(command: &str, args: &Vec<String>) -> (r: String)
    ensures
        r@ == command@ + " "@ + text::join(text::strings(args@), " "@),
{
    let mut line = chars_of(command);
    extend_str(&mut line, " ");
    extend(&mut line, &joined(&texts_of(args), " "));
    string_of(&line)
}

/// Filtered output, with a hint below it if there is one.
pub fn with_hint(filtered: &str, hint: Option<&str>) -> (r: String)
    ensures
        r@ == match hint {
            Some(h) => filtered@ + "\n"@ + h@,
            None => filtered@,
        },
{
    let mut out = chars_of(filtered);
    if let Some(h) = hint {
        extend_str(&mut out, "\n");
        extend_str(&mut out, h);
    }
    string_of(&out)
}

}
