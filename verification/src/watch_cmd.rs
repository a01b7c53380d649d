//! Watching a command: its key and what changed since its last run.

use vstd::prelude::*;

use crate::hashing;
use crate::line_diff;
use crate::line_diff::{absent_lines, list_lines};
use crate::number;
use crate::number::{decimal_of, hex_of};
use crate::text;
use crate::text::{
    chars_of, extend, extend_str, joined_lines, keep_visible, lines_of, same, string_of,
    trimmed,
};

verus! {

/// The most resolved lines that a difference shows.
pub const MAX_RESOLVED_LINES: usize = 20;

/// The most new lines that a difference shows.
pub const MAX_NEW_LINES: usize = 30;

/// The hash of a command.
pub open spec fn hash(cmd: Seq<char>) -> u64 {
    hashing::finish(hashing::fed(cmd))
}

/// The key of a command: its hash in hexadecimal.
pub open spec fn key(cmd: Seq<char>) -> Seq<char> {
    number::hex(hash(cmd) as nat, 16)
}

/// Generates a stable key for the command, which can serve as a file name.
pub fn cmd_key(cmd: &str) -> (r: String)
    ensures
        r@ == key(cmd@),
        r@.len() == 16,
        forall|i: int| 0 <= i < 16 ==> number::is_hex_digit(#[trigger] r@[i]),
{
    let hash = hashing::hash_one(cmd);
    proof {
        number::lemma_hex_digits(hash as nat, 16);
    }
    string_of(&hex_of(hash, 16))
}

/// Commands have the same key if and only if they have the same hash.
pub proof fn lemma_keys(cmd: Seq<char>, other: Seq<char>)
    ensures
        key(cmd) == key(other) <==> hash(cmd) == hash(other),
{
    if key(cmd) == key(other) {
        reveal_with_fuel(number::power_of_sixteen, 17);
        number::lemma_hex_distinct(hash(cmd) as nat, hash(other) as nat, 16);
    }
}

/// The lines of `a` that show something and that `b` has not.
pub open spec fn gone(a: Seq<char>, b: Seq<char>) -> Seq<Seq<char>> {
    line_diff::absent(text::keep(text::lines(a), text::not_blank()), text::lines(b))
}

/// A heading with the number of lines below it, and the lines, cut at `max`.
pub open spec fn section(title: Seq<char>, l: Seq<Seq<char>>, max: nat) -> Seq<Seq<char>> {
    if l.len() == 0 {
        Seq::empty()
    } else {
        seq!["--- "@ + title + " ("@ + number::decimal(l.len()) + ") ---"@] + line_diff::listing(
            l,
            "  "@,
            max,
            "  "@,
        )
    }
}

/// What changed from `prev` to `current`.
pub open spec fn change(prev: Seq<char>, current: Seq<char>) -> Seq<char> {
    let removed = gone(prev, current);
    let added = gone(current, prev);
    if removed.len() == 0 && added.len() == 0 {
        "(no changes from last run)"@
    } else {
        text::join(
            section("Resolved"@, removed, MAX_RESOLVED_LINES as nat) + section(
                "New"@,
                added,
                MAX_NEW_LINES as nat,
            ),
            "\n"@,
        )
    }
}

fn add_section(out: &mut Vec<Vec<char>>, title: &str, lines: &Vec<Vec<char>>, max: usize)
    ensures
        text::views(final(out)@) == text::views(old(out)@) + section(
            title@,
            text::views(lines@),
            max as nat,
        ),
{
    let ghost start = text::views(out@);
    assert(text::views(lines@).len() == lines.len());
    if lines.len() > 0 {
        let mut heading = chars_of("--- ");
        extend_str(&mut heading, title);
        extend_str(&mut heading, " (");
        extend(&mut heading, &decimal_of(lines.len()));
        extend_str(&mut heading, ") ---");
        let ghost before = out@;
        out.push(heading);
        proof {
            text::lemma_views_push(before, heading);
        }
        list_lines(out, lines, "  ", max, "  ");
    }
    assert(text::views(out@) =~= start + section(title@, text::views(lines@), max as nat));
}

/// Computes a line-level difference between the previous and the current output: the lines
/// that are gone and those that are new, each under a heading.
pub fn compute_diff(prev: &str, current: &str) -> (r: String)
    ensures
        r@ == change(prev@, current@),
{
    let before = lines_of(prev);
    let after = lines_of(current);
    let removed = absent_lines(&keep_visible(&before), &after);
    let added = absent_lines(&keep_visible(&after), &before);
    assert(text::views(removed@).len() == removed.len());
    assert(text::views(added@).len() == added.len());
    if removed.len() == 0 && added.len() == 0 {
        return string_of(&chars_of("(no changes from last run)"));
    }
    let mut result: Vec<Vec<char>> = Vec::new();
    add_section(&mut result, "Resolved", &removed, MAX_RESOLVED_LINES);
    add_section(&mut result, "New", &added, MAX_NEW_LINES);
    proof {
        let r = section("Resolved"@, text::views(removed@), 20);
        let a = section("New"@, text::views(added@), 30);
        assert(Seq::<Seq<char>>::empty() + r + a =~= r + a);
        assert(text::views(result@) =~= r + a);
    }
    joined_lines(&result)
}

/// An exit code in decimal.
pub open spec fn exit_code_text(code: int) -> Seq<char> {
    if code < 0 {
        "-"@ + number::decimal((-code) as nat)
    } else {
        number::decimal(code as nat)
    }
}

/// What a watched run reports, given what the run before it put out.
pub open spec fn report(previous: Option<Seq<char>>, current: Seq<char>, code: int) -> Seq<char> {
    match previous {
        None => current,
        Some(prev) => if prev == current {
            "(no changes from last run, exit code "@ + exit_code_text(code) + ")"@
        } else {
            change(prev, current)
        },
    }
}

/// What a watched run reports: all of its output on the first run, a short note if nothing
/// changed since the run before, else what changed.
pub fn watch_report(previous: Option<&str>, current: &str, exit_code: i32) -> (r: String)
    ensures
        r@ == report(
            match previous {
                Some(p) => Some(p@),
                None => None,
            },
            current@,
            exit_code as int,
        ),
        previous is None ==> r@ == current@,
        previous matches Some(p) ==> p@ == current@ ==> text::starts_with(
            r@,
            "(no changes from last run, exit code "@,
        ),
        previous matches Some(p) ==> p@ != current@ ==> r@ == change(p@, current@),
{
    match previous {
        None => string_of(&chars_of(current)),
        Some(prev) => {
            if same(&chars_of(prev), &chars_of(current)) {
                let mut note = chars_of("(no changes from last run, exit code ");
                let ghost start = note@;
                let mut code: Vec<char> = Vec::new();
                if exit_code < 0 {
                    code = chars_of("-");
                    extend(&mut code, &number::decimal_wide((-(exit_code as i64)) as u128));
                } else {
                    code = number::decimal_wide(exit_code as u128);
                }
                extend(&mut note, &code);
                extend_str(&mut note, ")");
                assert(note@.subrange(0, start.len() as int) =~= start);
                string_of(&note)
            } else {
                compute_diff(prev, current)
            }
        },
    }
}

/// A watched run, once the command has ended.
pub struct Watched {
    /// What the command put out: what the next run compares with.
    pub saved: String,
    /// What changed since the run before.
    pub report: String,
    /// The report as it is printed.
    pub shown: String,
    /// The exit code to end with, unless it is that of success.
    pub exit: Option<i32>,
}

/// The exit code of a command, or 1 if it has none.
pub open spec fn code_of(code: Option<i32>) -> i32 {
    match code {
        Some(c) => c,
        None => 1,
    }
}

/// Decides on a watched run: what to keep for the next run, what to print, and how to end,
/// given what the run before put out, and the two output streams and the exit code of this.
pub fn watch_run(previous: Option<&str>, stdout: &str, stderr: &str, code: Option<i32>) -> (r:
    Watched)
    ensures
        r.saved@ == stdout@ + stderr@,
        r.report@ == report(
            match previous {
                Some(p) => Some(p@),
                None => None,
            },
            stdout@ + stderr@,
            code_of(code) as int,
        ),
        r.shown@ == text::trim(r.report@),
        previous is None ==> r.report@ == stdout@ + stderr@,
        previous matches Some(p) ==> p@ != stdout@ + stderr@ ==> r.report@ == change(
            p@,
            stdout@ + stderr@,
        ),
        code is None ==> r.exit == Some(1i32),
        code matches Some(c) ==> (r.exit is None <==> c == 0) && (c != 0 ==> r.exit == Some(c)),
        r.exit == if code_of(code) == 0 {
            None::<i32>
        } else {
            Some(code_of(code))
        },
{
    let mut all = chars_of(stdout);
    extend_str(&mut all, stderr);
    let saved = string_of(&all);
    let exit_code: i32 = match code {
        Some(c) => c,
        None => 1,
    };
    let report = watch_report(previous, saved.as_str(), exit_code);
    let shown = string_of(&trimmed(&chars_of(report.as_str())));
    let exit: Option<i32> = if exit_code == 0 {
        None
    } else {
        Some(exit_code)
    };
    Watched { saved, report, shown, exit }
}

/// The first run reports all that it put out, and a run that puts out the same as the one
/// before reports that, with its own exit code, whatever the runs before were.
pub proof fn lemma_same_again(current: Seq<char>, code: int)
    ensures
        report(None, current, code) == current,
        report(Some(current), current, code) == "(no changes from last run, exit code "@
            + exit_code_text(code) + ")"@,
{
}

/// A run that put out the same lines as the one before changed nothing, in whatever order
/// and however often the lines stand there.
pub proof fn lemma_no_change(prev: Seq<char>, current: Seq<char>)
    requires
        forall|x: Seq<char>|
            #[trigger] text::lines(prev).contains(x) <==> text::lines(current).contains(x),
    ensures
        change(prev, current) == "(no changes from last run)"@,
{
    let a = text::keep(text::lines(prev), text::not_blank());
    let b = text::keep(text::lines(current), text::not_blank());
    text::lemma_keep(text::lines(prev), 0, text::not_blank());
    text::lemma_keep(text::lines(current), 0, text::not_blank());
    line_diff::lemma_absent_empty(a, text::lines(current));
    line_diff::lemma_absent_empty(b, text::lines(prev));
    assert forall|i: int| 0 <= i < a.len() implies text::lines(current).contains(
        #[trigger] a[i],
    ) by {
        assert(text::lines(prev).contains(a[i]));
    }
    assert forall|i: int| 0 <= i < b.len() implies text::lines(prev).contains(#[trigger] b[i]) by {
        assert(text::lines(current).contains(b[i]));
    }
}

/// The lines of `a` that show something and that are none of the lines of `b`, all of them, in
/// their order and as often as they stand there.
pub proof fn lemma_gone(a: Seq<char>, b: Seq<char>)
    ensures
        gone(a, b) == text::lines(a).filter(
            |line: Seq<char>| text::trim(line).len() > 0 && !text::lines(b).contains(line),
        ),
{
    let p = |line: Seq<char>| text::trim(line).len() > 0;
    let q = |line: Seq<char>| !text::lines(b).contains(line);
    text::lemma_keep_is_filter(text::lines(a), text::not_blank());
    assert(text::not_blank() =~= p);
    line_diff::lemma_absent_is_filter(text::lines(a).filter(p), text::lines(b));
    text::lemma_filter_twice(text::lines(a), p, q);
    assert((|line: Seq<char>| p(line) && q(line)) =~= (|line: Seq<char>|
        text::trim(line).len() > 0 && !text::lines(b).contains(line)));
}

/// From position `at` on, `parts` holds a section on the lines `l`: a heading with their
/// number, the first `max` of them, and how many more there are. Without lines there is none.
pub open spec fn holds_section(
    parts: Seq<Seq<char>>,
    at: int,
    title: Seq<char>,
    l: Seq<Seq<char>>,
    max: nat,
) -> bool {
    l.len() > 0 ==> {
        &&& parts[at] == "--- "@ + title + " ("@ + number::decimal(l.len()) + ") ---"@
        &&& line_diff::lists(parts, at + 1, l, "  "@, max, "  "@)
    }
}

/// How many lines a section on `n` lines has.
pub open spec fn section_len(n: nat, max: nat) -> nat {
    if n == 0 {
        0
    } else {
        1 + line_diff::lines_for(n, max)
    }
}

proof fn lemma_section(title: Seq<char>, l: Seq<Seq<char>>, max: nat)
    ensures
        section(title, l, max).len() == section_len(l.len(), max),
        holds_section(section(title, l, max), 0, title, l, max),
{
    if l.len() > 0 {
        line_diff::lemma_listing(l, "  "@, max, "  "@);
        let parts = section(title, l, max);
        let list = line_diff::listing(l, "  "@, max, "  "@);
        assert forall|k: int| 0 <= k < l.len() && k < max implies #[trigger] parts[1 + k] == "  "@
            + l[k] by {
            assert(parts[1 + k] == list[0 + k]);
        }
        if l.len() > max {
            assert(parts[1 + max as int] == list[0 + max as int]);
        }
    }
}

proof fn lemma_section_moved(
    a: Seq<Seq<char>>,
    parts: Seq<Seq<char>>,
    b: Seq<Seq<char>>,
    title: Seq<char>,
    l: Seq<Seq<char>>,
    max: nat,
)
    requires
        parts.len() == section_len(l.len(), max),
        holds_section(parts, 0, title, l, max),
    ensures
        holds_section(a + parts + b, a.len() as int, title, l, max),
{
    let whole = a + parts + b;
    if l.len() > 0 {
        assert(whole[a.len() as int] == parts[0]);
        assert forall|k: int| 0 <= k < l.len() && k < max implies #[trigger] whole[a.len() + 1 + k]
            == "  "@ + l[k] by {
            assert(parts[0 + 1 + k] == "  "@ + l[k]);
            assert(whole[a.len() + 1 + k] == parts[1 + k]);
        }
        if l.len() > max {
            assert(whole[a.len() + 1 + max as int] == parts[0 + 1 + max as int]);
        }
    }
}

/// Whatever lines are gone, a line that shows something and that was not there before is
/// counted under New, and shown if it is one of the first; and whatever lines are new, a line
/// that is no longer there is counted under Resolved. There is nothing else in the report, and
/// without such lines it says that nothing changed.
pub proof fn lemma_change_sections(prev: Seq<char>, current: Seq<char>)
    ensures
        ({
            let removed = text::lines(prev).filter(
                |line: Seq<char>|
                    text::trim(line).len() > 0 && !text::lines(current).contains(line),
            );
            let added = text::lines(current).filter(
                |line: Seq<char>| text::trim(line).len() > 0 && !text::lines(prev).contains(line),
            );
            if removed.len() == 0 && added.len() == 0 {
                change(prev, current) == "(no changes from last run)"@
            } else {
                exists|parts: Seq<Seq<char>>|
                    {
                        &&& change(prev, current) == #[trigger] text::join(parts, "\n"@)
                        &&& parts.len() == section_len(removed.len(), 20) + section_len(
                            added.len(),
                            30,
                        )
                        &&& holds_section(parts, 0, "Resolved"@, removed, 20)
                        &&& holds_section(
                            parts,
                            section_len(removed.len(), 20) as int,
                            "New"@,
                            added,
                            30,
                        )
                    }
            }
        }),
{
    lemma_gone(prev, current);
    lemma_gone(current, prev);
    let removed = gone(prev, current);
    let added = gone(current, prev);
    let r = section("Resolved"@, removed, 20);
    let a = section("New"@, added, 30);
    let none = Seq::<Seq<char>>::empty();
    lemma_section("Resolved"@, removed, 20);
    lemma_section("New"@, added, 30);
    lemma_section_moved(none, r, a, "Resolved"@, removed, 20);
    lemma_section_moved(r, a, none, "New"@, added, 30);
    assert(none + r + a =~= r + a);
    assert(r + a + none =~= r + a);
    if removed.len() > 0 || added.len() > 0 {
        assert(change(prev, current) == text::join(r + a, "\n"@));
    }
}

/// Different exit codes are written differently.
pub proof fn lemma_exit_code_text(a: int, b: int)
    requires
        a != b,
    ensures
        exit_code_text(a) != exit_code_text(b),
{
    reveal_strlit("-");
    assert("-"@ =~= seq!['-']);
    let x = if a < 0 {
        (-a) as nat
    } else {
        a as nat
    };
    let y = if b < 0 {
        (-b) as nat
    } else {
        b as nat
    };
    number::lemma_decimal_value(x);
    number::lemma_decimal_value(y);
    let dx = number::decimal(x);
    let dy = number::decimal(y);
    if a < 0 {
        assert(exit_code_text(a)[0] == '-');
        assert(exit_code_text(a).skip(1) =~= dx);
    } else {
        assert(number::is_decimal_digit(dx[0]));
    }
    if b < 0 {
        assert(exit_code_text(b)[0] == '-');
        assert(exit_code_text(b).skip(1) =~= dy);
    } else {
        assert(number::is_decimal_digit(dy[0]));
    }
}

}
