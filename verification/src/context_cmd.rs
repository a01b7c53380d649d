//! The compound context of a repository: status, differences and recent history.

use vstd::prelude::*;

use crate::number;
use crate::number::decimal_of;
use crate::text;
use crate::text::{
    chars_of, extend, extend_str, joined_lines, string_of, trimmed,
};

verus! {

/// A heading and a body, set off by an empty line, or nothing if the body shows nothing.
pub open spec fn section(heading: Seq<char>, body: Seq<char>) -> Seq<Seq<char>> {
    if text::trim(body).len() == 0 {
        Seq::empty()
    } else {
        seq![Seq::empty(), heading, text::trim(body)]
    }
}

/// The parts of the context, in order.
pub open spec fn sections(
    status: Seq<char>,
    diff_stat: Seq<char>,
    compacted: Option<Seq<char>>,
    staged: Seq<char>,
    log: Seq<char>,
    max_log: nat,
) -> Seq<Seq<char>> {
    seq![
        "=== Status ==="@,
        if text::trim(status).len() == 0 {
            "(clean)"@
        } else {
            text::trim(status)
        },
    ] + section("=== Diff ==="@, diff_stat) + match compacted {
        Some(changes) if text::trim(diff_stat).len() > 0 && changes.len() > 0 => seq![changes],
        _ => Seq::empty(),
    } + section("=== Staged ==="@, staged) + section(
        "=== Log (last "@ + number::decimal(max_log) + ") ==="@,
        log,
    )
}

/// Tells whether a program's output shows anything.
pub fn shows_anything(output: &str) -> (r: bool)
    ensures
        r == (text::trim(output@).len() > 0),
{
    trimmed(&chars_of(output)).len() > 0
}

fn add_section(out: &mut Vec<Vec<char>>, heading: Vec<char>, body: &str)
    ensures
        text::views(final(out)@) == text::views(old(out)@) + section(heading@, body@),
{
    let ghost start = text::views(out@);
    let ghost title = heading@;
    let t = trimmed(&chars_of(body));
    if t.len() > 0 {
        let empty: Vec<char> = Vec::new();
        assert(empty@ =~= Seq::<char>::empty());
        out.push(empty);
        out.push(heading);
        out.push(t);
    }
    assert(text::views(out@) =~= start + section(title, body@));
}

/// Combines the reports of `git status`, `git diff --stat`, `git diff --cached --stat` and
/// `git log`. The changes themselves (`compacted`) follow the statistics of the differences;
/// they matter only where there are differences.
pub fn context_output(
    status: &str,
    diff_stat: &str,
    compacted: Option<&str>,
    staged: &str,
    log: &str,
    max_log: usize,
) -> (r: String)
    ensures
        r@ == text::join(
            sections(
                status@,
                diff_stat@,
                match compacted {
                    Some(c) => Some(c@),
                    None => None,
                },
                staged@,
                log@,
                max_log as nat,
            ),
            "\n"@,
        ),
{
    let mut out: Vec<Vec<char>> = Vec::new();
    out.push(chars_of("=== Status ==="));
    let t = trimmed(&chars_of(status));
    if t.len() == 0 {
        out.push(chars_of("(clean)"));
    } else {
        out.push(t);
    }
    let ghost first = text::views(out@);
    add_section(&mut out, chars_of("=== Diff ==="), diff_stat);
    let ghost second = text::views(out@);
    if let Some(changes) = compacted {
        if shows_anything(diff_stat) {
            let c = chars_of(changes);
            if c.len() > 0 {
                let ghost before = out@;
                out.push(c);
                proof {
                    text::lemma_views_push(before, c);
                }
            }
        }
    }
    let ghost third = text::views(out@);
    add_section(&mut out, chars_of("=== Staged ==="), staged);
    let ghost fourth = text::views(out@);
    let mut heading = chars_of("=== Log (last ");
    extend(&mut heading, &decimal_of(max_log));
    extend_str(&mut heading, ") ===");
    let ghost title = heading@;
    add_section(&mut out, heading, log);
    proof {
        assert(first =~= seq![
            "=== Status ==="@,
            if text::trim(status@).len() == 0 {
                "(clean)"@
            } else {
                text::trim(status@)
            },
        ]);
        let changes: Seq<Seq<char>> = match compacted {
            Some(c) if text::trim(diff_stat@).len() > 0 && c@.len() > 0 => seq![c@],
            _ => Seq::empty(),
        };
        assert(third =~= second + changes);
    }
    joined_lines(&out)
}

/// The reports that the context stands for, as they would have been read one by one.
pub fn separate_reports(status: &str, diff_stat: &str, log: &str) -> (r: String)
    ensures
        r@ == status@ + "\n"@ + diff_stat@ + "\n"@ + log@,
{
    let mut out = chars_of(status);
    extend_str(&mut out, "\n");
    extend_str(&mut out, diff_stat);
    extend_str(&mut out, "\n");
    extend_str(&mut out, log);
    string_of(&out)
}

/// From position `at` on, `parts` holds a section: an empty line, the heading and what the body
/// shows.
pub open spec fn holds_section(
    parts: Seq<Seq<char>>,
    at: int,
    heading: Seq<char>,
    body: Seq<char>,
) -> bool {
    parts[at].len() == 0 && parts[at + 1] == heading && parts[at + 2] == text::trim(body)
}

/// Every report that shows something is there, under its heading and in its place, whatever the
/// others show; the changes are there if there are any; and nothing else is.
pub proof fn lemma_sections(
    status: Seq<char>,
    diff_stat: Seq<char>,
    compacted: Option<Seq<char>>,
    staged: Seq<char>,
    log: Seq<char>,
    max_log: nat,
)
    ensures
        ({
            let parts = sections(status, diff_stat, compacted, staged, log, max_log);
            let diff: int = if text::trim(diff_stat).len() > 0 {
                3
            } else {
                0
            };
            let changes: int = if text::trim(diff_stat).len() > 0 && compacted is Some
                && compacted->0.len() > 0 {
                1
            } else {
                0
            };
            let stage: int = if text::trim(staged).len() > 0 {
                3
            } else {
                0
            };
            let recent: int = if text::trim(log).len() > 0 {
                3
            } else {
                0
            };
            &&& parts.len() == 2 + diff + changes + stage + recent
            &&& parts[0] == "=== Status ==="@
            &&& text::trim(status).len() > 0 ==> parts[1] == text::trim(status)
            &&& text::trim(status).len() == 0 ==> parts[1] == "(clean)"@
            &&& diff > 0 ==> holds_section(parts, 2, "=== Diff ==="@, diff_stat)
            &&& changes > 0 ==> parts[2 + diff] == compacted->0
            &&& stage > 0 ==> holds_section(
                parts,
                2 + diff + changes,
                "=== Staged ==="@,
                staged,
            )
            &&& recent > 0 ==> holds_section(
                parts,
                2 + diff + changes + stage,
                "=== Log (last "@ + number::decimal(max_log) + ") ==="@,
                log,
            )
        }),
{
}

}
