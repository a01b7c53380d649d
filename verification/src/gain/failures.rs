//! The page on commands that could not be parsed.

use vstd::prelude::*;

use super::pages;
use super::pages::{bytes_before, clip, say_count, say_heading, say_kpi, say_ruled};
use crate::number;
use crate::number::decimal_of;
use crate::style;
use crate::style::{say, say_plain, Paint, Span};
use crate::text;
use crate::text::{chars_of, count_bytes};

verus! {

/// A command that could not be parsed, and how often.
#[derive(Debug)]
pub struct FailedCommand {
    pub command: String,
    pub count: usize,
}

/// A recent failure.
#[derive(Debug)]
pub struct Failure {
    pub timestamp: String,
    pub raw_command: String,
    /// The command ran all the same.
    pub fallback_succeeded: bool,
}

/// The line of a command that could not be parsed.
pub open spec fn command_line(c: FailedCommand) -> Seq<style::Piece> {
    seq![
        pages::plainly("  "@),
        pages::plainly(text::right_aligned(number::decimal(c.count as nat), 4)),
        pages::plainly("x  "@),
        pages::plainly(pages::clipped(c.command@, 50, 47)),
        pages::plainly("\n"@),
    ]
}

/// The lines of the first `n` commands that could not be parsed.
pub open spec fn command_lines(v: Seq<FailedCommand>, n: int) -> Seq<style::Piece>
    decreases n,
{
    if n <= 0 {
        Seq::empty()
    } else {
        command_lines(v, n - 1) + command_line(v[n - 1])
    }
}

/// Date, hour and minute of a timestamp, or all of a shorter text.
pub open spec fn short_time(t: Seq<char>) -> Seq<char> {
    if text::byte_len(t) >= 16 {
        pages::first_bytes(t, 16)
    } else {
        t
    }
}

/// The line of a recent failure.
pub open spec fn failure_line(f: Failure) -> Seq<style::Piece> {
    seq![
        pages::plainly("  "@),
        pages::plainly(short_time(f.timestamp@)),
        pages::plainly(" ["@),
        pages::plainly(
            if f.fallback_succeeded {
                "ok"@
            } else {
                "FAIL"@
            },
        ),
        pages::plainly("] "@),
        pages::plainly(pages::clipped(f.raw_command@, 40, 37)),
        pages::plainly("\n"@),
    ]
}

/// The lines of the first `n` failures.
pub open spec fn failure_lines(v: Seq<Failure>, n: int) -> Seq<style::Piece>
    decreases n,
{
    if n <= 0 {
        Seq::empty()
    } else {
        failure_lines(v, n - 1) + failure_line(v[n - 1])
    }
}

/// The table of commands that could not be parsed, if there are any.
pub open spec fn top_section(v: Seq<FailedCommand>) -> Seq<style::Piece> {
    if v.len() == 0 {
        Seq::empty()
    } else {
        pages::heading("Top Commands (by frequency)"@) + pages::ruled('\u{2500}', 60)
            + command_lines(v, v.len() as int) + seq![pages::plainly("\n"@)]
    }
}

/// The recent failures, if there are any.
pub open spec fn recent_section(v: Seq<Failure>) -> Seq<style::Piece> {
    if v.len() == 0 {
        Seq::empty()
    } else {
        pages::heading("Recent Failures (last 10)"@) + pages::ruled('\u{2500}', 60)
            + failure_lines(v, v.len() as int) + seq![pages::plainly("\n"@)]
    }
}

/// The page on `total` failures, of which the share `rate` was recovered.
pub open spec fn page(
    total: nat,
    rate: Seq<char>,
    top: Seq<FailedCommand>,
    recent: Seq<Failure>,
) -> Seq<style::Piece> {
    if total == 0 {
        seq![
            pages::plainly("No parse failures recorded.\n"@),
            pages::plainly(
                "This means all commands parsed successfully (or fallback hasn't triggered yet).\n"@,
            ),
        ]
    } else {
        pages::heading("RTK Parse Failures"@) + pages::ruled('\u{2550}', 60) + seq![
            pages::plainly("\n"@),
        ] + pages::kpi("Total failures"@, number::decimal(total)) + pages::kpi(
            "Recovery rate"@,
            rate,
        ) + seq![pages::plainly("\n"@)] + top_section(top) + recent_section(recent)
    }
}

/// The commands and timestamps can be cut where they are cut.
pub open spec fn can_show(total: nat, top: Seq<FailedCommand>, recent: Seq<Failure>) -> bool {
    total > 0 ==> {
        &&& forall|i: int|
            0 <= i < top.len() ==> pages::can_clip((#[trigger] top[i]).command@, 50, 47)
        &&& forall|i: int|
            0 <= i < recent.len() ==> pages::can_clip(
                (#[trigger] recent[i]).raw_command@,
                40,
                37,
            ) && (text::byte_len(recent[i].timestamp@) >= 16 ==> pages::is_boundary(
                recent[i].timestamp@,
                16,
            ))
    }
}

fn say_command_line(out: &mut Vec<Span>, c: &FailedCommand)
    ensures
        style::pieces(final(out)@) == style::pieces(old(out)@) + command_line(*c),
{
    let ghost before = style::pieces(out@);
    say_plain(out, "  ");
    say_count(out, c.count, 4);
    say_plain(out, "x  ");
    say(out, clip(&chars_of(c.command.as_str()), 50, 47), Paint::Plain);
    say_plain(out, "\n");
    assert(style::pieces(out@) =~= before + command_line(*c));
}

fn say_failure_line(out: &mut Vec<Span>, f: &Failure)
    ensures
        style::pieces(final(out)@) == style::pieces(old(out)@) + failure_line(*f),
{
    let ghost before = style::pieces(out@);
    let time = chars_of(f.timestamp.as_str());
    say_plain(out, "  ");
    if count_bytes(&time) >= 16 {
        say(out, bytes_before(&time, 16), Paint::Plain);
    } else {
        say(out, time, Paint::Plain);
    }
    say_plain(out, " [");
    if f.fallback_succeeded {
        say_plain(out, "ok");
    } else {
        say_plain(out, "FAIL");
    }
    say_plain(out, "] ");
    say(out, clip(&chars_of(f.raw_command.as_str()), 40, 37), Paint::Plain);
    say_plain(out, "\n");
    assert(style::pieces(out@) =~= before + failure_line(*f));
}

fn say_top(out: &mut Vec<Span>, v: &Vec<FailedCommand>)
    ensures
        style::pieces(final(out)@) == style::pieces(old(out)@) + top_section(v@),
{
    let ghost before = style::pieces(out@);
    if v.len() > 0 {
        say_heading(out, "Top Commands (by frequency)");
        say_ruled(out, '\u{2500}', 60);
        let ghost top = style::pieces(out@);
        let mut i: usize = 0;
        assert(top =~= top + command_lines(v@, 0));
        while i < v.len()
            invariant
                i <= v.len(),
                style::pieces(out@) == top + command_lines(v@, i as int),
            decreases v.len() - i,
        {
            say_command_line(out, &v[i]);
            i += 1;
            assert(top + command_lines(v@, i - 1) + command_line(v@[i - 1]) =~= top
                + command_lines(v@, i as int));
        }
        say_plain(out, "\n");
    }
    assert(style::pieces(out@) =~= before + top_section(v@));
}

fn say_recent(out: &mut Vec<Span>, v: &Vec<Failure>)
    ensures
        style::pieces(final(out)@) == style::pieces(old(out)@) + recent_section(v@),
{
    let ghost before = style::pieces(out@);
    if v.len() > 0 {
        say_heading(out, "Recent Failures (last 10)");
        say_ruled(out, '\u{2500}', 60);
        let ghost top = style::pieces(out@);
        let mut i: usize = 0;
        assert(top =~= top + failure_lines(v@, 0));
        while i < v.len()
            invariant
                i <= v.len(),
                style::pieces(out@) == top + failure_lines(v@, i as int),
            decreases v.len() - i,
        {
            say_failure_line(out, &v[i]);
            i += 1;
            assert(top + failure_lines(v@, i - 1) + failure_line(v@[i - 1]) =~= top
                + failure_lines(v@, i as int));
        }
        say_plain(out, "\n");
    }
    assert(style::pieces(out@) =~= before + recent_section(v@));
}

/// Writes the page on commands that could not be parsed.
pub fn failures_page(
    total: usize,
    rate: &str,
    top: &Vec<FailedCommand>,
    recent: &Vec<Failure>,
) -> (r: Vec<Span>)
    requires
        can_show(total as nat, top@, recent@),
    ensures
        style::pieces(r@) == page(total as nat, rate@, top@, recent@),
{
    let mut out: Vec<Span> = Vec::new();
    assert(style::pieces(out@) =~= Seq::<style::Piece>::empty());
    if total == 0 {
        say_plain(&mut out, "No parse failures recorded.\n");
        say_plain(
            &mut out,
            "This means all commands parsed successfully (or fallback hasn't triggered yet).\n",
        );
        assert(style::pieces(out@) =~= page(total as nat, rate@, top@, recent@));
        return out;
    }
    say_heading(&mut out, "RTK Parse Failures");
    say_ruled(&mut out, '\u{2550}', 60);
    say_plain(&mut out, "\n");
    say_kpi(&mut out, "Total failures", &decimal_of(total));
    say_kpi(&mut out, "Recovery rate", &chars_of(rate));
    say_plain(&mut out, "\n");
    say_top(&mut out, top);
    say_recent(&mut out, recent);
    assert(style::pieces(out@) =~= page(total as nat, rate@, top@, recent@));
    out
}

/// Tells whether a timestamp can be cut after its minute.
pub fn is_short_time(t: &str) -> (r: bool)
    ensures
        r == (text::byte_len(t@) >= 16 ==> pages::is_boundary(t@, 16)),
{
    let c = chars_of(t);
    count_bytes(&c) < 16 || count_bytes(&bytes_before(&c, 16)) == 16
}

proof fn lemma_command_lines(v: Seq<FailedCommand>, n: int)
    requires
        0 <= n <= v.len(),
    ensures
        command_lines(v, n).len() == 5 * n,
        forall|i: int|
            #![trigger v[i]]
            0 <= i < n ==> style::holds(command_lines(v, n), 5 * i, command_line(v[i])),
    decreases n,
{
    if n > 0 {
        lemma_command_lines(v, n - 1);
        let before = command_lines(v, n - 1);
        let now = command_lines(v, n);
        assert(command_line(v[n - 1]).len() == 5);
        assert forall|i: int|
            #![trigger v[i]]
            0 <= i < n implies style::holds(now, 5 * i, command_line(v[i])) by {
            let row = command_line(v[i]);
            if i < n - 1 {
                assert(style::holds(before, 5 * i, row));
                assert(row.len() == 5);
                assert(now.subrange(5 * i, 5 * i + 5) =~= before.subrange(
                    5 * i,
                    5 * i + 5,
                ));
            } else {
                assert(now.subrange(5 * i, 5 * i + 5) =~= row);
            }
        }
    }
}

proof fn lemma_failure_lines(v: Seq<Failure>, n: int)
    requires
        0 <= n <= v.len(),
    ensures
        failure_lines(v, n).len() == 7 * n,
        forall|i: int|
            #![trigger v[i]]
            0 <= i < n ==> style::holds(failure_lines(v, n), 7 * i, failure_line(v[i])),
    decreases n,
{
    if n > 0 {
        lemma_failure_lines(v, n - 1);
        let before = failure_lines(v, n - 1);
        let now = failure_lines(v, n);
        assert(failure_line(v[n - 1]).len() == 7);
        assert forall|i: int|
            #![trigger v[i]]
            0 <= i < n implies style::holds(now, 7 * i, failure_line(v[i])) by {
            let row = failure_line(v[i]);
            if i < n - 1 {
                assert(style::holds(before, 7 * i, row));
                assert(row.len() == 7);
                assert(now.subrange(7 * i, 7 * i + 7) =~= before.subrange(
                    7 * i,
                    7 * i + 7,
                ));
            } else {
                assert(now.subrange(7 * i, 7 * i + 7) =~= row);
            }
        }
    }
}

/// The table of commands that could not be parsed has a line for each, in their order: how
/// often, and which command.
pub proof fn lemma_top_section(v: Seq<FailedCommand>)
    requires
        v.len() > 0,
    ensures
        ({
            let t = top_section(v);
            &&& t.len() == 4 + 5 * v.len() + 1
            &&& forall|i: int|
                #![trigger v[i]]
                0 <= i < v.len() ==> {
                    let at = 4 + 5 * i;
                    &&& pages::ends_cell(t[at + 1].0, number::decimal(v[i].count as nat))
                    &&& text::byte_len(v[i].command@) <= 50 ==> t[at + 3].0 == v[i].command@
                    &&& text::byte_len(v[i].command@) > 50 ==> t[at + 3].0 == pages::first_bytes(
                        v[i].command@,
                        47,
                    ) + "..."@
                    &&& t[at + 4].0 == "\n"@
                }
        }),
{
    let n = v.len() as int;
    let top = pages::heading("Top Commands (by frequency)"@) + pages::ruled('\u{2500}', 60);
    let all = command_lines(v, n);
    let below = seq![pages::plainly("\n"@)];
    let t = top_section(v);
    assert(top.len() == 4);
    assert(t =~= top + all + below);
    lemma_command_lines(v, n);
    assert forall|i: int|
        #![trigger v[i]]
        0 <= i < v.len() implies ({
        let at = 4 + 5 * i;
        &&& pages::ends_cell(t[at + 1].0, number::decimal(v[i].count as nat))
        &&& text::byte_len(v[i].command@) <= 50 ==> t[at + 3].0 == v[i].command@
        &&& text::byte_len(v[i].command@) > 50 ==> t[at + 3].0 == pages::first_bytes(
            v[i].command@,
            47,
        ) + "..."@
        &&& t[at + 4].0 == "\n"@
    }) by {
        let row = command_line(v[i]);
        style::lemma_holds_around(top, all, below, 5 * i, row);
        let cut = t.subrange(4 + 5 * i, 4 + 5 * i + 5);
        assert(cut == row);
        assert(cut[1] == t[4 + 5 * i + 1] && cut[3] == t[4 + 5 * i + 3] && cut[4] == t[4 + 5 * i
            + 4]);
        text::lemma_aligned(number::decimal(v[i].count as nat), 4);
    }
}

/// The recent failures have a line for each, in their order: when it was, whether the command
/// ran all the same, and which command.
pub proof fn lemma_recent_section(v: Seq<Failure>)
    requires
        v.len() > 0,
    ensures
        ({
            let t = recent_section(v);
            &&& t.len() == 4 + 7 * v.len() + 1
            &&& forall|i: int|
                #![trigger v[i]]
                0 <= i < v.len() ==> {
                    let at = 4 + 7 * i;
                    &&& text::byte_len(v[i].timestamp@) < 16 ==> t[at + 1].0 == v[i].timestamp@
                    &&& text::byte_len(v[i].timestamp@) >= 16 ==> t[at + 1].0 == pages::first_bytes(
                        v[i].timestamp@,
                        16,
                    )
                    &&& v[i].fallback_succeeded ==> t[at + 3].0 == "ok"@
                    &&& !v[i].fallback_succeeded ==> t[at + 3].0 == "FAIL"@
                    &&& text::byte_len(v[i].raw_command@) <= 40 ==> t[at + 5].0 == v[i].raw_command@
                    &&& text::byte_len(v[i].raw_command@) > 40 ==> t[at + 5].0
                        == pages::first_bytes(v[i].raw_command@, 37) + "..."@
                    &&& t[at + 6].0 == "\n"@
                }
        }),
{
    let n = v.len() as int;
    let top = pages::heading("Recent Failures (last 10)"@) + pages::ruled('\u{2500}', 60);
    let all = failure_lines(v, n);
    let below = seq![pages::plainly("\n"@)];
    let t = recent_section(v);
    assert(top.len() == 4);
    assert(t =~= top + all + below);
    lemma_failure_lines(v, n);
    assert forall|i: int|
        #![trigger v[i]]
        0 <= i < v.len() implies ({
        let at = 4 + 7 * i;
        &&& text::byte_len(v[i].timestamp@) < 16 ==> t[at + 1].0 == v[i].timestamp@
        &&& text::byte_len(v[i].timestamp@) >= 16 ==> t[at + 1].0 == pages::first_bytes(
            v[i].timestamp@,
            16,
        )
        &&& v[i].fallback_succeeded ==> t[at + 3].0 == "ok"@
        &&& !v[i].fallback_succeeded ==> t[at + 3].0 == "FAIL"@
        &&& text::byte_len(v[i].raw_command@) <= 40 ==> t[at + 5].0 == v[i].raw_command@
        &&& text::byte_len(v[i].raw_command@) > 40 ==> t[at + 5].0 == pages::first_bytes(
            v[i].raw_command@,
            37,
        ) + "..."@
        &&& t[at + 6].0 == "\n"@
    }) by {
        let row = failure_line(v[i]);
        style::lemma_holds_around(top, all, below, 7 * i, row);
        let cut = t.subrange(4 + 7 * i, 4 + 7 * i + 7);
        assert(cut == row);
        assert(cut[1] == t[4 + 7 * i + 1] && cut[3] == t[4 + 7 * i + 3] && cut[5] == t[4 + 7 * i
            + 5] && cut[6] == t[4 + 7 * i + 6]);
    }
}

/// The page counts all failures and gives the share that was recovered; below stand the table of
/// commands and the recent failures, and nothing else.
pub proof fn lemma_page(
    total: nat,
    rate: Seq<char>,
    top: Seq<FailedCommand>,
    recent: Seq<Failure>,
)
    requires
        total > 0,
    ensures
        ({
            let t = page(total, rate, top, recent);
            &&& t[7].0 == number::decimal(total)
            &&& t[11].0 == rate
            &&& t.len() == 14 + top_section(top).len() + recent_section(recent).len()
            &&& style::holds(t, 14, top_section(top))
            &&& style::holds(t, 14int + top_section(top).len(), recent_section(recent))
        }),
{
    let t = page(total, rate, top, recent);
    let a = top_section(top);
    let b = recent_section(recent);
    let end: int = 14int + a.len();
    assert(t.subrange(14, end) =~= a);
    assert(t.subrange(end, end + b.len()) =~= b);
}

}
