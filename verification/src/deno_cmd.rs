//! Filtering of the output of `deno`.

use vstd::prelude::*;

use crate::text;
use crate::text::{
    chars_of, copy, has_prefix, joined_lines, lines_of, string_of, trimmed,
};

verus! {

/// Lines that show something and report no download.
pub open spec fn meaningful() -> spec_fn(Seq<char>) -> bool {
    |line: Seq<char>|
        text::trim(line).len() > 0 && !text::starts_with(text::trim(line), "Download "@)
}

/// The lines `l`, or "ok" if there is none.
pub open spec fn lines_or_ok(l: Seq<Seq<char>>) -> Seq<char> {
    if l.len() == 0 {
        "ok"@
    } else {
        text::join(l, "\n"@)
    }
}

/// The lines, or "ok" if there is none.
pub fn join_or_ok(lines: &Vec<Vec<char>>) -> (r: String)
    ensures
        r@ == lines_or_ok(text::views(lines@)),
{
    assert(text::views(lines@).len() == lines.len());
    if lines.len() == 0 {
        string_of(&chars_of("ok"))
    } else {
        joined_lines(lines)
    }
}

/// Filters the output of `deno`: strips download lines and empty lines. Returns "ok" if
/// nothing meaningful remains.
pub fn filter_deno_output(output: &str) -> (r: String)
    ensures
        r@ == lines_or_ok(text::keep(text::lines(output@), meaningful())),
{
    let lines = lines_of(output);
    let ghost l = text::views(lines@);
    let mut kept: Vec<Vec<char>> = Vec::new();
    let mut i: usize = 0;
    assert(text::views(kept@) + text::keep(l, meaningful()) == text::keep(l, meaningful()));
    while i < lines.len()
        invariant
            i <= lines.len(),
            l == text::views(lines@),
            text::views(kept@) + text::keep_from(l, i as int, meaningful()) == text::keep(
                l,
                meaningful(),
            ),
        decreases lines.len() - i,
    {
        let t = trimmed(&lines[i]);
        if t.len() > 0 && !has_prefix(&t, "Download ") {
            let ghost before = kept@;
            let line = copy(&lines[i]);
            kept.push(line);
            proof {
                text::lemma_views_push(before, line);
                text::lemma_shift(
                    text::views(before),
                    line@,
                    text::keep_from(l, i + 1, meaningful()),
                );
            }
        }
        i += 1;
    }
    assert(text::views(kept@) + Seq::<Seq<char>>::empty() == text::views(kept@));
    join_or_ok(&kept)
}

/// What is shown reports no download and is not blank, and no other line is lost.
pub proof fn lemma_meaningful_lines(l: Seq<Seq<char>>)
    ensures
        forall|j: int|
            0 <= j < text::keep(l, meaningful()).len() ==> meaningful()(
                #[trigger] text::keep(l, meaningful())[j],
            ) && l.contains(text::keep(l, meaningful())[j]),
        forall|k: int|
            0 <= k < l.len() && meaningful()(#[trigger] l[k]) ==> text::keep(
                l,
                meaningful(),
            ).contains(l[k]),
{
    text::lemma_keep(l, 0, meaningful());
}

/// What is shown are all lines that show something and report no download, in their order, or
/// "ok" if there is none.
pub proof fn lemma_output_lines(l: Seq<Seq<char>>)
    ensures
        ({
            let kept = l.filter(
                |line: Seq<char>|
                    text::trim(line).len() > 0 && !text::starts_with(
                        text::trim(line),
                        "Download "@,
                    ),
            );
            &&& kept.len() > 0 ==> lines_or_ok(text::keep(l, meaningful())) == text::join(
                kept,
                "\n"@,
            )
            &&& kept.len() == 0 ==> lines_or_ok(text::keep(l, meaningful())) == "ok"@
        }),
{
    text::lemma_keep_is_filter(l, meaningful());
    assert(meaningful() =~= (|line: Seq<char>|
        text::trim(line).len() > 0 && !text::starts_with(text::trim(line), "Download "@)));
}

}
