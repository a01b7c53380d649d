//! The pipeline of filters for arbitrary command output.

use vstd::prelude::*;

use crate::dedup;
use crate::number;
use crate::number::decimal_of;
use crate::patterns;
use crate::text;
use crate::text::{
    copy, extend, extend_str, joined, joined_lines, lines_of, slice, string_of, trimmed,
};
use crate::utils;

verus! {

/// Output of more lines than this is truncated.
pub const MAX_LINES: usize = 500;

/// Lines to preserve from the tail when truncating. Errors, summaries and the final status
/// typically appear at the end.
pub const TAIL_CONTEXT: usize = 30;

/// The expression for lines that only decorate.
pub open spec fn decoration_patterns() -> Seq<Seq<char>> {
    seq![r"^[\s=═─━\-\*~_╌╍┄┅┈┉]{4,}\s*$"@]
}

/// Where what follows the last carriage return of `s[..j]` begins.
pub open spec fn after_return(s: Seq<char>, j: int) -> int
    decreases j,
{
    if j <= 0 || j > s.len() {
        0
    } else if s[j - 1] == '\r' {
        j
    } else {
        after_return(s, j - 1)
    }
}

/// What is left of a line when each carriage return overwrites what stands before it.
pub open spec fn overwritten(line: Seq<char>) -> Seq<char> {
    line.subrange(after_return(line, line.len() as int), line.len() as int)
}

/// Each line as carriage returns leave it.
pub open spec fn overwritten_lines(l: Seq<Seq<char>>) -> Seq<Seq<char>> {
    Seq::new(l.len(), |i: int| overwritten(l[i]))
}

/// What `strip_cr_overwrites` makes of `s`.
pub open spec fn without_overwrites(s: Seq<char>) -> Seq<char> {
    text::join(overwritten_lines(text::lines(s)), "\n"@)
}

fn last_version(line: &Vec<char>) -> (r: Vec<char>)
    ensures
        r@ == overwritten(line@),
{
    let mut j: usize = line.len();
    while j > 0 && line[j - 1] != '\r'
        invariant
            j <= line.len(),
            after_return(line@, line@.len() as int) == after_return(line@, j as int),
        decreases j,
    {
        j -= 1;
    }
    slice(line, j, line.len())
}

/// Strips what a carriage return overwrites (progress bars, spinners): only the final
/// version of each line stays.
pub fn strip_cr_overwrites(output: &str) -> (r: String)
    ensures
        r@ == without_overwrites(output@),
{
    let lines = lines_of(output);
    let ghost l = text::views(lines@);
    let mut result: Vec<Vec<char>> = Vec::new();
    let mut i: usize = 0;
    while i < lines.len()
        invariant
            i <= lines.len(),
            l == text::views(lines@),
            text::views(result@) == overwritten_lines(l).take(i as int),
        decreases lines.len() - i,
    {
        let ghost before = result@;
        let line = last_version(&lines[i]);
        result.push(line);
        proof {
            text::lemma_views_push(before, line);
            assert(overwritten_lines(l).take(i + 1) =~= overwritten_lines(l).take(i as int).push(
                line@,
            ));
        }
        i += 1;
    }
    assert(overwritten_lines(l).take(l.len() as int) =~= overwritten_lines(l));
    joined_lines(&result)
}

/// For each line whether it only decorates.
pub open spec fn decorations(l: Seq<Seq<char>>) -> Seq<bool> {
    Seq::new(l.len(), |i: int| patterns::matches(decoration_patterns()[0], l[i]))
}

/// The lines from `i` on without those that only decorate (`deco`), and without the blank
/// lines after the second of a run; `blanks` of the run at hand, at most two, are kept.
pub open spec fn thin_from(l: Seq<Seq<char>>, deco: Seq<bool>, i: int, blanks: nat) -> Seq<
    Seq<char>,
>
    decreases l.len() - i,
    when 0 <= i <= l.len()
{
    if i >= l.len() {
        Seq::empty()
    } else if text::trim(l[i]).len() == 0 {
        if blanks < 2 {
            seq![l[i]] + thin_from(l, deco, i + 1, blanks + 1)
        } else {
            thin_from(l, deco, i + 1, blanks)
        }
    } else if deco[i] {
        thin_from(l, deco, i + 1, blanks)
    } else {
        seq![l[i]] + thin_from(l, deco, i + 1, 0)
    }
}

/// What `strip_decorative` makes of `s`.
pub open spec fn undecorated(s: Seq<char>) -> Seq<char> {
    text::join(thin_from(text::lines(s), decorations(text::lines(s)), 0, 0), "\n"@)
}

fn thin_lines(lines: &Vec<Vec<char>>, decorative: &Vec<bool>) -> (result: Vec<Vec<char>>)
    requires
        decorative.len() == lines.len(),
    ensures
        text::views(result@) == thin_from(text::views(lines@), decorative@, 0, 0),
{
    let ghost l = text::views(lines@);
    let ghost deco = decorative@;
    let mut result: Vec<Vec<char>> = Vec::new();
    let mut blanks: usize = 0;
    let mut i: usize = 0;
    assert(text::views(result@) + thin_from(l, deco, 0, 0) == thin_from(l, deco, 0, 0));
    while i < lines.len()
        invariant
            i <= lines.len(),
            decorative.len() == lines.len(),
            l == text::views(lines@),
            deco == decorative@,
            blanks <= 2,
            text::views(result@) + thin_from(l, deco, i as int, blanks as nat) == thin_from(
                l,
                deco,
                0,
                0,
            ),
        decreases lines.len() - i,
    {
        let blank = trimmed(&lines[i]).len() == 0;
        assert(l[i as int] == lines@[i as int]@);
        if (blank && blanks < 2) || (!blank && !decorative[i]) {
            let ghost before = result@;
            let kept = copy(&lines[i]);
            blanks = if blank {
                blanks + 1
            } else {
                0
            };
            result.push(kept);
            proof {
                text::lemma_views_push(before, kept);
                text::lemma_shift(
                    text::views(before),
                    kept@,
                    thin_from(l, deco, i + 1, blanks as nat),
                );
            }
        }
        i += 1;
    }
    assert(text::views(result@) + Seq::<Seq<char>>::empty() == text::views(result@));
    result
}

/// Strips the lines of `output` that `decorative` marks, and excessive blank lines.
pub fn strip_classified(output: &str, decorative: &Vec<bool>) -> (r: String)
    requires
        decorative.len() == text::lines(output@).len(),
    ensures
        r@ == text::join(thin_from(text::lines(output@), decorative@, 0, 0), "\n"@),
        r@ == text::join(
            text::picked(
                text::lines(output@),
                0,
                |k: int| stays(text::lines(output@), decorative@, k),
            ),
            "\n"@,
        ),
{
    let lines = lines_of(output);
    assert(text::views(lines@).len() == lines.len());
    proof {
        lemma_thin_exactly(text::lines(output@), decorative@);
    }
    joined_lines(&thin_lines(&lines, decorative))
}

/// Strips decorative separators (═══, ───, ***, etc.), and collapses runs of three or more
/// blank lines to two.
pub fn strip_decorative(output: &str) -> (r: String)
    ensures
        r@ == undecorated(output@),
{
    let list: Vec<&'static str> = vec![r"^[\s=═─━\-\*~_╌╍┄┅┈┉]{4,}\s*$"];
    assert(text::literals(list@) =~= decoration_patterns());
    let set = patterns::compile(&list);
    let lines = lines_of(output);
    let ghost l = text::views(lines@);
    let mut decorative: Vec<bool> = Vec::new();
    let mut i: usize = 0;
    while i < lines.len()
        invariant
            i <= lines.len(),
            l == text::views(lines@),
            patterns::set_patterns(set) == decoration_patterns(),
            decorative@ == decorations(l).take(i as int),
        decreases lines.len() - i,
    {
        let found = patterns::first_matching(&set, string_of(&lines[i]).as_str());
        proof {
            reveal_with_fuel(patterns::first_from, 2);
        }
        decorative.push(found.is_some());
        i += 1;
        assert(decorative@ =~= decorations(l).take(i as int));
    }
    assert(decorative@ =~= decorations(l));
    strip_classified(output, &decorative)
}

/// Command output after all the steps that work line by line.
pub open spec fn cleaned(s: Seq<char>) -> Seq<char> {
    dedup::squeezed(dedup::deduped(undecorated(without_overwrites(utils::unescaped(s)))))
}

/// The text that stands for the lines between head and tail of `n` lines.
pub open spec fn omission(n: nat) -> Seq<char> {
    "\n\n... ("@ + number::decimal((n - MAX_LINES) as nat) + " lines omitted, "@ + number::decimal(
        n,
    ) + " total)\n\n"@
}

/// The head and the tail of `l`, with a count between them.
pub open spec fn head_and_tail(l: Seq<Seq<char>>) -> Seq<char> {
    text::join(l.take(MAX_LINES - TAIL_CONTEXT), "\n"@) + omission(l.len()) + text::join(
        l.skip(l.len() - TAIL_CONTEXT),
        "\n"@,
    )
}

/// `s` itself, or its head and tail if it has too many lines.
pub open spec fn within_limit(s: Seq<char>) -> (Seq<char>, bool) {
    let l = text::lines(s);
    if l.len() > MAX_LINES {
        (head_and_tail(l), true)
    } else {
        (s, false)
    }
}

/// What `filter_with_status` makes of the output `s`.
pub open spec fn filtered(s: Seq<char>, success: bool) -> (Seq<char>, bool) {
    if success {
        within_limit(cleaned(s))
    } else {
        (cleaned(s), false)
    }
}

fn part(lines: &Vec<Vec<char>>, a: usize, b: usize) -> (r: Vec<Vec<char>>)
    requires
        a <= b <= lines.len(),
    ensures
        text::views(r@) == text::views(lines@).subrange(a as int, b as int),
{
    let ghost l = text::views(lines@);
    let mut r: Vec<Vec<char>> = Vec::new();
    let mut i: usize = a;
    while i < b
        invariant
            a <= i <= b <= lines.len(),
            l == text::views(lines@),
            text::views(r@) =~= l.subrange(a as int, i as int),
        decreases b - i,
    {
        let ghost before = r@;
        let line = copy(&lines[i]);
        r.push(line);
        proof {
            text::lemma_views_push(before, line);
            assert(l.subrange(a as int, i + 1) =~= l.subrange(a as int, i as int).push(line@));
        }
        i += 1;
    }
    r
}

/// Keeps the head and the tail of output that has too many lines, so that neither the
/// beginning nor the errors and summaries at the end are lost. The second result tells
/// whether lines were omitted.
pub fn limit_lines(output: String) -> (r: (String, bool))
    ensures
        (r.0@, r.1) == within_limit(output@),
{
    let lines = lines_of(output.as_str());
    let ghost l = text::views(lines@);
    assert(l.len() == lines.len());
    if lines.len() > MAX_LINES {
        let n = lines.len();
        let mut out = joined(&part(&lines, 0, MAX_LINES - TAIL_CONTEXT), "\n");
        assert(l.subrange(0, MAX_LINES - TAIL_CONTEXT) =~= l.take(MAX_LINES - TAIL_CONTEXT));
        assert(l.subrange(n - TAIL_CONTEXT, n as int) =~= l.skip(n - TAIL_CONTEXT));
        let ghost head = out@;
        extend_str(&mut out, "\n\n... (");
        extend(&mut out, &decimal_of(n - MAX_LINES));
        extend_str(&mut out, " lines omitted, ");
        extend(&mut out, &decimal_of(n));
        extend_str(&mut out, " total)\n\n");
        assert(out@ =~= head + omission(n as nat));
        extend(&mut out, &joined(&part(&lines, n - TAIL_CONTEXT, n), "\n"));
        (string_of(&out), true)
    } else {
        (output, false)
    }
}

/// Filters output with awareness of the command's exit status.
///
/// In turn: ANSI escape codes are stripped, then what carriage returns overwrite, then
/// decorative separators and excessive blank lines; noisy and identical neighbouring lines
/// are collapsed. If the command succeeded, head and tail of what is left are kept; if it
/// failed nothing is truncated, so that error messages are never lost. The second result
/// tells whether lines were omitted.
pub fn filter_with_status(output: &str, success: bool) -> (r: (String, bool))
    ensures
        (r.0@, r.1) == filtered(output@, success),
{
    let clean = utils::strip_ansi(output);
    let clean = strip_cr_overwrites(clean.as_str());
    let clean = strip_decorative(clean.as_str());
    let deduped = dedup::dedup_output(clean.as_str());
    let deduped = dedup::dedup_identical(deduped.as_str());
    if !success {
        return (deduped, false);
    }
    limit_lines(deduped)
}

/// Applies all noise reduction filters to the output of a command that succeeded.
pub fn filter(output: &str) -> (r: (String, bool))
    ensures
        (r.0@, r.1) == filtered(output@, true),
{
    filter_with_status(output, true)
}

/// Lighter filter: only ANSI escape codes are stripped and identical neighbouring lines
/// collapsed. For commands where noise expressions might match real content.
pub fn filter_light(output: &str) -> (r: String)
    ensures
        r@ == dedup::squeezed(utils::unescaped(output@)),
{
    let clean = utils::strip_ansi(output);
    dedup::dedup_identical(clean.as_str())
}

proof fn lemma_after_return(s: Seq<char>, j: int)
    requires
        0 <= j <= s.len(),
    ensures
        0 <= after_return(s, j) <= j,
        forall|k: int| after_return(s, j) <= k < j ==> #[trigger] s[k] != '\r',
    decreases j,
{
    if j > 0 && s[j - 1] != '\r' {
        lemma_after_return(s, j - 1);
    }
}

/// No carriage return is left where what they overwrite has been stripped.
pub proof fn lemma_no_returns_left(s: Seq<char>)
    ensures
        text::lacks(without_overwrites(s), '\r'),
{
    let l = overwritten_lines(text::lines(s));
    assert forall|i: int| 0 <= i < l.len() implies text::lacks(#[trigger] l[i], '\r') by {
        let line = text::lines(s)[i];
        lemma_after_return(line, line.len() as int);
        assert forall|k: int| 0 <= k < l[i].len() implies #[trigger] l[i][k] != '\r' by {
            assert(l[i][k] == line[after_return(line, line.len() as int) + k]);
        }
    }
    reveal_strlit("\n");
    text::lemma_join_lacks(l, "\n"@, '\r');
}

/// The line shows nothing.
pub open spec fn is_blank(line: Seq<char>) -> bool {
    text::trim(line).len() == 0
}

/// All of the first `n` lines are blank.
pub open spec fn blank_up_to(l: Seq<Seq<char>>, n: int) -> bool {
    forall|k: int| 0 <= k < n ==> is_blank(#[trigger] l[k])
}

/// Of the lines from `j` on, the next three are not all blank.
pub open spec fn breaks_soon(l: Seq<Seq<char>>, j: int) -> bool {
    !(is_blank(l[j]) && is_blank(l[j + 1]) && is_blank(l[j + 2]))
}

proof fn lemma_thin(l: Seq<Seq<char>>, deco: Seq<bool>, i: int, blanks: nat)
    requires
        0 <= i <= l.len(),
        deco.len() == l.len(),
        blanks <= 2,
    ensures
        forall|n: int|
            0 <= n <= thin_from(l, deco, i, blanks).len() && #[trigger] blank_up_to(
                thin_from(l, deco, i, blanks),
                n,
            ) ==> n + blanks <= 2,
        forall|j: int|
            0 <= j && j + 2 < thin_from(l, deco, i, blanks).len() ==> #[trigger] breaks_soon(
                thin_from(l, deco, i, blanks),
                j,
            ),
        thin_from(l, deco, i, blanks).len() <= l.len() - i,
        forall|j: int|
            0 <= j < thin_from(l, deco, i, blanks).len() ==> #[trigger] is_kept(
                l,
                deco,
                thin_from(l, deco, i, blanks)[j],
            ),
    decreases l.len() - i,
{
    if i < l.len() {
        let whole = thin_from(l, deco, i, blanks);
        let keeps = if is_blank(l[i]) {
            blanks < 2
        } else {
            !deco[i]
        };
        let next: nat = if is_blank(l[i]) && blanks < 2 {
            blanks + 1
        } else if is_blank(l[i]) || deco[i] {
            blanks
        } else {
            0
        };
        lemma_thin(l, deco, i + 1, next);
        let rest = thin_from(l, deco, i + 1, next);
        if keeps {
            assert(whole == seq![l[i]] + rest);
            assert forall|n: int|
                0 <= n <= whole.len() && #[trigger] blank_up_to(whole, n) implies n + blanks <= 2 by {
                if n > 0 {
                    assert(is_blank(whole[0]));
                    assert forall|k: int| 0 <= k < n - 1 implies is_blank(#[trigger] rest[k]) by {
                        assert(whole[k + 1] == rest[k]);
                        assert(is_blank(whole[k + 1]));
                    }
                    assert(blank_up_to(rest, n - 1));
                }
            }
            assert forall|j: int|
                0 <= j && j + 2 < whole.len() implies #[trigger] breaks_soon(whole, j) by {
                if j == 0 {
                    if is_blank(whole[0]) && is_blank(whole[1]) && is_blank(whole[2]) {
                        assert(whole[1] == rest[0]);
                        assert(whole[2] == rest[1]);
                        assert(blank_up_to(rest, 2));
                    }
                } else {
                    assert(breaks_soon(rest, j - 1));
                    assert(whole[j] == rest[j - 1]);
                    assert(whole[j + 1] == rest[j]);
                    assert(whole[j + 2] == rest[j + 1]);
                }
            }
            assert forall|j: int| 0 <= j < whole.len() implies #[trigger] is_kept(
                l,
                deco,
                whole[j],
            ) by {
                if j == 0 {
                    assert(whole[0] == l[i]);
                } else {
                    assert(whole[j] == rest[j - 1]);
                    assert(is_kept(l, deco, rest[j - 1]));
                }
            }
        } else {
            assert(whole == rest);
        }
    }
}

/// `line` is one of the lines `l`, and blank or not decorative.
pub open spec fn is_kept(l: Seq<Seq<char>>, deco: Seq<bool>, line: Seq<char>) -> bool {
    exists|k: int| 0 <= k < l.len() && #[trigger] l[k] == line && (is_blank(line) || !deco[k])
}

/// What is left when decorations are stripped are lines of the output itself, none of them
/// decorative, and no three blank lines in a row.
pub proof fn lemma_undecorated(l: Seq<Seq<char>>, deco: Seq<bool>)
    requires
        deco.len() == l.len(),
    ensures
        forall|j: int|
            0 <= j && j + 2 < thin_from(l, deco, 0, 0).len() ==> #[trigger] breaks_soon(
                thin_from(l, deco, 0, 0),
                j,
            ),
        thin_from(l, deco, 0, 0).len() <= l.len(),
        forall|j: int|
            0 <= j < thin_from(l, deco, 0, 0).len() ==> #[trigger] is_kept(
                l,
                deco,
                thin_from(l, deco, 0, 0)[j],
            ),
{
    lemma_thin(l, deco, 0, 0);
}

/// Where lines are omitted, the first and the last lines of the output are still there: it
/// begins with all that stands before its tail, up to the limit, and ends with its tail.
pub proof fn lemma_head_and_tail_kept(s: Seq<char>)
    requires
        text::lines(s).len() > MAX_LINES,
    ensures
        within_limit(s).1,
        text::starts_with(
            within_limit(s).0,
            text::join(text::lines(s).take(MAX_LINES - TAIL_CONTEXT), "\n"@),
        ),
        text::ends_with(
            within_limit(s).0,
            text::join(text::lines(s).skip(text::lines(s).len() - TAIL_CONTEXT), "\n"@),
        ),
{
    let l = text::lines(s);
    let head = text::join(l.take(MAX_LINES - TAIL_CONTEXT), "\n"@);
    let tail = text::join(l.skip(l.len() - TAIL_CONTEXT), "\n"@);
    let whole = within_limit(s).0;
    assert(whole.subrange(0, head.len() as int) =~= head);
    assert(whole.subrange(whole.len() - tail.len(), whole.len() as int) =~= tail);
}

/// Nothing is omitted from the output of a command that failed, nor from output within the
/// limit.
pub proof fn lemma_nothing_omitted(s: Seq<char>, success: bool)
    requires
        !success || text::lines(cleaned(s)).len() <= MAX_LINES,
    ensures
        filtered(s, success) == (cleaned(s), false),
{
}

/// A blank line before `i`, with nothing but blank and decorative lines between it and `i`.
pub open spec fn blank_before(l: Seq<Seq<char>>, deco: Seq<bool>, b: int, i: int) -> bool {
    &&& 0 <= b < i
    &&& text::trim(l[b]).len() == 0
    &&& forall|m: int| b < m < i ==> (#[trigger] text::trim(l[m])).len() == 0 || deco[m]
}

/// Line `k` is neither blank nor decorative, or it is blank and not behind two other blank
/// lines with nothing but blank and decorative lines from the first of them on.
pub open spec fn stays(l: Seq<Seq<char>>, deco: Seq<bool>, k: int) -> bool {
    if text::trim(l[k]).len() == 0 {
        !exists|a: int, b: int|
            a < b && #[trigger] blank_before(l, deco, a, k) && #[trigger] blank_before(
                l,
                deco,
                b,
                k,
            )
    } else {
        !deco[k]
    }
}

proof fn lemma_thin_picks(l: Seq<Seq<char>>, deco: Seq<bool>, i: int, blanks: nat)
    requires
        0 <= i <= l.len(),
        deco.len() == l.len(),
        blanks <= 2,
        blanks == 0 ==> forall|b: int| !#[trigger] blank_before(l, deco, b, i),
        blanks >= 1 ==> exists|b: int| #[trigger] blank_before(l, deco, b, i),
        blanks >= 2 <==> exists|a: int, b: int|
            a < b && #[trigger] blank_before(l, deco, a, i) && #[trigger] blank_before(
                l,
                deco,
                b,
                i,
            ),
    ensures
        thin_from(l, deco, i, blanks) == text::picked(l, i, |k: int| stays(l, deco, k)),
    decreases l.len() - i,
{
    let p = |k: int| stays(l, deco, k);
    text::lemma_picked_step(l, i, p);
    if i < l.len() {
        let blank = text::trim(l[i]).len() == 0;
        let next: nat = if blank && blanks < 2 {
            blanks + 1
        } else if blank || deco[i] {
            blanks
        } else {
            0
        };
        assert forall|b: int| #[trigger] blank_before(l, deco, b, i + 1) implies (b < i
            ==> blank_before(l, deco, b, i)) && (blank || deco[i] || b == i) by {
            if b < i {
                assert(text::trim(l[i]).len() == 0 || deco[i]);
                assert forall|m: int| b < m < i implies (#[trigger] text::trim(l[m])).len() == 0
                    || deco[m] by {}
            }
        }
        if blank || deco[i] {
            assert forall|b: int| #[trigger] blank_before(l, deco, b, i) implies blank_before(
                l,
                deco,
                b,
                i + 1,
            ) by {
                assert forall|m: int| b < m < i + 1 implies (#[trigger] text::trim(l[m])).len() == 0
                    || deco[m] by {}
            }
        }
        if blank {
            assert(blank_before(l, deco, i, i + 1));
        }
        if blanks >= 1 {
            let b = choose|b: int| #[trigger] blank_before(l, deco, b, i);
            if blank || deco[i] {
                assert(blank_before(l, deco, b, i + 1));
            }
        }
        if next >= 2 {
            if blanks >= 2 {
                let (a, b) = choose|a: int, b: int|
                    a < b && #[trigger] blank_before(l, deco, a, i) && #[trigger] blank_before(
                        l,
                        deco,
                        b,
                        i,
                    );
                assert(blank_before(l, deco, a, i + 1) && blank_before(l, deco, b, i + 1));
            } else {
                let b = choose|b: int| #[trigger] blank_before(l, deco, b, i);
                assert(blank_before(l, deco, b, i + 1) && blank_before(l, deco, i, i + 1));
            }
        } else if exists|a: int, b: int|
            a < b && #[trigger] blank_before(l, deco, a, i + 1) && #[trigger] blank_before(
                l,
                deco,
                b,
                i + 1,
            ) {
            let (a, b) = choose|a: int, b: int|
                a < b && #[trigger] blank_before(l, deco, a, i + 1) && #[trigger] blank_before(
                    l,
                    deco,
                    b,
                    i + 1,
                );
            assert(blank_before(l, deco, a, i));
            if b < i {
                assert(blank_before(l, deco, b, i));
            }
            assert(false);
        }
        lemma_thin_picks(l, deco, i + 1, next);
    }
}

/// What is left when decorations are stripped: every line that is neither blank nor
/// decorative, and of the blank lines between two of those the first two, all in their order.
pub proof fn lemma_thin_exactly(l: Seq<Seq<char>>, deco: Seq<bool>)
    requires
        deco.len() == l.len(),
    ensures
        thin_from(l, deco, 0, 0) == text::picked(l, 0, |k: int| stays(l, deco, k)),
{
    lemma_thin_picks(l, deco, 0, 0);
}

proof fn lemma_thin_content(l: Seq<Seq<char>>, deco: Seq<bool>, i: int, blanks: nat)
    requires
        0 <= i <= l.len(),
        deco.len() == l.len(),
    ensures
        thin_from(l, deco, i, blanks).filter(|line: Seq<char>| text::trim(line).len() > 0)
            == text::picked(l, i, |k: int| text::trim(l[k]).len() > 0 && !deco[k]),
    decreases l.len() - i,
{
    reveal(Seq::filter);
    let p = |k: int| text::trim(l[k]).len() > 0 && !deco[k];
    let shows = |line: Seq<char>| text::trim(line).len() > 0;
    text::lemma_picked_step(l, i, p);
    if i < l.len() {
        let one = seq![l[i]];
        assert(one.drop_last() =~= Seq::<Seq<char>>::empty());
        assert(one.drop_last().filter(shows) =~= Seq::<Seq<char>>::empty());
        let next: nat = if text::trim(l[i]).len() == 0 && blanks < 2 {
            blanks + 1
        } else if text::trim(l[i]).len() == 0 || deco[i] {
            blanks
        } else {
            0
        };
        let rest = thin_from(l, deco, i + 1, next);
        lemma_thin_content(l, deco, i + 1, next);
        Seq::filter_distributes_over_add(one, rest, shows);
        if p(i) {
            assert(one.filter(shows) =~= one);
        } else if text::trim(l[i]).len() == 0 {
            assert(one.filter(shows) =~= Seq::<Seq<char>>::empty());
            assert(Seq::<Seq<char>>::empty() + rest.filter(shows) =~= rest.filter(shows));
        }
    }
}

/// Every line that shows something and is not decorative stays, in its order, and no other
/// line that shows something does.
pub proof fn lemma_content_stays(l: Seq<Seq<char>>, deco: Seq<bool>)
    requires
        deco.len() == l.len(),
    ensures
        thin_from(l, deco, 0, 0).filter(|line: Seq<char>| text::trim(line).len() > 0)
            == text::picked(l, 0, |k: int| text::trim(l[k]).len() > 0 && !deco[k]),
{
    lemma_thin_content(l, deco, 0, 0);
}

/// What carriage returns leave of a line is what follows the last of them, or the whole line
/// if there is none.
pub proof fn lemma_overwritten(line: Seq<char>)
    ensures
        text::lacks(overwritten(line), '\r'),
        text::lacks(line, '\r') ==> overwritten(line) == line,
        exists|k: int|
            0 <= k <= line.len() && overwritten(line) == #[trigger] line.skip(k) && (k == 0
                || line[k - 1] == '\r'),
{
    let n = line.len() as int;
    let k = after_return(line, n);
    lemma_after_return(line, n);
    lemma_return_before(line, n);
    assert(overwritten(line) =~= line.skip(k));
    assert forall|m: int| 0 <= m < overwritten(line).len() implies #[trigger] overwritten(line)[m]
        != '\r' by {
        assert(overwritten(line)[m] == line[k + m]);
    }
    if text::lacks(line, '\r') {
        assert(k == 0);
        assert(overwritten(line) =~= line);
    }
}

proof fn lemma_return_before(s: Seq<char>, j: int)
    requires
        0 <= j <= s.len(),
    ensures
        after_return(s, j) == 0 || s[after_return(s, j) - 1] == '\r',
    decreases j,
{
    if j > 0 && s[j - 1] != '\r' {
        lemma_return_before(s, j - 1);
    }
}

/// A line of `n` equal neighbours, as it is shown: itself, or with its number behind it.
pub open spec fn is_line_of(shown: Seq<char>, line: Seq<char>) -> bool {
    shown == line || exists|n: nat| n > 1 && shown == line + " (x"@ + #[trigger] number::decimal(n)
        + ")"@
}

/// One of the lines is `line`, perhaps with its number behind it.
pub open spec fn shows_line(l: Seq<Seq<char>>, line: Seq<char>) -> bool {
    exists|j: int| 0 <= j < l.len() && is_line_of(#[trigger] l[j], line)
}

proof fn lemma_squeeze_shows(l: Seq<Seq<char>>, i: int, k: int)
    requires
        0 <= i <= k < l.len(),
    ensures
        shows_line(dedup::squeeze_from(l, i), l[k]),
    decreases l.len() - i,
{
    dedup::lemma_run_end(l, i, l[i]);
    let e = dedup::run_end(l, i, l[i]);
    let whole = dedup::squeeze_from(l, i);
    if k < e {
        assert(l[k] == l[i]);
        if e - i > 1 {
            assert(number::decimal((e - i) as nat) == number::decimal((e - i) as nat));
        }
        assert(is_line_of(whole[0], l[k]));
    } else {
        lemma_squeeze_shows(l, e, k);
        let rest = dedup::squeeze_from(l, e);
        let j = choose|j: int| 0 <= j < rest.len() && is_line_of(#[trigger] rest[j], l[k]);
        assert(whole[j + 1] == rest[j]);
    }
}

/// All of these are lines, and joining them loses none that has characters.
proof fn lemma_joined_has(parts: Seq<Seq<char>>, x: Seq<char>)
    requires
        forall|j: int| 0 <= j < parts.len() ==> text::is_line(#[trigger] parts[j]),
        parts.contains(x),
        x.len() > 0,
    ensures
        text::lines(text::join(parts, "\n"@)).contains(x),
        forall|j: int|
            0 <= j < text::lines(text::join(parts, "\n"@)).len() ==> parts.contains(
                #[trigger] text::lines(text::join(parts, "\n"@))[j],
            ),
{
    text::lemma_lines_of_any_join(parts);
    let l = text::lines(text::join(parts, "\n"@));
    let k = choose|k: int| 0 <= k < parts.len() && parts[k] == x;
    assert(l[k] == x);
    assert forall|j: int| 0 <= j < l.len() implies parts.contains(#[trigger] l[j]) by {
        assert(l[j] == parts[j]);
    }
}

/// A line of the output is never lost, if it shows something once the escape sequences and what
/// carriage returns overwrite are gone, does not only decorate, and is no noise: it is still
/// there when all is filtered, perhaps with the number of its repetitions behind it. So no
/// error of a command that failed is lost.
pub proof fn lemma_no_error_lost(s: Seq<char>, k: int)
    requires
        0 <= k < text::lines(utils::unescaped(s)).len(),
    ensures
        ({
            let line = overwritten(text::lines(utils::unescaped(s))[k]);
            text::trim(line).len() > 0 && !patterns::matches(decoration_patterns()[0], line)
                && dedup::noise_of(line) is None ==> exists|parts: Seq<Seq<char>>|
                filtered(s, false).0 == #[trigger] text::join(parts, "\n"@) && shows_line(
                    parts,
                    line,
                )
        }),
{
    let first = text::lines(utils::unescaped(s));
    let x = overwritten(first[k]);
    if text::trim(x).len() > 0 && !patterns::matches(decoration_patterns()[0], x)
        && dedup::noise_of(x) is None {
        text::lemma_trim_len(x);
        let a = overwritten_lines(first);
        text::lemma_lines_lack(utils::unescaped(s));
        assert forall|j: int| 0 <= j < a.len() implies text::is_line(#[trigger] a[j])
            && text::lacks(a[j], '\r') by {
            lemma_overwritten(first[j]);
            assert(text::lacks(first[j], '\n'));
            let m = choose|m: int|
                0 <= m <= first[j].len() && a[j] == #[trigger] first[j].skip(m) && (m == 0
                    || first[j][m - 1] == '\r');
            assert forall|y: int| 0 <= y < a[j].len() implies #[trigger] a[j][y] != '\n' by {
                assert(a[j][y] == first[j][m + y]);
            }
        }
        assert(a[k] == x);
        lemma_joined_has(a, x);
        let b = text::lines(without_overwrites(utils::unescaped(s)));
        let deco = decorations(b);
        let kb = choose|j: int| 0 <= j < b.len() && b[j] == x;
        let t = thin_from(b, deco, 0, 0);
        lemma_thin_exactly(b, deco);
        text::lemma_picked_has(b, 0, |m: int| stays(b, deco, m), kb);
        lemma_undecorated(b, deco);
        assert forall|j: int| 0 <= j < t.len() implies text::is_line(#[trigger] t[j]) by {
            assert(is_kept(b, deco, t[j]));
            let m = choose|m: int|
                0 <= m < b.len() && #[trigger] b[m] == t[j] && (is_blank(t[j]) || !deco[m]);
            assert(a.contains(b[m]));
        }
        lemma_joined_has(t, x);
        let c = text::lines(undecorated(without_overwrites(utils::unescaped(s))));
        let kc = choose|j: int| 0 <= j < c.len() && c[j] == x;
        let noise = dedup::noise_classes(c);
        let d = dedup::collapse(c, noise);
        dedup::lemma_content_kept(c, noise, 0, kc);
        assert forall|j: int| 0 <= j < c.len() implies text::is_line(#[trigger] c[j]) by {
            assert(t.contains(c[j]));
        }
        dedup::lemma_collapse_lines(c, noise);
        lemma_joined_has(d, x);
        let e = text::lines(
            dedup::deduped(undecorated(without_overwrites(utils::unescaped(s)))),
        );
        let ke = choose|j: int| 0 <= j < e.len() && e[j] == x;
        lemma_squeeze_shows(e, 0, ke);
        assert(filtered(s, false).0 == text::join(dedup::squeeze_from(e, 0), "\n"@));
    }
}

/// Output is cut only if the command succeeded and it has more lines than the limit, and then
/// the lines left out are counted: with the head and the tail they are all lines.
pub proof fn lemma_cut_only_long(s: Seq<char>, success: bool)
    ensures
        filtered(s, success).1 <==> success && text::lines(cleaned(s)).len() > 500,
        !filtered(s, success).1 ==> filtered(s, success).0 == cleaned(s),
        filtered(s, true).1 ==> {
            let l = text::lines(cleaned(s));
            filtered(s, true).0 == text::join(l.take(470), "\n"@) + "\n\n... ("@ + number::decimal(
                (l.len() - 500) as nat,
            ) + " lines omitted, "@ + number::decimal(l.len()) + " total)\n\n"@ + text::join(
                l.skip(l.len() - 30),
                "\n"@,
            )
        },
{
    let l = text::lines(cleaned(s));
    if l.len() > 500 {
        assert(filtered(s, true).0 =~= text::join(l.take(470), "\n"@) + "\n\n... ("@
            + number::decimal((l.len() - 500) as nat) + " lines omitted, "@ + number::decimal(
            l.len(),
        ) + " total)\n\n"@ + text::join(l.skip(l.len() - 30), "\n"@));
    }
}

/// Output is cleaned in five steps, each on all of what the one before left: escape sequences,
/// what carriage returns overwrite, decorations, noise, and equal neighbours.
pub proof fn lemma_cleaned(s: Seq<char>)
    ensures
        ({
            let plain = utils::unescaped(s);
            let a = text::join(
                text::lines(plain).map_values(|line: Seq<char>| overwritten(line)),
                "\n"@,
            );
            let l = text::lines(a);
            let deco = l.map_values(
                |line: Seq<char>| patterns::matches(decoration_patterns()[0], line),
            );
            let b = text::join(text::picked(l, 0, |k: int| stays(l, deco, k)), "\n"@);
            let m = text::lines(b);
            let noise = m.map_values(|line: Seq<char>| dedup::noise_of(line));
            let c = text::join(dedup::collapse(m, noise), "\n"@);
            cleaned(s) == text::join(dedup::squeeze_from(text::lines(c), 0), "\n"@)
        }),
{
    let plain = utils::unescaped(s);
    assert(overwritten_lines(text::lines(plain)) =~= text::lines(plain).map_values(
        |line: Seq<char>| overwritten(line),
    ));
    let a = without_overwrites(plain);
    let l = text::lines(a);
    let deco = l.map_values(|line: Seq<char>| patterns::matches(decoration_patterns()[0], line));
    assert(decorations(l) =~= deco);
    lemma_thin_exactly(l, deco);
    let m = text::lines(undecorated(a));
    assert(dedup::noise_classes(m) =~= m.map_values(|line: Seq<char>| dedup::noise_of(line)));
}

}
