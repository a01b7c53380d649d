//! Collapsing of noisy and of repeated lines.

use vstd::prelude::*;

use crate::number;
use crate::number::decimal_of;
use crate::patterns;
use crate::text;
use crate::text::{
    chars_of, copy, extend, extend_str, joined_lines, lines_of, same, string_of,
};

verus! {

/// Expressions for lines that are noise: the progress reports of build tools and package
/// managers. Lines that the same expression catches first are similar to each other.
pub open spec fn noise_patterns() -> Seq<Seq<char>> {
    seq![
        r"^#\s+\S+"@,
        r"^\s*Compiling\s+\S+\s+v"@,
        r"^\s*Downloading\s+\S+\s+v"@,
        r"^\s*Downloaded\s+\d+\s+crate"@,
        r"^npm warn\s"@,
        r"^npm WARN\s"@,
        r"^WARN\s"@,
        r"^\s*Requirement already satisfied"@,
        r"^\s*Collecting\s+\S+"@,
        r"^\s*Using cached\s+"@,
        r"^\s*warning\["@,
        r"^\s*[\[({]?[#=\->.·]+[\])}]?\s*\d+%"@,
        r"^[⠋⠙⠹⠸⠼⠴⠦⠧⠇⠏✓✗●○◉◎]"@,
        r"^\s*✓\s+\d+\s+modules?\s+transformed"@,
        r"^\s*\[vite\]\s+optimized\s+deps"@,
        r"^\s*hmr\s+update\s+"@,
        r"^\s*cache\s+(hit|miss|bypass)"@,
        r"^\s*Bundling\s+"@,
        r"^\s*Transforming\s+"@,
        r"^\s*Processing\s+"@,
        r"^\s*Generating\s+"@,
    ]
}

/// The noise expressions, compiled.
fn noise_set() -> (set: regex::RegexSet)
    ensures
        patterns::set_patterns(set) == noise_patterns(),
{
    let list: Vec<&'static str> = vec![
        // Go: "# package/path" build lines
        r"^#\s+\S+",
        // Cargo
        r"^\s*Compiling\s+\S+\s+v",
        r"^\s*Downloading\s+\S+\s+v",
        r"^\s*Downloaded\s+\d+\s+crate",
        // npm and pnpm warnings
        r"^npm warn\s",
        r"^npm WARN\s",
        r"^WARN\s",
        // pip
        r"^\s*Requirement already satisfied",
        r"^\s*Collecting\s+\S+",
        r"^\s*Using cached\s+",
        // Rust warnings
        r"^\s*warning\[",
        // Progress bars and spinners
        r"^\s*[\[({]?[#=\->.·]+[\])}]?\s*\d+%",
        r"^[⠋⠙⠹⠸⠼⠴⠦⠧⠇⠏✓✗●○◉◎]",
        // Vite, Webpack and Turbo
        r"^\s*✓\s+\d+\s+modules?\s+transformed",
        r"^\s*\[vite\]\s+optimized\s+deps",
        r"^\s*hmr\s+update\s+",
        r"^\s*cache\s+(hit|miss|bypass)",
        // Generic build noise
        r"^\s*Bundling\s+",
        r"^\s*Transforming\s+",
        r"^\s*Processing\s+",
        r"^\s*Generating\s+",
    ];
    assert(text::literals(list@) =~= noise_patterns());
    patterns::compile(&list)
}

/// The first noise expression that catches `line`.
pub open spec fn noise_of(line: Seq<char>) -> Option<usize> {
    patterns::first_match(noise_patterns(), line)
}

/// For each line the first noise expression that catches it.
pub open spec fn noise_classes(l: Seq<Seq<char>>) -> Seq<Option<usize>> {
    Seq::new(l.len(), |i: int| noise_of(l[i]))
}

/// The position in the noise expressions of the first that catches `line`.
pub fn match_noise(line: &str) -> (r: Option<usize>)
    ensures
        r == noise_of(line@),
{
    patterns::first_matching(&noise_set(), line)
}

/// For each line the first noise expression that catches it.
fn classify(lines: &Vec<Vec<char>>) -> (r: Vec<Option<usize>>)
    ensures
        r@ == noise_classes(text::views(lines@)),
{
    let set = noise_set();
    let mut r: Vec<Option<usize>> = Vec::new();
    let mut i: usize = 0;
    while i < lines.len()
        invariant
            i <= lines.len(),
            patterns::set_patterns(set) == noise_patterns(),
            r@ == noise_classes(text::views(lines@)).take(i as int),
        decreases lines.len() - i,
    {
        r.push(patterns::first_matching(&set, string_of(&lines[i]).as_str()));
        i += 1;
        assert(r@ =~= noise_classes(text::views(lines@)).take(i as int));
    }
    assert(r@ =~= noise_classes(text::views(lines@)));
    r
}

/// Where the entries `x` that begin at `i` end.
pub open spec fn run_end<T>(c: Seq<T>, i: int, x: T) -> int
    decreases c.len() - i,
{
    if 0 <= i < c.len() && c[i] == x {
        run_end(c, i + 1, x)
    } else {
        i
    }
}

pub proof fn lemma_run_end<T>(c: Seq<T>, i: int, x: T)
    requires
        0 <= i <= c.len(),
    ensures
        i <= run_end(c, i, x) <= c.len(),
        i < c.len() && c[i] == x ==> i < run_end(c, i, x),
        forall|j: int| i <= j < run_end(c, i, x) ==> c[j] == x,
        run_end(c, i, x) < c.len() ==> c[run_end(c, i, x)] != x,
    decreases c.len() - i,
{
    if i < c.len() && c[i] == x {
        lemma_run_end(c, i + 1, x);
    }
}

/// The line that stands for `n` omitted lines.
pub open spec fn similar_omitted(n: nat) -> Seq<char> {
    "  ... ("@ + number::decimal(n) + " similar lines omitted)"@
}

/// The lines from `i` on, where of three or more neighbours of one noise class only the
/// first stays, with a count of the others.
pub open spec fn collapse_from(l: Seq<Seq<char>>, c: Seq<Option<usize>>, i: int) -> Seq<Seq<char>>
    decreases l.len() - i,
    when 0 <= i <= l.len() && c.len() == l.len()
{
    if i >= l.len() {
        Seq::empty()
    } else if c[i] is None {
        seq![l[i]] + collapse_from(l, c, i + 1)
    } else {
        let j = run_end(c, i, c[i]);
        proof {
            lemma_run_end(c, i, c[i]);
        }
        if j - i >= 3 {
            seq![l[i], similar_omitted((j - i - 1) as nat)] + collapse_from(l, c, j)
        } else {
            l.subrange(i, j) + collapse_from(l, c, j)
        }
    }
}

/// The lines `l` with the neighbours of one noise class in `c` collapsed.
pub open spec fn collapse(l: Seq<Seq<char>>, c: Seq<Option<usize>>) -> Seq<Seq<char>> {
    collapse_from(l, c, 0)
}

/// Collapses neighbouring lines of the same noise class.
fn collapse_lines(lines: &Vec<Vec<char>>, noise: &Vec<Option<usize>>) -> (result: Vec<Vec<char>>)
    requires
        noise.len() == lines.len(),
    ensures
        text::views(result@) == collapse(text::views(lines@), noise@),
{
    let ghost l = text::views(lines@);
    let ghost c = noise@;
    let mut result: Vec<Vec<char>> = Vec::new();
    let mut i: usize = 0;
    assert(text::views(result@) + collapse(l, c) == collapse(l, c));
    while i < lines.len()
        invariant
            i <= lines.len(),
            noise.len() == lines.len(),
            l == text::views(lines@),
            c == noise@,
            text::views(result@) + collapse_from(l, c, i as int) == collapse(l, c),
        decreases lines.len() - i,
    {
        let ghost before = result@;
        if noise[i].is_none() {
            let kept = copy(&lines[i]);
            result.push(kept);
            proof {
                text::lemma_views_push(before, kept);
                text::lemma_shift(text::views(before), kept@, collapse_from(l, c, i + 1));
            }
            i += 1;
        } else {
            let mut j: usize = i + 1;
            proof {
                lemma_run_end(c, i as int, c[i as int]);
            }
            while j < lines.len() && noise[j].is_some() && noise[j].unwrap() == noise[i].unwrap()
                invariant
                    i < j <= lines.len(),
                    noise.len() == lines.len(),
                    c == noise@,
                    c[i as int] is Some,
                    run_end(c, i as int, c[i as int]) == run_end(c, j as int, c[i as int]),
                decreases lines.len() - j,
            {
                j += 1;
            }
            assert(j == run_end(c, i as int, c[i as int]));
            if j - i >= 3 {
                let kept = copy(&lines[i]);
                result.push(kept);
                let mut note = chars_of("  ... (");
                extend(&mut note, &decimal_of(j - i - 1));
                extend_str(&mut note, " similar lines omitted)");
                result.push(note);
                proof {
                    assert(text::views(result@) + collapse_from(l, c, j as int) =~= text::views(
                        before,
                    ) + collapse_from(l, c, i as int));
                }
            } else {
                let mut k: usize = i;
                while k < j
                    invariant
                        i <= k <= j <= lines.len(),
                        l == text::views(lines@),
                        text::views(result@) =~= text::views(before) + l.subrange(
                            i as int,
                            k as int,
                        ),
                    decreases j - k,
                {
                    let ghost mid = result@;
                    let kept = copy(&lines[k]);
                    result.push(kept);
                    proof {
                        text::lemma_views_push(mid, kept);
                        assert(l.subrange(i as int, k + 1) =~= l.subrange(i as int, k as int).push(
                            kept@,
                        ));
                    }
                    k += 1;
                }
                assert(text::views(result@) + collapse_from(l, c, j as int) =~= text::views(before)
                    + collapse_from(l, c, i as int));
            }
            i = j;
        }
    }
    assert(text::views(result@) + Seq::<Seq<char>>::empty() == text::views(result@));
    result
}

/// What `dedup_output` makes of `s`.
pub open spec fn deduped(s: Seq<char>) -> Seq<char> {
    text::join(collapse(text::lines(s), noise_classes(text::lines(s))), "\n"@)
}

/// Collapses the lines of `output`, given the noise class of each of them.
pub fn dedup_classified(output: &str, noise: &Vec<Option<usize>>) -> (r: String)
    requires
        noise.len() == text::lines(output@).len(),
    ensures
        r@ == text::join(collapse(text::lines(output@), noise@), "\n"@),
{
    let lines = lines_of(output);
    assert(text::views(lines@).len() == lines.len());
    joined_lines(&collapse_lines(&lines, noise))
}

/// Collapses repeated and noisy lines in command output.
///
/// Three or more neighbouring lines that the same noise expression catches are replaced by
/// the first of them and a count of the others. All other lines stay as they are.
pub fn dedup_output(output: &str) -> (r: String)
    ensures
        r@ == deduped(output@),
{
    let noise = classify(&lines_of(output));
    dedup_classified(output, &noise)
}

/// A line that occurs `n` times in a row.
pub open spec fn counted(line: Seq<char>, n: nat) -> Seq<char> {
    if n > 1 {
        line + " (x"@ + number::decimal(n) + ")"@
    } else {
        line
    }
}

/// The lines from `i` on, each run of equal lines as one line with its count.
pub open spec fn squeeze_from(l: Seq<Seq<char>>, i: int) -> Seq<Seq<char>>
    decreases l.len() - i,
    when 0 <= i <= l.len()
{
    if i >= l.len() {
        Seq::empty()
    } else {
        let j = run_end(l, i, l[i]);
        proof {
            lemma_run_end(l, i, l[i]);
        }
        seq![counted(l[i], (j - i) as nat)] + squeeze_from(l, j)
    }
}

/// What `dedup_identical` makes of `s`.
pub open spec fn squeezed(s: Seq<char>) -> Seq<char> {
    text::join(squeeze_from(text::lines(s), 0), "\n"@)
}

/// Collapses identical neighbouring lines: a line that stands there N times in a row
/// becomes "line (xN)".
pub fn dedup_identical(output: &str) -> (r: String)
    ensures
        r@ == squeezed(output@),
{
    let lines = lines_of(output);
    let ghost l = text::views(lines@);
    let mut result: Vec<Vec<char>> = Vec::new();
    let mut i: usize = 0;
    assert(text::views(result@) + squeeze_from(l, 0) == squeeze_from(l, 0));
    while i < lines.len()
        invariant
            i <= lines.len(),
            l == text::views(lines@),
            text::views(result@) + squeeze_from(l, i as int) == squeeze_from(l, 0),
        decreases lines.len() - i,
    {
        let ghost before = result@;
        let mut j: usize = i + 1;
        proof {
            lemma_run_end(l, i as int, l[i as int]);
        }
        while j < lines.len() && same(&lines[j], &lines[i])
            invariant
                i < j <= lines.len(),
                l == text::views(lines@),
                run_end(l, i as int, l[i as int]) == run_end(l, j as int, l[i as int]),
            decreases lines.len() - j,
        {
            j += 1;
        }
        let mut line = copy(&lines[i]);
        if j - i > 1 {
            extend_str(&mut line, " (x");
            extend(&mut line, &decimal_of(j - i));
            extend_str(&mut line, ")");
        }
        result.push(line);
        proof {
            text::lemma_views_push(before, line);
            text::lemma_shift(text::views(before), line@, squeeze_from(l, j as int));
        }
        i = j;
    }
    assert(text::views(result@) + Seq::<Seq<char>>::empty() == text::views(result@));
    joined_lines(&result)
}

/// How many entries of `c`, up to `n`, are a noise class.
pub open spec fn noise_count(c: Seq<Option<usize>>, n: int) -> nat
    decreases n,
{
    if n <= 0 || n > c.len() {
        0
    } else {
        noise_count(c, n - 1) + if c[n - 1] is Some {
            1nat
        } else {
            0nat
        }
    }
}

/// Counts the lines of `output` and those of them that are noise.
pub fn estimate_savings(output: &str) -> (r: (usize, usize))
    ensures
        r.0 == text::lines(output@).len(),
        r.1 == noise_count(noise_classes(text::lines(output@)), r.0 as int),
        r.1 <= r.0,
{
    let lines = lines_of(output);
    let noise = classify(&lines);
    assert(text::views(lines@).len() == lines.len());
    let mut count: usize = 0;
    let mut i: usize = 0;
    while i < noise.len()
        invariant
            i <= noise.len(),
            count <= i,
            count == noise_count(noise@, i as int),
        decreases noise.len() - i,
    {
        if noise[i].is_some() {
            count += 1;
        }
        i += 1;
    }
    (lines.len(), count)
}

/// Lines that are no noise stay as they are.
pub proof fn lemma_no_noise_kept(l: Seq<Seq<char>>, c: Seq<Option<usize>>, i: int)
    requires
        0 <= i <= l.len(),
        c.len() == l.len(),
        forall|j: int| 0 <= j < c.len() ==> #[trigger] c[j] is None,
    ensures
        collapse_from(l, c, i) == l.skip(i),
    decreases l.len() - i,
{
    if i < l.len() {
        lemma_no_noise_kept(l, c, i + 1);
        assert(c[i] is None);
        assert(seq![l[i]] + l.skip(i + 1) =~= l.skip(i));
    } else {
        assert(l.skip(i) =~= Seq::<Seq<char>>::empty());
    }
}

/// Every line that is no noise is still there.
pub proof fn lemma_content_kept(l: Seq<Seq<char>>, c: Seq<Option<usize>>, i: int, k: int)
    requires
        0 <= i <= k < l.len(),
        c.len() == l.len(),
        c[k] is None,
    ensures
        collapse_from(l, c, i).contains(l[k]),
    decreases l.len() - i,
{
    let whole = collapse_from(l, c, i);
    if c[i] is None {
        let rest = collapse_from(l, c, i + 1);
        if i == k {
            assert(whole[0] == l[k]);
        } else {
            lemma_content_kept(l, c, i + 1, k);
            let j = choose|j: int| 0 <= j < rest.len() && rest[j] == l[k];
            assert(whole[j + 1] == l[k]);
        }
    } else {
        lemma_run_end(c, i, c[i]);
        let e = run_end(c, i, c[i]);
        assert(e <= k);
        lemma_content_kept(l, c, e, k);
        let rest = collapse_from(l, c, e);
        let j = choose|j: int| 0 <= j < rest.len() && rest[j] == l[k];
        if e - i >= 3 {
            assert(whole[j + 2] == l[k]);
        } else {
            assert(whole[j + (e - i)] == l[k]);
        }
    }
}

/// Collapsing never makes more lines.
pub proof fn lemma_collapse_len(l: Seq<Seq<char>>, c: Seq<Option<usize>>, i: int)
    requires
        0 <= i <= l.len(),
        c.len() == l.len(),
    ensures
        collapse_from(l, c, i).len() <= l.len() - i,
    decreases l.len() - i,
{
    if i < l.len() {
        if c[i] is None {
            lemma_collapse_len(l, c, i + 1);
        } else {
            lemma_run_end(c, i, c[i]);
            lemma_collapse_len(l, c, run_end(c, i, c[i]));
        }
    }
}

/// The classes of the lines `l`, by `class`.
pub open spec fn classes(l: Seq<Seq<char>>, class: spec_fn(Seq<char>) -> Option<usize>) -> Seq<
    Option<usize>,
> {
    Seq::new(l.len(), |i: int| class(l[i]))
}

/// The entry at `j` and the two after it are one noise class.
pub open spec fn is_triple(c: Seq<Option<usize>>, j: int) -> bool {
    c[j] is Some && c[j] == c[j + 1] && c[j] == c[j + 2]
}

/// No three neighbours are of one noise class.
pub open spec fn is_settled(c: Seq<Option<usize>>) -> bool {
    forall|j: int| 0 <= j && j + 2 < c.len() ==> !#[trigger] is_triple(c, j)
}

proof fn lemma_settled_kept(l: Seq<Seq<char>>, c: Seq<Option<usize>>, i: int)
    requires
        0 <= i <= l.len(),
        c.len() == l.len(),
        is_settled(c),
    ensures
        collapse_from(l, c, i) == l.skip(i),
    decreases l.len() - i,
{
    if i < l.len() {
        if c[i] is None {
            lemma_settled_kept(l, c, i + 1);
            assert(seq![l[i]] + l.skip(i + 1) =~= l.skip(i));
        } else {
            lemma_run_end(c, i, c[i]);
            let e = run_end(c, i, c[i]);
            if e - i >= 3 {
                assert(is_triple(c, i));
            }
            lemma_settled_kept(l, c, e);
            assert(l.subrange(i, e) + l.skip(e) =~= l.skip(i));
        }
    } else {
        assert(l.skip(i) =~= Seq::<Seq<char>>::empty());
    }
}

proof fn lemma_collapse_settles(
    l: Seq<Seq<char>>,
    class: spec_fn(Seq<char>) -> Option<usize>,
    i: int,
)
    requires
        0 <= i <= l.len(),
        forall|n: nat| class(#[trigger] similar_omitted(n)) is None,
    ensures
        is_settled(classes(collapse_from(l, classes(l, class), i), class)),
        i < l.len() ==> collapse_from(l, classes(l, class), i).len() > 0 && collapse_from(
            l,
            classes(l, class),
            i,
        )[0] == l[i],
    decreases l.len() - i,
{
    let c = classes(l, class);
    let whole = collapse_from(l, c, i);
    if i < l.len() {
        lemma_run_end(c, i, c[i]);
        let e = if c[i] is None {
            i + 1
        } else {
            run_end(c, i, c[i])
        };
        let rest = collapse_from(l, c, e);
        let after = classes(rest, class);
        lemma_collapse_settles(l, class, e);
        let d = classes(whole, class);
        let n: int = if c[i] is Some && e - i >= 3 {
            2
        } else {
            e - i
        };
        assert(whole.len() == n + rest.len());
        assert(forall|j: int| 0 <= j < rest.len() ==> whole[n + j] == rest[j]);
        assert forall|j: int| 0 <= j && j + 2 < d.len() implies !#[trigger] is_triple(d, j) by {
            if j >= n {
                assert(d[j] == after[j - n] && d[j + 1] == after[j - n + 1] && d[j + 2] == after[j
                    - n + 2]);
                assert(!is_triple(after, j - n));
            } else if c[i] is Some && e - i >= 3 {
                assert(whole[1] == similar_omitted((e - i - 1) as nat));
                assert(d[1] is None);
            } else {
                assert(whole[j] == l[i + j]);
                assert(c[i + j] == c[i]);
                assert(d[j] == c[i]);
                if c[i] is Some {
                    assert(rest[0] == l[e]);
                    assert(d[n] == c[e]);
                }
            }
        }
    }
}

/// Collapsing never makes more lines, and a second pass changes nothing, where the note of
/// omitted lines is no noise itself.
pub proof fn lemma_collapse_again(
    l: Seq<Seq<char>>,
    class: spec_fn(Seq<char>) -> Option<usize>,
)
    requires
        forall|n: nat| class(#[trigger] similar_omitted(n)) is None,
    ensures
        collapse(l, classes(l, class)).len() <= l.len(),
        collapse(
            collapse(l, classes(l, class)),
            classes(collapse(l, classes(l, class)), class),
        ) == collapse(l, classes(l, class)),
{
    let once = collapse(l, classes(l, class));
    lemma_collapse_len(l, classes(l, class), 0);
    lemma_collapse_settles(l, class, 0);
    lemma_settled_kept(once, classes(once, class), 0);
    assert(once.skip(0) =~= once);
}

/// What holds of the lines and of every note holds of what they collapse to, and a last line
/// that is not empty leaves one that is not.
proof fn lemma_collapse_all(
    l: Seq<Seq<char>>,
    c: Seq<Option<usize>>,
    i: int,
    p: spec_fn(Seq<char>) -> bool,
)
    requires
        0 <= i <= l.len(),
        c.len() == l.len(),
        forall|j: int| 0 <= j < l.len() ==> p(#[trigger] l[j]),
        forall|n: nat| p(#[trigger] similar_omitted(n)),
    ensures
        forall|j: int|
            0 <= j < collapse_from(l, c, i).len() ==> p(#[trigger] collapse_from(l, c, i)[j]),
        i < l.len() ==> collapse_from(l, c, i).len() > 0,
        i < l.len() && l.last().len() > 0 ==> collapse_from(l, c, i).last().len() > 0,
    decreases l.len() - i,
{
    let whole = collapse_from(l, c, i);
    if i < l.len() {
        lemma_run_end(c, i, c[i]);
        let e = if c[i] is None {
            i + 1
        } else {
            run_end(c, i, c[i])
        };
        let rest = collapse_from(l, c, e);
        lemma_collapse_all(l, c, e, p);
        let n: int = if c[i] is Some && e - i >= 3 {
            2
        } else {
            e - i
        };
        assert(whole.len() == n + rest.len());
        assert(forall|j: int| 0 <= j < rest.len() ==> whole[n + j] == rest[j]);
        reveal_strlit("  ... (");
        assert("  ... ("@.len() == 7);
        assert forall|j: int| 0 <= j < whole.len() implies p(#[trigger] whole[j]) by {
            if j >= n {
                assert(whole[j] == rest[j - n]);
            } else if c[i] is Some && e - i >= 3 && j == 1 {
                assert(whole[1] == similar_omitted((e - i - 1) as nat));
            } else {
                assert(whole[j] == l[i + j]);
            }
        }
        if e < l.len() {
            assert(whole.last() == rest.last());
        } else if c[i] is Some && e - i >= 3 {
            assert(whole.last() == similar_omitted((e - i - 1) as nat));
        } else {
            assert(whole.last() == l.last());
        }
    }
}

/// A line without a line ending in it.
pub open spec fn one_line() -> spec_fn(Seq<char>) -> bool {
    |s: Seq<char>| text::lacks(s, '\n') && text::lacks(s, '\r')
}

proof fn lemma_note_is_one_line(n: nat)
    ensures
        one_line()(similar_omitted(n)),
{
    reveal_strlit("  ... (");
    reveal_strlit(" similar lines omitted)");
    number::lemma_decimal_lacks(n, '\n');
    number::lemma_decimal_lacks(n, '\r');
}

/// The lines of what `dedup_output` makes of a text are the collapsed lines of the text.
proof fn lemma_deduped_lines(s: Seq<char>)
    requires
        text::lacks(s, '\r'),
        !text::ends_with(s, "\n\n"@),
        s.len() > 0,
        s != "\n"@,
    ensures
        text::lines(deduped(s)) == collapse(text::lines(s), noise_classes(text::lines(s))),
{
    let l = text::lines(s);
    let c = noise_classes(l);
    text::lemma_lines_lack(s);
    text::lemma_last_line(s);
    assert forall|n: nat| one_line()(#[trigger] similar_omitted(n)) by {
        lemma_note_is_one_line(n);
    }
    assert forall|j: int| 0 <= j < l.len() implies one_line()(#[trigger] l[j]) by {
        assert(text::lacks(l[j], '\n') && text::lacks(l[j], '\r'));
    }
    lemma_collapse_all(l, c, 0, one_line());
    let once = collapse(l, c);
    assert forall|j: int| 0 <= j < once.len() implies text::is_line(#[trigger] once[j]) by {
        assert(one_line()(once[j]));
    }
    text::lemma_lines_of_join(once);
}

/// `dedup_output` never makes more lines, and a second pass changes nothing, where the note
/// of omitted lines is no noise itself. That holds of text without carriage returns that does
/// not end with an empty line: the last line ending of a text is not kept.
pub proof fn lemma_dedup_again(s: Seq<char>)
    requires
        text::lacks(s, '\r'),
        !text::ends_with(s, "\n\n"@),
    ensures
        text::lines(deduped(s)).len() <= text::lines(s).len(),
        (forall|n: nat| noise_of(#[trigger] similar_omitted(n)) is None) ==> deduped(deduped(s))
            == deduped(s),
{
    let l = text::lines(s);
    let c = noise_classes(l);
    let class = |line: Seq<char>| noise_of(line);
    let once = collapse(l, c);
    lemma_collapse_len(l, c, 0);
    if s.len() == 0 {
        assert(l =~= Seq::<Seq<char>>::empty());
        assert(once =~= Seq::<Seq<char>>::empty());
        assert(deduped(s) =~= s);
    } else if s == "\n"@ {
        lemma_line_feed(s);
        let nothing = Seq::<char>::empty();
        assert(deduped(s) =~= nothing);
        assert(text::lines(nothing) =~= Seq::<Seq<char>>::empty());
        assert(deduped(nothing) =~= nothing);
    } else {
        lemma_deduped_lines(s);
        assert(c =~= classes(l, class));
        assert(noise_classes(once) =~= classes(once, class));
        if forall|n: nat| noise_of(#[trigger] similar_omitted(n)) is None {
            lemma_collapse_again(l, class);
        }
    }
}

/// A line feed alone is one empty line, and nothing is left of it.
proof fn lemma_line_feed(s: Seq<char>)
    requires
        s == "\n"@,
    ensures
        text::lines(s).len() == 1,
        deduped(s) == Seq::<char>::empty(),
{
    reveal_strlit("\n");
    assert("\n"@ =~= seq!['\n']);
    assert(text::newline()(s[0]));
    assert(text::next_where(s, 0, text::newline()) == 0);
    assert(text::lines_from(s, 1) =~= Seq::<Seq<char>>::empty());
    assert(text::line_body(s, 0, 0, true) =~= Seq::<char>::empty());
    assert(text::lines(s) =~= seq![Seq::<char>::empty()]);
    let l = text::lines(s);
    let c = noise_classes(l);
    lemma_run_end(c, 0, c[0]);
    assert(collapse_from(l, c, 1) =~= Seq::<Seq<char>>::empty());
    assert(collapse(l, c) =~= l);
}

/// Lines of which no two neighbours are equal stay as they are.
pub proof fn lemma_distinct_kept(l: Seq<Seq<char>>, i: int)
    requires
        0 <= i <= l.len(),
        forall|j: int, k: int| 0 <= j && k == j + 1 && k < l.len() ==> #[trigger] l[j]
            != #[trigger] l[k],
    ensures
        squeeze_from(l, i) == l.skip(i),
    decreases l.len() - i,
{
    if i < l.len() {
        lemma_run_end(l, i, l[i]);
        let e = run_end(l, i, l[i]);
        if e > i + 1 {
            assert(l[i] != l[i + 1]);
        }
        lemma_distinct_kept(l, i + 1);
        assert(seq![l[i]] + l.skip(i + 1) =~= l.skip(i));
    } else {
        assert(l.skip(i) =~= Seq::<Seq<char>>::empty());
    }
}

/// Squeezing never makes more lines.
pub proof fn lemma_squeeze_len(l: Seq<Seq<char>>, i: int)
    requires
        0 <= i <= l.len(),
    ensures
        squeeze_from(l, i).len() <= l.len() - i,
    decreases l.len() - i,
{
    if i < l.len() {
        lemma_run_end(l, i, l[i]);
        lemma_squeeze_len(l, run_end(l, i, l[i]));
    }
}

/// The entries from `p` up to `q` are a run of one noise class: equal, and neither the entry
/// before them nor the one after them is of that class.
pub open spec fn is_noise_run(c: Seq<Option<usize>>, p: int, q: int) -> bool {
    &&& 0 <= p < q <= c.len()
    &&& c[p] is Some
    &&& forall|m: int| p <= m < q ==> #[trigger] c[m] == c[p]
    &&& p > 0 ==> c[p - 1] != c[p]
    &&& q < c.len() ==> c[q] != c[p]
}

/// `at` tells for each line of `d` which of the lines `l` from `i` on it stands for, in order:
/// the line itself, or, for the second of a run of three or more lines of one noise class, the
/// number of lines of the run but the first.
pub open spec fn accounts_for(
    l: Seq<Seq<char>>,
    c: Seq<Option<usize>>,
    d: Seq<Seq<char>>,
    at: Seq<int>,
    i: int,
) -> bool {
    &&& at.len() == d.len()
    &&& forall|j: int| 0 <= j < at.len() ==> i <= #[trigger] at[j] < l.len()
    &&& forall|j: int, m: int| 0 <= j < m < at.len() ==> #[trigger] at[j] < #[trigger] at[m]
    &&& forall|j: int|
        #![trigger d[j]]
        0 <= j < d.len() ==> d[j] == l[at[j]] || exists|q: int| #[trigger]
            is_noise_run(c, at[j] - 1, q) && q - at[j] >= 2 && d[j] == "  ... ("@
                + number::decimal((q - at[j]) as nat) + " similar lines omitted)"@
}

/// Every line without a noise class stands there itself, and so does every line of a run of
/// fewer than three. Of a longer run the first line stands there, then the number of the
/// others, and nothing else.
pub open spec fn keeps_runs(
    l: Seq<Seq<char>>,
    c: Seq<Option<usize>>,
    d: Seq<Seq<char>>,
    at: Seq<int>,
    i: int,
) -> bool {
    &&& forall|k: int|
        #![trigger c[k]]
        i <= k < l.len() && c[k] is None ==> exists|j: int|
            0 <= j < d.len() && #[trigger] at[j] == k && d[j] == l[k]
    &&& forall|p: int, q: int|
        i <= p && #[trigger] is_noise_run(c, p, q) ==> exists|j: int|
            #[trigger] holds_run(l, d, at, j, p, q)
}

/// Position `j` of `d` and those after it hold what is left of the run from `p` up to `q`.
pub open spec fn holds_run(
    l: Seq<Seq<char>>,
    d: Seq<Seq<char>>,
    at: Seq<int>,
    j: int,
    p: int,
    q: int,
) -> bool {
    &&& 0 <= j < d.len()
    &&& at[j] == p && d[j] == l[p]
    &&& q - p == 2 ==> j + 1 < d.len() && at[j + 1] == p + 1 && d[j + 1] == l[p + 1]
    &&& q - p >= 3 ==> j + 1 < d.len() && at[j + 1] == p + 1 && d[j + 1] == "  ... ("@
        + number::decimal((q - p - 1) as nat) + " similar lines omitted)"@ && (j + 2 < d.len()
        ==> at[j + 2] >= q)
}

proof fn lemma_run_moved(
    l: Seq<Seq<char>>,
    front: Seq<Seq<char>>,
    before: Seq<int>,
    d: Seq<Seq<char>>,
    at: Seq<int>,
    j: int,
    p: int,
    q: int,
)
    requires
        holds_run(l, d, at, j, p, q),
        d.len() == at.len(),
        front.len() == before.len(),
    ensures
        holds_run(l, front + d, before + at, j + front.len(), p, q),
{
    let n = front.len() as int;
    assert((front + d)[j + n] == d[j] && (before + at)[j + n] == at[j]);
    if j + 1 < d.len() {
        assert((front + d)[j + n + 1] == d[j + 1] && (before + at)[j + n + 1] == at[j + 1]);
    }
    if j + 2 < d.len() {
        assert((before + at)[j + n + 2] == at[j + 2]);
    }
}

proof fn lemma_collapse_accounts(l: Seq<Seq<char>>, c: Seq<Option<usize>>, i: int) -> (at: Seq<int>)
    requires
        0 <= i <= l.len(),
        c.len() == l.len(),
        0 < i < l.len() && c[i] is Some ==> c[i - 1] != c[i],
    ensures
        accounts_for(l, c, collapse_from(l, c, i), at, i),
        keeps_runs(l, c, collapse_from(l, c, i), at, i),
    decreases l.len() - i,
{
    let whole = collapse_from(l, c, i);
    if i >= l.len() {
        assert forall|p: int, q: int| i <= p && #[trigger] is_noise_run(c, p, q) implies exists|
            j: int,
        | #[trigger] holds_run(l, whole, Seq::<int>::empty(), j, p, q) by {
            assert(false);
        }
        Seq::empty()
    } else {
        lemma_run_end(c, i, c[i]);
        let e = if c[i] is None {
            i + 1
        } else {
            run_end(c, i, c[i])
        };
        let at2 = lemma_collapse_accounts(l, c, e);
        let rest = collapse_from(l, c, e);
        let long = c[i] is Some && e - i >= 3;
        let n: int = if long {
            2
        } else {
            e - i
        };
        let before = Seq::new(n as nat, |j: int| i + j);
        let front = if long {
            seq![l[i], similar_omitted((e - i - 1) as nat)]
        } else {
            l.subrange(i, e)
        };
        let at = before + at2;
        if c[i] is Some {
            assert(is_noise_run(c, i, e));
        }
        assert(whole =~= front + rest);
        assert(n == 1 || n == 2);
        assert(at[0] == i && whole[0] == l[i]);
        if n == 2 {
            assert(at[1] == i + 1 && whole[1] == front[1]);
        }
        assert(forall|j: int| 0 <= j < rest.len() ==> whole[n + j] == rest[j] && at[n + j] == at2[j]);
        assert forall|j: int| 0 <= j < at.len() implies i <= #[trigger] at[j] < l.len() by {
            if j >= n {
                assert(at[j] == at2[j - n]);
            }
        }
        assert forall|j: int, m: int| 0 <= j < m < at.len() implies #[trigger] at[j]
            < #[trigger] at[m] by {
            if m >= n {
                assert(at[m] == at2[m - n]);
                if j >= n {
                    assert(at[j] == at2[j - n]);
                }
            }
        }
        assert forall|j: int|
            #![trigger whole[j]]
            0 <= j < whole.len() implies whole[j] == l[at[j]] || exists|q: int| #[trigger]
            is_noise_run(c, at[j] - 1, q) && q - at[j] >= 2 && whole[j] == similar_omitted(
                (q - at[j]) as nat,
            ) by {
            if j >= n {
                assert(whole[j] == rest[j - n] && at[j] == at2[j - n]);
            } else if j == 1 && long {
                assert(is_noise_run(c, at[1] - 1, e));
            } else if j == 1 {
                assert(front[1] == l[i + 1]);
            }
        }
        assert forall|k: int|
            #![trigger c[k]]
            i <= k < l.len() && c[k] is None implies exists|j: int|
            0 <= j < whole.len() && #[trigger] at[j] == k && whole[j] == l[k] by {
            if k == i {
                assert(at[0] == k);
            } else {
                assert(k >= e);
                let j = choose|j: int|
                    0 <= j < rest.len() && #[trigger] at2[j] == k && rest[j] == l[k];
                assert(at[n + j] == k && whole[n + j] == l[k]);
            }
        }
        assert forall|p: int, q: int| i <= p && #[trigger] is_noise_run(c, p, q) implies exists|
            j: int,
        | #[trigger] holds_run(l, whole, at, j, p, q) by {
            if p == i {
                if q < e {
                    assert(c[q] == c[i]);
                } else if q > e {
                    assert(c[e] == c[p]);
                }
                if n == 2 && long && at2.len() > 0 {
                    assert(at[2] == at2[0]);
                }
                assert(holds_run(l, whole, at, 0, p, q));
            } else if p < e {
                assert(c[p - 1] == c[i] && c[p] == c[i]);
            } else {
                let j = choose|j: int| #[trigger] holds_run(l, rest, at2, j, p, q);
                lemma_run_moved(l, front, before, rest, at2, j, p, q);
                assert(holds_run(l, whole, at, j + n, p, q));
            }
        }
        at
    }
}

/// What collapsing leaves, line by line: every line that is no noise and every line of a run of
/// fewer than three noisy lines of one class, and of a longer run its first line and the number
/// of the others, all in their order and nothing else.
pub proof fn lemma_collapse_exactly(l: Seq<Seq<char>>, c: Seq<Option<usize>>) -> (at: Seq<int>)
    requires
        c.len() == l.len(),
    ensures
        accounts_for(l, c, collapse(l, c), at, 0),
        keeps_runs(l, c, collapse(l, c), at, 0),
{
    lemma_collapse_accounts(l, c, 0)
}

/// Where the run of equal lines ends that stands at position `j` of what is left.
pub open spec fn next_run(l: Seq<Seq<char>>, at: Seq<int>, j: int) -> int {
    if j + 1 < at.len() {
        at[j + 1]
    } else {
        l.len() as int
    }
}

/// Each line of `d` stands for one run of equal neighbours among the lines `l` from `i` on, and
/// each of those lines is in one of the runs: a line that stands there once is itself, and one
/// that stands there more often has the number behind it.
pub open spec fn counts_runs(l: Seq<Seq<char>>, d: Seq<Seq<char>>, at: Seq<int>, i: int) -> bool {
    &&& at.len() == d.len()
    &&& i < l.len() ==> at.len() > 0 && at[0] == i
    &&& i >= l.len() ==> at.len() == 0
    &&& forall|j: int|
        #![trigger at[j]]
        0 <= j < at.len() ==> {
            let n = next_run(l, at, j) - at[j];
            &&& i <= at[j] < next_run(l, at, j) <= l.len()
            &&& forall|k: int| at[j] <= k < next_run(l, at, j) ==> #[trigger] l[k] == l[at[j]]
            &&& next_run(l, at, j) < l.len() ==> l[next_run(l, at, j)] != l[at[j]]
            &&& d[j] == if n == 1 {
                l[at[j]]
            } else {
                l[at[j]] + " (x"@ + number::decimal(n as nat) + ")"@
            }
        }
}

/// Squeezing leaves one line for each run of equal neighbours, with the number of them behind
/// it if that is more than one.
pub proof fn lemma_squeeze_exactly(l: Seq<Seq<char>>, i: int) -> (at: Seq<int>)
    requires
        0 <= i <= l.len(),
    ensures
        counts_runs(l, squeeze_from(l, i), at, i),
    decreases l.len() - i,
{
    if i >= l.len() {
        Seq::empty()
    } else {
        lemma_run_end(l, i, l[i]);
        let e = run_end(l, i, l[i]);
        let at2 = lemma_squeeze_exactly(l, e);
        let rest = squeeze_from(l, e);
        let whole = squeeze_from(l, i);
        let at = seq![i] + at2;
        assert(forall|j: int| 0 <= j < at2.len() ==> at[j + 1] == at2[j] && whole[j + 1] == rest[j]);
        assert(next_run(l, at, 0) == e);
        assert forall|j: int| 0 < j < at.len() implies next_run(l, at, j) == next_run(
            l,
            at2,
            j - 1,
        ) by {
            if j + 1 < at.len() {
                assert(at[j + 1] == at2[j]);
            }
        }
        assert forall|j: int|
            #![trigger at[j]]
            0 <= j < at.len() implies ({
            let n = next_run(l, at, j) - at[j];
            &&& i <= at[j] < next_run(l, at, j) <= l.len()
            &&& forall|k: int| at[j] <= k < next_run(l, at, j) ==> #[trigger] l[k] == l[at[j]]
            &&& next_run(l, at, j) < l.len() ==> l[next_run(l, at, j)] != l[at[j]]
            &&& whole[j] == if n == 1 {
                l[at[j]]
            } else {
                l[at[j]] + " (x"@ + number::decimal(n as nat) + ")"@
            }
        }) by {
            if j > 0 {
                assert(at[j] == at2[j - 1]);
                assert(whole[j] == rest[j - 1]);
            }
        }
        at
    }
}

/// The noisy lines that are counted are all lines that have a noise class.
pub proof fn lemma_noise_count(c: Seq<Option<usize>>)
    ensures
        noise_count(c, c.len() as int) == c.filter(|x: Option<usize>| x is Some).len(),
{
    lemma_noise_count_up_to(c, c.len() as int);
    assert(c.take(c.len() as int) =~= c);
}

proof fn lemma_noise_count_up_to(c: Seq<Option<usize>>, n: int)
    requires
        0 <= n <= c.len(),
    ensures
        noise_count(c, n) == c.take(n).filter(|x: Option<usize>| x is Some).len(),
    decreases n,
{
    reveal(Seq::filter);
    if n > 0 {
        lemma_noise_count_up_to(c, n - 1);
        assert(c.take(n).drop_last() =~= c.take(n - 1));
    }
}

/// What lines collapse to are lines.
pub proof fn lemma_collapse_lines(l: Seq<Seq<char>>, c: Seq<Option<usize>>)
    requires
        c.len() == l.len(),
        forall|j: int| 0 <= j < l.len() ==> text::is_line(#[trigger] l[j]),
    ensures
        forall|j: int| 0 <= j < collapse(l, c).len() ==> text::is_line(#[trigger] collapse(l, c)[j]),
{
    let p = |s: Seq<char>| text::is_line(s);
    assert forall|n: nat| p(#[trigger] similar_omitted(n)) by {
        lemma_note_is_one_line(n);
        assert(one_line()(similar_omitted(n)));
    }
    assert forall|j: int| 0 <= j < l.len() implies p(#[trigger] l[j]) by {
        assert(text::is_line(l[j]));
    }
    lemma_collapse_all(l, c, 0, p);
    assert forall|j: int| 0 <= j < collapse(l, c).len() implies text::is_line(
        #[trigger] collapse(l, c)[j],
    ) by {
        assert(p(collapse(l, c)[j]));
    }
}

}
