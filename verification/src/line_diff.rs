//! Which lines one text has and another has not.

use vstd::prelude::*;

use crate::number;
use crate::number::decimal_of;
use crate::text;
use crate::text::{chars_of, copy, extend, extend_str, is_among};

verus! {

/// Lines that are none of `other`.
pub open spec fn not_in(other: Seq<Seq<char>>) -> spec_fn(Seq<char>) -> bool {
    |line: Seq<char>| !other.contains(line)
}

/// The lines of `a` that `b` has not, in order, repetitions included.
pub open spec fn absent(a: Seq<Seq<char>>, b: Seq<Seq<char>>) -> Seq<Seq<char>> {
    text::keep(a, not_in(b))
}

/// The lines of `a` that `b` has not.
pub fn absent_lines(a: &Vec<Vec<char>>, b: &Vec<Vec<char>>) -> (r: Vec<Vec<char>>)
    ensures
        text::views(r@) == absent(text::views(a@), text::views(b@)),
{
    let ghost l = text::views(a@);
    let ghost p = not_in(text::views(b@));
    let mut r: Vec<Vec<char>> = Vec::new();
    let mut i: usize = 0;
    assert(text::views(r@) + text::keep(l, p) == text::keep(l, p));
    while i < a.len()
        invariant
            i <= a.len(),
            l == text::views(a@),
            p == not_in(text::views(b@)),
            text::views(r@) + text::keep_from(l, i as int, p) == text::keep(l, p),
        decreases a.len() - i,
    {
        if !is_among(&a[i], b) {
            let ghost before = r@;
            let kept = copy(&a[i]);
            r.push(kept);
            proof {
                text::lemma_views_push(before, kept);
                text::lemma_shift(text::views(before), kept@, text::keep_from(l, i + 1, p));
            }
        }
        i += 1;
    }
    assert(text::views(r@) + Seq::<Seq<char>>::empty() == text::views(r@));
    r
}

/// The number of lines that are shown of `n` when at most `max` are.
pub open spec fn shown(n: nat, max: nat) -> nat {
    if n < max {
        n
    } else {
        max
    }
}

/// The first `max` lines of `l`, each behind `mark`, and a count of the others behind
/// `rest`.
pub open spec fn listing(
    l: Seq<Seq<char>>,
    mark: Seq<char>,
    max: nat,
    rest: Seq<char>,
) -> Seq<Seq<char>> {
    Seq::new(shown(l.len(), max), |i: int| mark + l[i]) + if l.len() > max {
        seq![rest + "... ("@ + number::decimal((l.len() - max) as nat) + " more)"@]
    } else {
        Seq::empty()
    }
}

/// Appends to `out` the first `max` of `lines`, each behind `mark`, and a count of the
/// others behind `rest`.
pub fn list_lines(
    out: &mut Vec<Vec<char>>,
    lines: &Vec<Vec<char>>,
    mark: &str,
    max: usize,
    rest: &str,
)
    ensures
        text::views(final(out)@) == text::views(old(out)@) + listing(
            text::views(lines@),
            mark@,
            max as nat,
            rest@,
        ),
{
    let ghost l = text::views(lines@);
    let ghost start = text::views(out@);
    let n: usize = if lines.len() < max {
        lines.len()
    } else {
        max
    };
    let mut i: usize = 0;
    while i < n
        invariant
            i <= n <= lines.len(),
            l == text::views(lines@),
            text::views(out@) =~= start + Seq::new(i as nat, |i: int| mark@ + l[i]),
        decreases n - i,
    {
        let ghost before = out@;
        let mut line = chars_of(mark);
        extend(&mut line, &lines[i]);
        out.push(line);
        proof {
            text::lemma_views_push(before, line);
        }
        i += 1;
    }
    if lines.len() > max {
        let ghost before = out@;
        let mut line = chars_of(rest);
        extend_str(&mut line, "... (");
        extend(&mut line, &decimal_of(lines.len() - max));
        extend_str(&mut line, " more)");
        out.push(line);
        proof {
            text::lemma_views_push(before, line);
        }
    }
    assert(text::views(out@) =~= start + listing(l, mark@, max as nat, rest@));
}

/// Nothing is absent exactly where every line of `a` is one of `b`.
pub proof fn lemma_absent_empty(a: Seq<Seq<char>>, b: Seq<Seq<char>>)
    ensures
        absent(a, b).len() == 0 <==> forall|i: int| 0 <= i < a.len() ==> b.contains(#[trigger] a[i]),
{
    let p = not_in(b);
    text::lemma_keep(a, 0, p);
    if absent(a, b).len() == 0 {
        assert forall|i: int| 0 <= i < a.len() implies b.contains(#[trigger] a[i]) by {
            if !b.contains(a[i]) {
                assert(p(a[i]));
                assert(absent(a, b).contains(a[i]));
            }
        }
    }
    if forall|i: int| 0 <= i < a.len() ==> b.contains(#[trigger] a[i]) {
        if absent(a, b).len() > 0 {
            let x = absent(a, b)[0];
            assert(p(x));
            assert(a.contains(x));
            let i = choose|i: int| 0 <= i < a.len() && a[i] == x;
            assert(b.contains(a[i]));
        }
    }
}

/// The lines that are absent are those of `a` that are none of `b`, all of them, in their
/// order and as often as they stand there.
pub proof fn lemma_absent_is_filter(a: Seq<Seq<char>>, b: Seq<Seq<char>>)
    ensures
        absent(a, b) == a.filter(|line: Seq<char>| !b.contains(line)),
{
    text::lemma_keep_is_filter(a, not_in(b));
    assert(not_in(b) =~= (|line: Seq<char>| !b.contains(line)));
}

/// From position `at` on, `parts` lists `l`: the first `max` lines, each behind `mark`, then,
/// if there are more, how many more there are.
pub open spec fn lists(
    parts: Seq<Seq<char>>,
    at: int,
    l: Seq<Seq<char>>,
    mark: Seq<char>,
    max: nat,
    rest: Seq<char>,
) -> bool {
    &&& forall|k: int| 0 <= k < l.len() && k < max ==> #[trigger] parts[at + k] == mark + l[k]
    &&& l.len() > max ==> parts[at + max] == rest + "... ("@ + number::decimal(
        (l.len() - max) as nat,
    ) + " more)"@
}

/// How many lines it takes to list `n` lines, at most `max` of them in full.
pub open spec fn lines_for(n: nat, max: nat) -> nat {
    if n > max {
        max + 1
    } else {
        n
    }
}

/// A listing shows the first lines, up to the most that are shown, and counts the others.
pub proof fn lemma_listing(l: Seq<Seq<char>>, mark: Seq<char>, max: nat, rest: Seq<char>)
    ensures
        listing(l, mark, max, rest).len() == lines_for(l.len(), max),
        lists(listing(l, mark, max, rest), 0, l, mark, max, rest),
{
    let parts = listing(l, mark, max, rest);
    assert forall|k: int| 0 <= k < l.len() && k < max implies #[trigger] parts[0 + k] == mark
        + l[k] by {}
}

/// A listing is one wherever it stands.
pub proof fn lemma_listing_moved(
    a: Seq<Seq<char>>,
    parts: Seq<Seq<char>>,
    b: Seq<Seq<char>>,
    l: Seq<Seq<char>>,
    mark: Seq<char>,
    max: nat,
    rest: Seq<char>,
)
    requires
        parts.len() == lines_for(l.len(), max),
        lists(parts, 0, l, mark, max, rest),
    ensures
        lists(a + parts + b, a.len() as int, l, mark, max, rest),
{
    let whole = a + parts + b;
    assert forall|k: int| 0 <= k < l.len() && k < max implies #[trigger] whole[a.len() + k] == mark
        + l[k] by {
        assert(parts[0 + k] == mark + l[k]);
        assert(whole[a.len() + k] == parts[k]);
    }
    if l.len() > max {
        assert(whole[a.len() + max as int] == parts[0 + max as int]);
    }
}

}
