//! HTML comments in lines of text.

use vstd::prelude::*;

use crate::text;
use crate::text::{chars_of, extend, find_at, slice};

verus! {

/// What `s` shows from position `i` on, and whether a comment is still open at its end.
///
/// A comment reaches from `<!--` to the next `-->`; the two may share their dashes, as in
/// `<!-->`. With `inside`, position `i` lies in a comment.
pub open spec fn shown_from(s: Seq<char>, i: int, inside: bool) -> (Seq<char>, bool)
    decreases s.len() - i,
    when 0 <= i <= s.len()
{
    if inside {
        let k = text::next_at(s, i, "-->"@);
        proof {
            lemma_marks();
            text::lemma_next_at(s, i, "-->"@);
        }
        if k < s.len() {
            shown_from(s, k + 3, false)
        } else {
            (Seq::empty(), true)
        }
    } else {
        let k = text::next_at(s, i, "<!--"@);
        proof {
            lemma_marks();
            text::lemma_next_at(s, i, "<!--"@);
        }
        if k < s.len() {
            let rest = shown_from(s, k + 2, true);
            (s.subrange(i, k) + rest.0, rest.1)
        } else {
            (s.subrange(i, s.len() as int), false)
        }
    }
}

/// What a line shows without its comments, and whether a comment is still open at its end.
/// With `inside`, the line begins in a comment.
pub open spec fn shown(line: Seq<char>, inside: bool) -> (Seq<char>, bool) {
    shown_from(line, 0, inside)
}

/// A part of the line lies in a comment.
pub open spec fn is_commented(line: Seq<char>, inside: bool) -> bool {
    inside || text::contains(line, "<!--"@)
}

/// The marks of a comment, character by character.
pub proof fn lemma_marks()
    ensures
        "<!--"@ == seq!['<', '!', '-', '-'],
        "-->"@ == seq!['-', '-', '>'],
{
    reveal_strlit("<!--");
    reveal_strlit("-->");
    assert("<!--"@ =~= seq!['<', '!', '-', '-']);
    assert("-->"@ =~= seq!['-', '-', '>']);
}

/// Cuts the comments from a line.
pub fn without_comments(line: &Vec<char>, inside: bool) -> (r: (Vec<char>, bool))
    ensures
        (r.0@, r.1) == shown(line@, inside),
{
    let opening = chars_of("<!--");
    let closing = chars_of("-->");
    let ghost whole = shown(line@, inside);
    let mut out: Vec<char> = Vec::new();
    let mut i: usize = 0;
    let mut open: bool = inside;
    assert(out@ + whole.0 == whole.0);
    loop
        invariant
            i <= line.len(),
            opening@ == "<!--"@,
            closing@ == "-->"@,
            whole == shown(line@, inside),
            out@ + shown_from(line@, i as int, open).0 == whole.0,
            shown_from(line@, i as int, open).1 == whole.1,
        decreases line.len() - i,
    {
        proof {
            lemma_marks();
            text::lemma_next_at(line@, i as int, if open { "-->"@ } else { "<!--"@ });
        }
        let ghost before = out@;
        if open {
            let k = find_at(line, i, &closing);
            if k == line.len() {
                assert(out@ + Seq::<char>::empty() == out@);
                return (out, true);
            }
            i = k + 3;
            open = false;
        } else {
            let k = find_at(line, i, &opening);
            extend(&mut out, &slice(line, i, k));
            if k == line.len() {
                return (out, false);
            }
            proof {
                let rest = shown_from(line@, k + 2, true).0;
                assert(before + (line@.subrange(i as int, k as int) + rest) =~= out@ + rest);
            }
            i = k + 2;
            open = true;
        }
    }
}

/// A line without a comment shows all of itself.
pub proof fn lemma_plain_line(line: Seq<char>)
    requires
        !is_commented(line, false),
    ensures
        shown(line, false) == (line, false),
{
    text::lemma_next_at(line, 0, "<!--"@);
    assert(line.subrange(0, line.len() as int) =~= line);
}

proof fn lemma_shown_shift(a: Seq<char>, b: Seq<char>, i: int, inside: bool)
    requires
        0 <= i <= b.len(),
    ensures
        shown_from(a + b, a.len() + i, inside) == shown_from(b, i, inside),
    decreases b.len() - i,
{
    let s = a + b;
    lemma_marks();
    if inside {
        text::lemma_next_at_shift(a, b, i, "-->"@);
        text::lemma_next_at(b, i, "-->"@);
        let k = text::next_at(b, i, "-->"@);
        if k < b.len() {
            lemma_shown_shift(a, b, k + 3, false);
        }
    } else {
        text::lemma_next_at_shift(a, b, i, "<!--"@);
        text::lemma_next_at(b, i, "<!--"@);
        let k = text::next_at(b, i, "<!--"@);
        assert(s.subrange(a.len() + i, a.len() + k) =~= b.subrange(i, k));
        if k < b.len() {
            lemma_shown_shift(a, b, k + 2, true);
        }
    }
}

/// What stands before and after a comment in a line is shown, and nothing of the comment.
pub proof fn lemma_comment_cut(before: Seq<char>, comment: Seq<char>, after: Seq<char>)
    requires
        !text::contains(before, "<!--"@),
        !text::contains("--"@ + comment, "-->"@),
    ensures
        shown(before + "<!--"@ + comment + "-->"@ + after, false) == (
            before + shown(after, false).0,
            shown(after, false).1,
        ),
{
    lemma_marks();
    reveal_strlit("--");
    assert("--"@ =~= seq!['-', '-']);
    let s = before + "<!--"@ + comment + "-->"@ + after;
    let k = before.len() as int;
    assert(s.subrange(k, k + 4) =~= "<!--"@);
    assert forall|j: int| 0 <= j < k implies !text::stands_at(s, j, "<!--"@) by {
        if text::stands_at(s, j, "<!--"@) {
            let here = s.subrange(j, j + 4);
            assert(here[0] == s[j] && here[1] == s[j + 1] && here[2] == s[j + 2] && here[3] == s[j
                + 3]);
            assert(s[k] == '<');
            assert(j + 4 <= k);
            assert(before.subrange(j, j + 4) =~= here);
            assert(text::stands_at(before, j, "<!--"@));
        }
    }
    text::lemma_next_at_is(s, 0, k, "<!--"@);
    let inner = "--"@ + comment;
    let e = k + 4 + comment.len();
    assert(s.subrange(e, e + 3) =~= "-->"@);
    assert forall|j: int| k + 2 <= j < e implies !text::stands_at(s, j, "-->"@) by {
        if text::stands_at(s, j, "-->"@) {
            let here = s.subrange(j, j + 3);
            assert(here[0] == s[j] && here[1] == s[j + 1] && here[2] == s[j + 2]);
            assert(s[e] == '-' && s[e + 1] == '-');
            assert(j + 3 <= e);
            assert(inner.subrange(j - k - 2, j - k + 1) =~= here);
            assert(text::stands_at(inner, j - k - 2, "-->"@));
        }
    }
    text::lemma_next_at_is(s, k + 2, e, "-->"@);
    let front = before + "<!--"@ + comment + "-->"@;
    assert(front + after =~= s);
    lemma_shown_shift(front, after, 0, false);
    assert(s.subrange(0, k) =~= before);
    assert(shown_from(s, k + 2, true) == shown_from(s, e + 3, false));
}

/// A comment that is not closed hides the rest of its line, and is open at its end.
pub proof fn lemma_comment_open(before: Seq<char>, comment: Seq<char>)
    requires
        !text::contains(before, "<!--"@),
        !text::contains("--"@ + comment, "-->"@),
    ensures
        shown(before + "<!--"@ + comment, false) == (before, true),
{
    lemma_marks();
    reveal_strlit("--");
    assert("--"@ =~= seq!['-', '-']);
    let s = before + "<!--"@ + comment;
    let k = before.len() as int;
    assert(s.subrange(k, k + 4) =~= "<!--"@);
    assert forall|j: int| 0 <= j < k implies !text::stands_at(s, j, "<!--"@) by {
        if text::stands_at(s, j, "<!--"@) {
            let here = s.subrange(j, j + 4);
            assert(here[0] == s[j] && here[1] == s[j + 1] && here[2] == s[j + 2] && here[3] == s[j
                + 3]);
            assert(s[k] == '<');
            assert(j + 4 <= k);
            assert(before.subrange(j, j + 4) =~= here);
            assert(text::stands_at(before, j, "<!--"@));
        }
    }
    text::lemma_next_at_is(s, 0, k, "<!--"@);
    let inner = "--"@ + comment;
    text::lemma_next_at(s, k + 2, "-->"@);
    let e = text::next_at(s, k + 2, "-->"@);
    if e < s.len() {
        assert(text::stands_at(s, e, "-->"@));
        assert(inner.subrange(e - k - 2, e - k + 1) =~= s.subrange(e, e + 3));
        assert(text::stands_at(inner, e - k - 2, "-->"@));
    }
    assert(shown_from(s, k + 2, true) == (Seq::<char>::empty(), true));
    assert(s.subrange(0, k) =~= before);
    assert(before + Seq::<char>::empty() =~= before);
    assert(shown_from(s, 0, false) == (s.subrange(0, k) + Seq::<char>::empty(), true));
}

/// A line that begins in a comment shows nothing up to the end of the comment, and then what
/// stands behind it; without an end it shows nothing, and the comment stays open.
pub proof fn lemma_comment_continued(comment: Seq<char>, after: Seq<char>)
    requires
        !text::contains(comment, "-->"@),
    ensures
        shown(comment + "-->"@ + after, true) == shown(after, false),
        shown(comment, true) == (Seq::<char>::empty(), true),
{
    lemma_marks();
    let s = comment + "-->"@ + after;
    let e = comment.len() as int;
    assert(s.subrange(e, e + 3) =~= "-->"@);
    assert forall|j: int| 0 <= j < e implies !text::stands_at(s, j, "-->"@) by {
        if text::stands_at(s, j, "-->"@) {
            let here = s.subrange(j, j + 3);
            assert(here[0] == s[j] && here[1] == s[j + 1] && here[2] == s[j + 2]);
            assert(s[e] == '-' && s[e + 1] == '-');
            assert(j + 3 <= e);
            assert(comment.subrange(j, j + 3) =~= here);
            assert(text::stands_at(comment, j, "-->"@));
        }
    }
    text::lemma_next_at_is(s, 0, e, "-->"@);
    let front = comment + "-->"@;
    lemma_shown_shift(front, after, 0, false);
    text::lemma_next_at(comment, 0, "-->"@);
}

}
