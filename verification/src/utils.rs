//! Small filters that several commands share.

use vstd::prelude::*;

use crate::text;
use crate::text::{chars_of, copy, extend_str, slice, string_of};

verus! {

pub open spec fn is_letter(c: char) -> bool {
    ('a' <= c <= 'z') || ('A' <= c <= 'Z')
}

/// The characters that cannot stand among the parameters of an escape sequence.
pub open spec fn no_parameter() -> spec_fn(char) -> bool {
    |c: char| !(('0' <= c <= '9') || c == ';')
}

/// Where the ANSI escape sequence that begins at `i` ends, or `i` if none begins there. A
/// sequence is the escape character, `[`, digits and semicolons, and one letter.
pub open spec fn escape_end(s: Seq<char>, i: int) -> int {
    if 0 <= i && i + 1 < s.len() && s[i] == '\x1b' && s[i + 1] == '[' {
        let j = text::next_where(s, i + 2, no_parameter());
        if j < s.len() && is_letter(s[j]) {
            j + 1
        } else {
            i
        }
    } else {
        i
    }
}

/// `s` from `i` on, without the ANSI escape sequences.
pub open spec fn unescaped_from(s: Seq<char>, i: int) -> Seq<char>
    decreases s.len() - i,
    when 0 <= i <= s.len()
{
    if i >= s.len() {
        Seq::empty()
    } else {
        let e = escape_end(s, i);
        proof {
            if i + 2 <= s.len() {
                text::lemma_next_where(s, i + 2, no_parameter());
            }
        }
        if e > i {
            unescaped_from(s, e)
        } else {
            seq![s[i]] + unescaped_from(s, i + 1)
        }
    }
}

/// `s` without the ANSI escape sequences.
pub open spec fn unescaped(s: Seq<char>) -> Seq<char> {
    unescaped_from(s, 0)
}

fn find_escape_end(s: &Vec<char>, i: usize) -> (r: usize)
    requires
        i < s.len(),
    ensures
        r == escape_end(s@, i as int),
        i <= r <= s.len(),
{
    if s[i] != '\x1b' || s.len() - i < 2 || s[i + 1] != '[' {
        return i;
    }
    let mut j: usize = i + 2;
    while j < s.len() && (('0' <= s[j] && s[j] <= '9') || s[j] == ';')
        invariant
            i + 2 <= j <= s.len(),
            text::next_where(s@, i + 2, no_parameter()) == text::next_where(
                s@,
                j as int,
                no_parameter(),
            ),
        decreases s.len() - j,
    {
        j += 1;
    }
    if j < s.len() && (('a' <= s[j] && s[j] <= 'z') || ('A' <= s[j] && s[j] <= 'Z')) {
        j + 1
    } else {
        i
    }
}

/// Strips ANSI escape sequences.
pub fn strip_ansi(output: &str) -> (r: String)
    ensures
        r@ == unescaped(output@),
{
    let s = chars_of(output);
    let mut out: Vec<char> = Vec::new();
    let mut i: usize = 0;
    assert(out@ + unescaped(s@) == unescaped(s@));
    while i < s.len()
        invariant
            i <= s.len(),
            out@ + unescaped_from(s@, i as int) == unescaped(s@),
        decreases s.len() - i,
    {
        let e = find_escape_end(&s, i);
        if e > i {
            i = e;
        } else {
            proof {
                text::lemma_shift(out@, s@[i as int], unescaped_from(s@, i + 1));
            }
            out.push(s[i]);
            i += 1;
        }
    }
    assert(out@ + Seq::<char>::empty() == out@);
    string_of(&out)
}

/// `s`, cut to at most `max` characters, the last three then being dots.
pub open spec fn shortened(s: Seq<char>, max: nat) -> Seq<char> {
    if s.len() <= max {
        s
    } else if max < 3 {
        "..."@
    } else {
        s.take(max - 3) + "..."@
    }
}

/// Cuts a text to at most `max` characters.
pub fn truncate(s: &Vec<char>, max: usize) -> (r: Vec<char>)
    ensures
        r@ == shortened(s@, max as nat),
{
    if s.len() <= max {
        copy(s)
    } else if max < 3 {
        chars_of("...")
    } else {
        let mut r = slice(s, 0, max - 3);
        extend_str(&mut r, "...");
        r
    }
}

/// A text without escape characters stays as it is.
pub proof fn lemma_plain_text_kept(s: Seq<char>, i: int)
    requires
        0 <= i <= s.len(),
        text::lacks(s, '\x1b'),
    ensures
        unescaped_from(s, i) == s.skip(i),
    decreases s.len() - i,
{
    if i < s.len() {
        lemma_plain_text_kept(s, i + 1);
        assert(s[i] != '\x1b');
        assert(seq![s[i]] + s.skip(i + 1) =~= s.skip(i));
    } else {
        assert(s.skip(i) =~= Seq::<char>::empty());
    }
}

/// Stripping escape sequences leaves no more characters than there were.
pub proof fn lemma_unescaped_len(s: Seq<char>, i: int)
    requires
        0 <= i <= s.len(),
    ensures
        unescaped_from(s, i).len() <= s.len() - i,
    decreases s.len() - i,
{
    if i < s.len() {
        if i + 2 <= s.len() {
            text::lemma_next_where(s, i + 2, no_parameter());
        }
        let e = escape_end(s, i);
        if e > i {
            lemma_unescaped_len(s, e);
        } else {
            lemma_unescaped_len(s, i + 1);
        }
    }
}

/// A shortened text has at most `max` characters, if there is room for the dots.
pub proof fn lemma_shortened_len(s: Seq<char>, max: nat)
    requires
        max >= 3,
    ensures
        shortened(s, max).len() <= max,
{
    reveal_strlit("...");
    assert("..."@.len() == 3);
}

/// Text without an escape character stays before what is stripped of the rest.
pub proof fn lemma_plain_prefix(a: Seq<char>, b: Seq<char>)
    requires
        text::lacks(a, '\x1b'),
    ensures
        unescaped(a + b) == a + unescaped(b),
    decreases a.len(),
{
    if a.len() == 0 {
        assert(a + b =~= b);
        assert(a + unescaped(b) =~= unescaped(b));
    } else {
        let s = a + b;
        let rest = a.skip(1);
        assert(s[0] == a[0] && a[0] != '\x1b');
        assert(text::lacks(rest, '\x1b')) by {
            assert forall|i: int| 0 <= i < rest.len() implies #[trigger] rest[i] != '\x1b' by {
                assert(rest[i] == a[i + 1]);
            }
        }
        lemma_plain_prefix(rest, b);
        assert(s =~= seq![a[0]] + (rest + b));
        lemma_unescaped_moved(seq![a[0]], rest + b, 0);
        assert(seq![a[0]] + (rest + unescaped(b)) =~= a + unescaped(b));
    }
}

proof fn lemma_next_parameter_moved(a: Seq<char>, b: Seq<char>, i: int)
    requires
        0 <= i <= b.len(),
    ensures
        text::next_where(a + b, a.len() + i, no_parameter()) == a.len() + text::next_where(
            b,
            i,
            no_parameter(),
        ),
    decreases b.len() - i,
{
    if i < b.len() {
        assert((a + b)[a.len() + i] == b[i]);
        if !no_parameter()(b[i]) {
            lemma_next_parameter_moved(a, b, i + 1);
        }
    }
}

/// What stands before a text does not matter to what is stripped of it.
proof fn lemma_unescaped_moved(a: Seq<char>, b: Seq<char>, i: int)
    requires
        0 <= i <= b.len(),
    ensures
        unescaped_from(a + b, a.len() + i) == unescaped_from(b, i),
    decreases b.len() - i,
{
    if i < b.len() {
        let s = a + b;
        let n = a.len() as int;
        assert(s[n + i] == b[i]);
        if i + 1 < b.len() {
            assert(s[n + i + 1] == b[i + 1]);
        }
        if i + 2 <= b.len() {
            lemma_next_parameter_moved(a, b, i + 2);
            text::lemma_next_where(b, i + 2, no_parameter());
            let j = text::next_where(b, i + 2, no_parameter());
            if j < b.len() {
                assert(s[n + j] == b[j]);
            }
        }
        assert(escape_end(s, n + i) - n == escape_end(b, i));
        let e = escape_end(b, i);
        if e > i {
            lemma_unescaped_moved(a, b, e);
        } else {
            lemma_unescaped_moved(a, b, i + 1);
        }
    }
}

/// An escape sequence is stripped, wherever it stands and whatever its parameters are, and
/// nothing else with it: the escape character, `[`, digits and semicolons, and a letter.
pub proof fn lemma_escape_stripped(a: Seq<char>, parameters: Seq<char>, letter: char, b: Seq<char>)
    requires
        text::lacks(a, '\x1b'),
        forall|i: int|
            0 <= i < parameters.len() ==> ('0' <= #[trigger] parameters[i] <= '9') || parameters[i]
                == ';',
        ('a' <= letter <= 'z') || ('A' <= letter <= 'Z'),
    ensures
        unescaped(a + (seq!['\x1b', '['] + parameters + seq![letter] + b)) == a + unescaped(b),
{
    let front = seq!['\x1b', '['] + parameters + seq![letter];
    let s = front + b;
    lemma_plain_prefix(a, s);
    assert(seq!['\x1b', '['] + parameters + seq![letter] + b =~= s);
    let k = 2 + parameters.len();
    text::lemma_next_where(s, 2, no_parameter());
    let j = text::next_where(s, 2, no_parameter());
    assert(s[k as int] == letter);
    assert(no_parameter()(s[k as int]));
    if j < k {
        assert(no_parameter()(s[j]));
        assert(s[j] == parameters[j - 2]);
    }
    assert(j == k);
    assert(escape_end(s, 0) == k + 1);
    lemma_unescaped_moved(front, b, 0);
    assert(front.len() == k + 1);
}

/// An escape character that begins no escape sequence stays, and what follows it is stripped
/// as if it were not there.
pub proof fn lemma_escape_kept(s: Seq<char>)
    requires
        s.len() == 0 || s[0] != '[' || forall|k: int|
            1 <= k < s.len() && (('a' <= #[trigger] s[k] <= 'z') || ('A' <= s[k] <= 'Z'))
                ==> exists|j: int|
                1 <= j < k && !(('0' <= #[trigger] s[j] <= '9') || s[j] == ';'),
    ensures
        unescaped(seq!['\x1b'] + s) == seq!['\x1b'] + unescaped(s),
{
    let t = seq!['\x1b'] + s;
    lemma_unescaped_moved(seq!['\x1b'], s, 0);
    if s.len() > 0 && s[0] == '[' {
        assert(t[1] == '[');
        text::lemma_next_where(t, 2, no_parameter());
        let j = text::next_where(t, 2, no_parameter());
        if j < t.len() && is_letter(t[j]) {
            assert(s[j - 1] == t[j]);
            let m = choose|m: int|
                1 <= m < j - 1 && !(('0' <= #[trigger] s[m] <= '9') || s[m] == ';');
            assert(t[m + 1] == s[m]);
            assert(!no_parameter()(t[m + 1]));
        }
        assert(escape_end(t, 0) == 0);
    } else if s.len() > 0 {
        assert(t[1] == s[0]);
    }
}

/// A text that fits stays as it is; another ends in dots behind its first characters.
pub proof fn lemma_shortened(s: Seq<char>, max: nat)
    requires
        max >= 3,
    ensures
        s.len() <= max ==> shortened(s, max) == s,
        s.len() > max ==> shortened(s, max).len() == max && shortened(s, max).take(max - 3)
            == s.take(max - 3) && shortened(s, max).skip(max - 3) == "..."@,
{
    reveal_strlit("...");
    assert("..."@.len() == 3);
    if s.len() > max {
        assert(shortened(s, max).take(max - 3) =~= s.take(max - 3));
        assert(shortened(s, max).skip(max - 3) =~= "..."@);
    }
}

}
