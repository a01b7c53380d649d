//! Text as a sequence of characters: lines, words, trimming and searching.

use vstd::prelude::*;

verus! {

/// `String::push` of the standard library appends one character to the end.
pub assume_specification[ String::push ](s: &mut String, c: char)
    ensures
        final(s)@ == old(s)@.push(c),
;

/// The characters that Unicode gives the property `White_Space`.
pub open spec fn is_white(c: char) -> bool {
    let n = c as u32;
    ||| 0x9 <= n <= 0xd
    ||| n == 0x20
    ||| n == 0x85
    ||| n == 0xa0
    ||| n == 0x1680
    ||| 0x2000 <= n <= 0x200a
    ||| n == 0x2028
    ||| n == 0x2029
    ||| n == 0x202f
    ||| n == 0x205f
    ||| n == 0x3000
}

/// Tells whether `c` is white space.
pub fn is_whitespace(c: char) -> (r: bool)
    ensures
        r == is_white(c),
{
    let n: u32 = c as u32;
    (0x9 <= n && n <= 0xd) || n == 0x20 || n == 0x85 || n == 0xa0 || n == 0x1680 || (0x2000 <= n
        && n <= 0x200a) || n == 0x2028 || n == 0x2029 || n == 0x202f || n == 0x205f || n == 0x3000
}

/// The characters of `s`.
pub fn chars_of(s: &str) -> (r: Vec<char>)
    ensures
        r@ == s@,
{
    let mut r: Vec<char> = Vec::new();
    for c in it: s.chars()
        invariant
            it.seq() == s@,
            r@ == s@.take(it.index() as int),
    {
        r.push(c);
    }
    assert(s@.take(s@.len() as int) == s@);
    r
}

/// The string that holds the characters `v`.
pub fn string_of(v: &Vec<char>) -> (r: String)
    ensures
        r@ == v@,
{
    let mut r = String::new();
    let mut i: usize = 0;
    while i < v.len()
        invariant
            i <= v.len(),
            r@ == v@.take(i as int),
        decreases v.len() - i,
    {
        r.push(v[i]);
        assert(v@.take(i as int).push(v@[i as int]) == v@.take(i + 1));
        i += 1;
    }
    assert(v@.take(v@.len() as int) == v@);
    r
}

/// The views of a list of texts.
pub open spec fn views(v: Seq<Vec<char>>) -> Seq<Seq<char>> {
    Seq::new(v.len(), |i: int| v[i]@)
}

/// The views of a list of strings.
pub open spec fn strings(v: Seq<String>) -> Seq<Seq<char>> {
    Seq::new(v.len(), |i: int| v[i]@)
}

pub proof fn lemma_views_push(v: Seq<Vec<char>>, x: Vec<char>)
    ensures
        views(v.push(x)) == views(v).push(x@),
{
    assert(views(v.push(x)) =~= views(v).push(x@));
}

pub proof fn lemma_strings_push(v: Seq<String>, x: String)
    ensures
        strings(v.push(x)) == strings(v).push(x@),
{
    assert(strings(v.push(x)) =~= strings(v).push(x@));
}

/// Moving the head of what is still to come to the end of what is done.
pub proof fn lemma_shift<T>(done: Seq<T>, x: T, rest: Seq<T>)
    ensures
        done.push(x) + rest == done + (seq![x] + rest),
{
    assert(done.push(x) + rest =~= done + (seq![x] + rest));
}

/// The first position at or after `i` whose character satisfies `p`, or the length of `s`.
pub open spec fn next_where(s: Seq<char>, i: int, p: spec_fn(char) -> bool) -> int
    decreases s.len() - i,
{
    if i < 0 || i >= s.len() {
        s.len() as int
    } else if p(s[i]) {
        i
    } else {
        next_where(s, i + 1, p)
    }
}

pub open spec fn newline() -> spec_fn(char) -> bool {
    |c: char| c == '\n'
}

pub open spec fn white() -> spec_fn(char) -> bool {
    |c: char| is_white(c)
}

pub open spec fn visible() -> spec_fn(char) -> bool {
    |c: char| !is_white(c)
}

pub open spec fn exactly(x: char) -> spec_fn(char) -> bool {
    |c: char| c == x
}

/// `next_where` is what its name says.
pub proof fn lemma_next_where(s: Seq<char>, i: int, p: spec_fn(char) -> bool)
    requires
        0 <= i <= s.len(),
    ensures
        i <= next_where(s, i, p) <= s.len(),
        next_where(s, i, p) < s.len() ==> p(s[next_where(s, i, p)]),
        forall|j: int| i <= j < next_where(s, i, p) ==> !p(s[j]),
    decreases s.len() - i,
{
    if i < s.len() && !p(s[i]) {
        lemma_next_where(s, i + 1, p);
    }
}

/// The line `s[i..k]`, ended by a line feed if `ended`: a carriage return directly before
/// the line feed belongs to the line ending.
pub open spec fn line_body(s: Seq<char>, i: int, k: int, ended: bool) -> Seq<char> {
    if ended && i < k && s[k - 1] == '\r' {
        s.subrange(i, k - 1)
    } else {
        s.subrange(i, k)
    }
}

/// The lines of `s` from position `i` on.
pub open spec fn lines_from(s: Seq<char>, i: int) -> Seq<Seq<char>>
    decreases s.len() - i,
    when 0 <= i
{
    if i >= s.len() {
        Seq::empty()
    } else {
        proof {
            lemma_next_where(s, i, newline());
        }
        let k = next_where(s, i, newline());
        if k < s.len() {
            seq![line_body(s, i, k, true)] + lines_from(s, k + 1)
        } else {
            seq![line_body(s, i, k, false)]
        }
    }
}

/// The lines of `s`: what stands between line endings, where a line ending is a line feed
/// or a carriage return and a line feed. The ending of the last line is optional.
pub open spec fn lines(s: Seq<char>) -> Seq<Seq<char>> {
    lines_from(s, 0)
}

/// The first line feed at or after `i`.
fn find_newline(s: &Vec<char>, i: usize) -> (r: usize)
    requires
        i <= s.len(),
    ensures
        r == next_where(s@, i as int, newline()),
        i <= r <= s.len(),
{
    let mut j: usize = i;
    while j < s.len() && s[j] != '\n'
        invariant
            i <= j <= s.len(),
            next_where(s@, i as int, newline()) == next_where(s@, j as int, newline()),
        decreases s.len() - j,
    {
        j += 1;
    }
    j
}

/// The first position at or after `i` that holds no white space.
pub fn find_visible(s: &Vec<char>, i: usize) -> (r: usize)
    requires
        i <= s.len(),
    ensures
        r == next_where(s@, i as int, visible()),
        i <= r <= s.len(),
{
    let mut j: usize = i;
    while j < s.len() && is_whitespace(s[j])
        invariant
            i <= j <= s.len(),
            next_where(s@, i as int, visible()) == next_where(s@, j as int, visible()),
        decreases s.len() - j,
    {
        j += 1;
    }
    j
}

/// The first position at or after `i` that holds white space.
pub fn find_white(s: &Vec<char>, i: usize) -> (r: usize)
    requires
        i <= s.len(),
    ensures
        r == next_where(s@, i as int, white()),
        i <= r <= s.len(),
{
    let mut j: usize = i;
    while j < s.len() && !is_whitespace(s[j])
        invariant
            i <= j <= s.len(),
            next_where(s@, i as int, white()) == next_where(s@, j as int, white()),
        decreases s.len() - j,
    {
        j += 1;
    }
    j
}

/// The first position at or after `i` that holds `x`.
pub fn find_char(s: &Vec<char>, i: usize, x: char) -> (r: usize)
    requires
        i <= s.len(),
    ensures
        r == next_where(s@, i as int, exactly(x)),
        i <= r <= s.len(),
{
    let mut j: usize = i;
    while j < s.len() && s[j] != x
        invariant
            i <= j <= s.len(),
            next_where(s@, i as int, exactly(x)) == next_where(s@, j as int, exactly(x)),
        decreases s.len() - j,
    {
        j += 1;
    }
    j
}

/// The characters of `s` from `a` up to `b`.
pub fn slice(s: &Vec<char>, a: usize, b: usize) -> (r: Vec<char>)
    requires
        a <= b <= s.len(),
    ensures
        r@ == s@.subrange(a as int, b as int),
{
    let mut r: Vec<char> = Vec::new();
    let mut i: usize = a;
    while i < b
        invariant
            a <= i <= b <= s.len(),
            r@ == s@.subrange(a as int, i as int),
        decreases b - i,
    {
        r.push(s[i]);
        assert(s@.subrange(a as int, i as int).push(s@[i as int]) == s@.subrange(
            a as int,
            i + 1,
        ));
        i += 1;
    }
    r
}

/// A copy of `s`.
pub fn copy(s: &Vec<char>) -> (r: Vec<char>)
    ensures
        r@ == s@,
{
    let r = slice(s, 0, s.len());
    assert(s@.subrange(0, s@.len() as int) == s@);
    r
}

/// The lines of `s`.
pub fn split_lines(s: &Vec<char>) -> (out: Vec<Vec<char>>)
    ensures
        views(out@) == lines(s@),
{
    let mut out: Vec<Vec<char>> = Vec::new();
    let mut i: usize = 0;
    assert(views(out@) + lines_from(s@, 0) == lines(s@));
    while i < s.len()
        invariant
            i <= s.len(),
            views(out@) + lines_from(s@, i as int) == lines(s@),
        decreases s.len() - i,
    {
        let k = find_newline(s, i);
        let ended = k < s.len();
        let end: usize = if ended && i < k && s[k - 1] == '\r' {
            k - 1
        } else {
            k
        };
        let line = slice(s, i, end);
        let ghost before = out@;
        let ghost body = line@;
        out.push(line);
        proof {
            lemma_views_push(before, line);
            if ended {
                lemma_shift(views(before), body, lines_from(s@, k + 1));
            } else {
                assert(lines_from(s@, i as int) == seq![body]);
                assert(lines_from(s@, k as int) == Seq::<Seq<char>>::empty());
                assert(views(before).push(body) + Seq::<Seq<char>>::empty() == views(before)
                    + seq![body]);
            }
        }
        i = if ended {
            k + 1
        } else {
            k
        };
    }
    assert(views(out@) + Seq::<Seq<char>>::empty() == views(out@));
    out
}

/// The lines of a string.
pub fn lines_of(s: &str) -> (out: Vec<Vec<char>>)
    ensures
        views(out@) == lines(s@),
{
    split_lines(&chars_of(s))
}

/// Where the trailing white space of `s[..j]` begins.
pub open spec fn visible_end(s: Seq<char>, j: int) -> int
    decreases j,
{
    if j <= 0 || j > s.len() {
        0
    } else if is_white(s[j - 1]) {
        visible_end(s, j - 1)
    } else {
        j
    }
}

/// `s` without the white space at its two ends.
pub open spec fn trim(s: Seq<char>) -> Seq<char> {
    let a = next_where(s, 0, visible());
    let b = visible_end(s, s.len() as int);
    if a < b {
        s.subrange(a, b)
    } else {
        Seq::empty()
    }
}

/// `s` without the white space at its two ends.
pub fn trimmed(s: &Vec<char>) -> (r: Vec<char>)
    ensures
        r@ == trim(s@),
{
    let a = find_visible(s, 0);
    let mut b: usize = s.len();
    while b > 0 && is_whitespace(s[b - 1])
        invariant
            b <= s.len(),
            visible_end(s@, s@.len() as int) == visible_end(s@, b as int),
        decreases b,
    {
        b -= 1;
    }
    if a < b {
        slice(s, a, b)
    } else {
        Vec::new()
    }
}

/// The words of `s` from position `i` on.
pub open spec fn words_from(s: Seq<char>, i: int) -> Seq<Seq<char>>
    decreases s.len() - i,
    when 0 <= i
{
    if i >= s.len() {
        Seq::empty()
    } else {
        let a = next_where(s, i, visible());
        let b = next_where(s, a, white());
        proof {
            lemma_next_where(s, i, visible());
            lemma_next_where(s, a, white());
        }
        if a < s.len() {
            seq![s.subrange(a, b)] + words_from(s, b)
        } else {
            Seq::empty()
        }
    }
}

/// The longest stretches of `s` without white space, in order.
pub open spec fn words(s: Seq<char>) -> Seq<Seq<char>> {
    words_from(s, 0)
}

/// The words of `s`.
pub fn split_words(s: &Vec<char>) -> (out: Vec<Vec<char>>)
    ensures
        views(out@) == words(s@),
{
    let mut out: Vec<Vec<char>> = Vec::new();
    let mut i: usize = 0;
    assert(views(out@) + words_from(s@, 0) == words(s@));
    while i < s.len()
        invariant
            i <= s.len(),
            views(out@) + words_from(s@, i as int) == words(s@),
        decreases s.len() - i,
    {
        let a = find_visible(s, i);
        let b = find_white(s, a);
        proof {
            lemma_next_where(s@, i as int, visible());
            lemma_next_where(s@, a as int, white());
        }
        if a < s.len() {
            let word = slice(s, a, b);
            let ghost before = out@;
            out.push(word);
            proof {
                lemma_views_push(before, word);
                lemma_shift(views(before), word@, words_from(s@, b as int));
            }
        }
        i = b;
    }
    assert(views(out@) + Seq::<Seq<char>>::empty() == views(out@));
    out
}

/// The words of a string.
pub fn words_of(s: &str) -> (out: Vec<Vec<char>>)
    ensures
        views(out@) == words(s@),
{
    split_words(&chars_of(s))
}

/// `pat` stands in `s` at position `i`.
pub open spec fn stands_at(s: Seq<char>, i: int, pat: Seq<char>) -> bool {
    &&& 0 <= i
    &&& i + pat.len() <= s.len()
    &&& s.subrange(i, i + pat.len()) == pat
}

pub open spec fn starts_with(s: Seq<char>, pat: Seq<char>) -> bool {
    stands_at(s, 0, pat)
}

pub open spec fn ends_with(s: Seq<char>, pat: Seq<char>) -> bool {
    stands_at(s, s.len() - pat.len(), pat)
}

pub open spec fn contains(s: Seq<char>, pat: Seq<char>) -> bool {
    exists|i: int| stands_at(s, i, pat)
}

/// Tells whether `pat` stands in `s` at position `i`.
pub fn is_at(s: &Vec<char>, i: usize, pat: &Vec<char>) -> (r: bool)
    ensures
        r == stands_at(s@, i as int, pat@),
{
    if i > s.len() || pat.len() > s.len() - i {
        return false;
    }
    let mut k: usize = 0;
    while k < pat.len()
        invariant
            k <= pat.len(),
            i + pat.len() <= s.len(),
            forall|j: int| 0 <= j < k ==> s@[i + j] == pat@[j],
        decreases pat.len() - k,
    {
        if s[i + k] != pat[k] {
            assert(s@.subrange(i as int, i + pat@.len())[k as int] != pat@[k as int]);
            return false;
        }
        k += 1;
    }
    assert(s@.subrange(i as int, i + pat@.len()) =~= pat@);
    true
}

/// Tells whether `s` begins with `pat`.
pub fn has_prefix(s: &Vec<char>, pat: &str) -> (r: bool)
    ensures
        r == starts_with(s@, pat@),
{
    is_at(s, 0, &chars_of(pat))
}

/// Tells whether `s` ends with `pat`.
pub fn has_suffix(s: &Vec<char>, pat: &str) -> (r: bool)
    ensures
        r == ends_with(s@, pat@),
{
    let p = chars_of(pat);
    if p.len() > s.len() {
        return false;
    }
    is_at(s, s.len() - p.len(), &p)
}

/// Tells whether `pat` stands anywhere in `s`.
pub fn has(s: &Vec<char>, pat: &str) -> (r: bool)
    ensures
        r == contains(s@, pat@),
{
    let p = chars_of(pat);
    if p.len() > s.len() {
        return false;
    }
    let last: usize = s.len() - p.len();
    let mut i: usize = 0;
    while i < last
        invariant
            i <= last,
            p@ == pat@,
            last + p.len() == s.len(),
            forall|j: int| 0 <= j < i ==> !stands_at(s@, j, pat@),
        decreases last - i,
    {
        if is_at(s, i, &p) {
            return true;
        }
        i += 1;
    }
    is_at(s, last, &p)
}

/// The first position at or after `i` where `pat` stands in `s`, or the length of `s`.
pub open spec fn next_at(s: Seq<char>, i: int, pat: Seq<char>) -> int
    decreases s.len() - i,
{
    if i < 0 || i >= s.len() {
        s.len() as int
    } else if stands_at(s, i, pat) {
        i
    } else {
        next_at(s, i + 1, pat)
    }
}

/// `next_at` is what its name says.
pub proof fn lemma_next_at(s: Seq<char>, i: int, pat: Seq<char>)
    requires
        0 <= i <= s.len(),
    ensures
        i <= next_at(s, i, pat) <= s.len(),
        next_at(s, i, pat) < s.len() ==> stands_at(s, next_at(s, i, pat), pat),
        forall|j: int| i <= j < next_at(s, i, pat) ==> !stands_at(s, j, pat),
    decreases s.len() - i,
{
    if i < s.len() && !stands_at(s, i, pat) {
        lemma_next_at(s, i + 1, pat);
    }
}

/// A position where `pat` stands, with none before it, is the next one.
pub proof fn lemma_next_at_is(s: Seq<char>, i: int, k: int, pat: Seq<char>)
    requires
        0 <= i <= k < s.len(),
        stands_at(s, k, pat),
        forall|j: int| i <= j < k ==> !stands_at(s, j, pat),
    ensures
        next_at(s, i, pat) == k,
{
    lemma_next_at(s, i, pat);
}

/// What stands before a text does not matter to what is found in it.
pub proof fn lemma_next_at_shift(a: Seq<char>, b: Seq<char>, i: int, pat: Seq<char>)
    requires
        0 <= i <= b.len(),
    ensures
        next_at(a + b, a.len() + i, pat) == a.len() + next_at(b, i, pat),
    decreases b.len() - i,
{
    if i < b.len() {
        let s = a + b;
        if i + pat.len() <= b.len() {
            assert(s.subrange(a.len() + i, a.len() + i + pat.len()) =~= b.subrange(
                i,
                i + pat.len(),
            ));
        }
        assert(stands_at(s, a.len() + i, pat) == stands_at(b, i, pat));
        if !stands_at(b, i, pat) {
            lemma_next_at_shift(a, b, i + 1, pat);
        }
    }
}

/// Finds where `pat` stands next.
pub fn find_at(s: &Vec<char>, i: usize, pat: &Vec<char>) -> (r: usize)
    requires
        i <= s.len(),
    ensures
        r == next_at(s@, i as int, pat@),
        i <= r <= s.len(),
{
    let mut k: usize = i;
    while k < s.len() && !is_at(s, k, pat)
        invariant
            i <= k <= s.len(),
            next_at(s@, i as int, pat@) == next_at(s@, k as int, pat@),
        decreases s.len() - k,
    {
        k += 1;
    }
    k
}

/// Tells whether two texts are the same.
pub fn same(a: &Vec<char>, b: &Vec<char>) -> (r: bool)
    ensures
        r == (a@ == b@),
{
    if a.len() != b.len() {
        return false;
    }
    let r = is_at(a, 0, b);
    assert(a@.subrange(0, a@.len() as int) == a@);
    r
}

/// Tells whether a text and a string are the same.
pub fn equals(a: &Vec<char>, b: &str) -> (r: bool)
    ensures
        r == (a@ == b@),
{
    same(a, &chars_of(b))
}

/// Tells whether `x` is one of `list`.
pub fn is_among(x: &Vec<char>, list: &Vec<Vec<char>>) -> (r: bool)
    ensures
        r == views(list@).contains(x@),
{
    let mut i: usize = 0;
    while i < list.len()
        invariant
            i <= list.len(),
            forall|j: int| 0 <= j < i ==> views(list@)[j] != x@,
        decreases list.len() - i,
    {
        if same(x, &list[i]) {
            assert(views(list@)[i as int] == x@);
            return true;
        }
        i += 1;
    }
    false
}

/// The texts of `parts`, with `sep` between each and the next.
pub open spec fn join(parts: Seq<Seq<char>>, sep: Seq<char>) -> Seq<char>
    decreases parts.len(),
{
    if parts.len() == 0 {
        Seq::empty()
    } else if parts.len() == 1 {
        parts[0]
    } else {
        join(parts.drop_last(), sep) + sep + parts.last()
    }
}

/// Appends `t` to `s`.
pub fn extend(s: &mut Vec<char>, t: &Vec<char>)
    ensures
        final(s)@ == old(s)@ + t@,
{
    let ghost start = s@;
    let mut i: usize = 0;
    assert(start + t@.take(0) == start);
    while i < t.len()
        invariant
            i <= t.len(),
            s@ == start + t@.take(i as int),
        decreases t.len() - i,
    {
        s.push(t[i]);
        assert((start + t@.take(i as int)).push(t@[i as int]) == start + t@.take(i + 1));
        i += 1;
    }
    assert(t@.take(t@.len() as int) == t@);
}

/// Appends the string `t` to `s`.
pub fn extend_str(s: &mut Vec<char>, t: &str)
    ensures
        final(s)@ == old(s)@ + t@,
{
    extend(s, &chars_of(t))
}

/// The texts of `parts`, joined by `sep`.
pub fn joined(parts: &Vec<Vec<char>>, sep: &str) -> (r: Vec<char>)
    ensures
        r@ == join(views(parts@), sep@),
{
    let s = chars_of(sep);
    let mut r: Vec<char> = Vec::new();
    let mut i: usize = 0;
    let ghost all = views(parts@);
    while i < parts.len()
        invariant
            i <= parts.len(),
            all == views(parts@),
            s@ == sep@,
            r@ == join(all.take(i as int), sep@),
        decreases parts.len() - i,
    {
        proof {
            assert(all.take(i + 1).drop_last() == all.take(i as int));
        }
        if i > 0 {
            extend(&mut r, &s);
        }
        extend(&mut r, &parts[i]);
        assert(Seq::<char>::empty() + parts@[i as int]@ == parts@[i as int]@);
        i += 1;
    }
    assert(all.take(all.len() as int) == all);
    r
}

/// The string that joins `parts` by line feeds.
pub fn joined_lines(parts: &Vec<Vec<char>>) -> (r: String)
    ensures
        r@ == join(views(parts@), "\n"@),
{
    string_of(&joined(parts, "\n"))
}

/// `n` times the character `c`.
pub open spec fn repeat(c: char, n: nat) -> Seq<char> {
    Seq::new(n, |i: int| c)
}

/// `s` with spaces after it up to `width` characters.
pub open spec fn left_aligned(s: Seq<char>, width: nat) -> Seq<char> {
    if s.len() < width {
        s + repeat(' ', (width - s.len()) as nat)
    } else {
        s
    }
}

/// `s` with spaces before it up to `width` characters.
pub open spec fn right_aligned(s: Seq<char>, width: nat) -> Seq<char> {
    if s.len() < width {
        repeat(' ', (width - s.len()) as nat) + s
    } else {
        s
    }
}

/// `n` times the character `c`.
pub fn repeated(c: char, n: usize) -> (r: Vec<char>)
    ensures
        r@ == repeat(c, n as nat),
{
    let mut r: Vec<char> = Vec::new();
    let mut i: usize = 0;
    while i < n
        invariant
            i <= n,
            r@ == repeat(c, i as nat),
        decreases n - i,
    {
        r.push(c);
        i += 1;
        assert(r@ =~= repeat(c, i as nat));
    }
    assert(r@ =~= repeat(c, n as nat));
    r
}

/// `s` with spaces after it up to `width` characters.
pub fn align_left(s: &Vec<char>, width: usize) -> (r: Vec<char>)
    ensures
        r@ == left_aligned(s@, width as nat),
{
    let mut r = copy(s);
    if s.len() < width {
        extend(&mut r, &repeated(' ', width - s.len()));
    }
    r
}

/// `s` with spaces before it up to `width` characters.
pub fn align_right(s: &Vec<char>, width: usize) -> (r: Vec<char>)
    ensures
        r@ == right_aligned(s@, width as nat),
{
    if s.len() < width {
        let mut r = repeated(' ', width - s.len());
        extend(&mut r, s);
        r
    } else {
        copy(s)
    }
}

/// The texts of `l` from `i` on that satisfy `p`.
pub open spec fn keep_from(l: Seq<Seq<char>>, i: int, p: spec_fn(Seq<char>) -> bool) -> Seq<
    Seq<char>,
>
    decreases l.len() - i,
{
    if i < 0 || i >= l.len() {
        Seq::empty()
    } else if p(l[i]) {
        seq![l[i]] + keep_from(l, i + 1, p)
    } else {
        keep_from(l, i + 1, p)
    }
}

/// The texts of `l` that satisfy `p`, in order.
pub open spec fn keep(l: Seq<Seq<char>>, p: spec_fn(Seq<char>) -> bool) -> Seq<Seq<char>> {
    keep_from(l, 0, p)
}

/// `keep` keeps what satisfies `p` and nothing else.
pub proof fn lemma_keep(l: Seq<Seq<char>>, i: int, p: spec_fn(Seq<char>) -> bool)
    requires
        0 <= i <= l.len(),
    ensures
        keep_from(l, i, p).len() <= l.len() - i,
        forall|j: int|
            0 <= j < keep_from(l, i, p).len() ==> p(#[trigger] keep_from(l, i, p)[j]) && l.contains(
                keep_from(l, i, p)[j],
            ),
        forall|k: int|
            i <= k < l.len() && p(#[trigger] l[k]) ==> keep_from(l, i, p).contains(l[k]),
    decreases l.len() - i,
{
    if i < l.len() {
        lemma_keep(l, i + 1, p);
        let rest = keep_from(l, i + 1, p);
        if p(l[i]) {
            let all = seq![l[i]] + rest;
            assert(l.contains(l[i]));
            assert forall|k: int| i <= k < l.len() && p(#[trigger] l[k]) implies all.contains(
                l[k],
            ) by {
                if k == i {
                    assert(all[0] == l[k]);
                } else {
                    assert(rest.contains(l[k]));
                    let m = choose|m: int| 0 <= m < rest.len() && rest[m] == l[k];
                    assert(all[m + 1] == l[k]);
                }
            }
        }
    }
}

/// Lines that show something.
pub open spec fn not_blank() -> spec_fn(Seq<char>) -> bool {
    |line: Seq<char>| trim(line).len() > 0
}

/// The lines that show something.
pub fn keep_visible(lines: &Vec<Vec<char>>) -> (r: Vec<Vec<char>>)
    ensures
        views(r@) == keep(views(lines@), not_blank()),
{
    let ghost l = views(lines@);
    let mut r: Vec<Vec<char>> = Vec::new();
    let mut i: usize = 0;
    assert(views(r@) + keep(l, not_blank()) == keep(l, not_blank()));
    while i < lines.len()
        invariant
            i <= lines.len(),
            l == views(lines@),
            views(r@) + keep_from(l, i as int, not_blank()) == keep(l, not_blank()),
        decreases lines.len() - i,
    {
        if trimmed(&lines[i]).len() > 0 {
            let ghost before = r@;
            let kept = copy(&lines[i]);
            r.push(kept);
            proof {
                lemma_views_push(before, kept);
                lemma_shift(views(before), kept@, keep_from(l, i + 1, not_blank()));
            }
        }
        i += 1;
    }
    assert(views(r@) + Seq::<Seq<char>>::empty() == views(r@));
    r
}

/// A copy of the strings as texts.
pub fn texts_of(v: &Vec<String>) -> (r: Vec<Vec<char>>)
    ensures
        views(r@) == strings(v@),
{
    let mut r: Vec<Vec<char>> = Vec::new();
    let mut i: usize = 0;
    while i < v.len()
        invariant
            i <= v.len(),
            r.len() == i,
            forall|j: int| 0 <= j < i ==> (#[trigger] r@[j])@ == v@[j]@,
        decreases v.len() - i,
    {
        r.push(chars_of(v[i].as_str()));
        i += 1;
    }
    assert(views(r@) =~= strings(v@));
    r
}

/// The number of bytes of `c` in UTF-8.
pub open spec fn char_bytes(c: char) -> nat {
    let n = c as u32;
    if n < 0x80 {
        1
    } else if n < 0x800 {
        2
    } else if n < 0x10000 {
        3
    } else {
        4
    }
}

/// The number of bytes of `s` in UTF-8.
pub open spec fn byte_len(s: Seq<char>) -> nat
    decreases s.len(),
{
    if s.len() == 0 {
        0
    } else {
        byte_len(s.drop_last()) + char_bytes(s.last())
    }
}

proof fn lemma_byte_len_first(s: Seq<char>)
    requires
        s.len() > 0,
    ensures
        byte_len(s) == char_bytes(s[0]) + byte_len(s.drop_first()),
    decreases s.len(),
{
    if s.len() > 1 {
        lemma_byte_len_first(s.drop_last());
        assert(s.drop_last().drop_first() =~= s.drop_first().drop_last());
    } else {
        assert(s.drop_last() =~= Seq::<char>::empty());
        assert(s.drop_first() =~= Seq::<char>::empty());
    }
}

/// `byte_len` counts the bytes of the UTF-8 encoding.
pub proof fn lemma_byte_len(s: Seq<char>)
    ensures
        byte_len(s) == vstd::utf8::encode_utf8(s).len(),
    decreases s.len(),
{
    if s.len() > 0 {
        lemma_byte_len_first(s);
        lemma_byte_len(s.drop_first());
        vstd::utf8::char_is_scalar(s[0]);
        assert(vstd::utf8::encode_scalar(s[0] as u32).len() == char_bytes(s[0]));
    }
}

/// The bytes of two texts in a row.
pub proof fn lemma_byte_len_joined(a: Seq<char>, b: Seq<char>)
    ensures
        byte_len(a + b) == byte_len(a) + byte_len(b),
    decreases b.len(),
{
    if b.len() == 0 {
        assert(a + b =~= a);
    } else {
        assert((a + b).drop_last() =~= a + b.drop_last());
        lemma_byte_len_joined(a, b.drop_last());
    }
}

/// A space takes one byte.
pub proof fn lemma_byte_len_spaces(n: nat)
    ensures
        byte_len(repeat(' ', n)) == n,
    decreases n,
{
    if n > 0 {
        assert(repeat(' ', n).drop_last() =~= repeat(' ', (n - 1) as nat));
        lemma_byte_len_spaces((n - 1) as nat);
    }
}

/// Longer prefixes take at least as many bytes.
pub proof fn lemma_byte_len_grows(s: Seq<char>, i: int, j: int)
    requires
        0 <= i <= j <= s.len(),
    ensures
        byte_len(s.take(i)) + (j - i) <= byte_len(s.take(j)),
        byte_len(s.take(j)) <= byte_len(s.take(i)) + 4 * (j - i),
    decreases j - i,
{
    if i < j {
        assert(s.take(j).drop_last() =~= s.take(j - 1));
        lemma_byte_len_grows(s, i, j - 1);
    }
}

/// The number of bytes of `c` in UTF-8.
pub fn bytes_of_char(c: char) -> (r: usize)
    ensures
        r == char_bytes(c),
{
    let n: u32 = c as u32;
    if n < 0x80 {
        1
    } else if n < 0x800 {
        2
    } else if n < 0x10000 {
        3
    } else {
        4
    }
}

/// The number of bytes of `s` in UTF-8.
pub fn count_bytes(s: &Vec<char>) -> (r: u128)
    ensures
        r == byte_len(s@),
{
    let mut r: u128 = 0;
    let mut i: usize = 0;
    assert(s@.take(0) =~= Seq::<char>::empty());
    while i < s.len()
        invariant
            i <= s.len(),
            r == byte_len(s@.take(i as int)),
            r <= 4 * i,
        decreases s.len() - i,
    {
        assert(s@.take(i + 1).drop_last() =~= s@.take(i as int));
        r += bytes_of_char(s[i]) as u128;
        i += 1;
    }
    assert(s@.take(s@.len() as int) =~= s@);
    r
}

/// The number of characters of `s`, from the `k`th on, that begin before byte `limit`,
/// added to `k`.
pub open spec fn cut_from(s: Seq<char>, k: int, limit: nat) -> int
    decreases s.len() - k,
{
    if k < 0 || k >= s.len() {
        s.len() as int
    } else if byte_len(s.take(k)) < limit {
        cut_from(s, k + 1, limit)
    } else {
        k
    }
}

/// The number of characters of `s` that begin before byte `limit`.
pub open spec fn cut(s: Seq<char>, limit: nat) -> int {
    cut_from(s, 0, limit)
}

/// `cut` finds the first character boundary at or after `limit`.
pub proof fn lemma_cut(s: Seq<char>, k: int, limit: nat)
    requires
        0 <= k <= s.len(),
        forall|j: int| 0 <= j < k ==> byte_len(#[trigger] s.take(j)) < limit,
    ensures
        k <= cut_from(s, k, limit) <= s.len(),
        forall|j: int|
            0 <= j < cut_from(s, k, limit) ==> byte_len(#[trigger] s.take(j)) < limit,
        cut_from(s, k, limit) < s.len() ==> byte_len(s.take(cut_from(s, k, limit))) >= limit,
    decreases s.len() - k,
{
    if k < s.len() && byte_len(s.take(k)) < limit {
        lemma_cut(s, k + 1, limit);
    }
}

/// The number of characters of `s` that begin before byte `limit`.
pub fn count_before(s: &Vec<char>, limit: usize) -> (r: usize)
    ensures
        r == cut(s@, limit as nat),
        r <= s.len(),
{
    let mut k: usize = 0;
    let mut bytes: u128 = 0;
    assert(s@.take(0) =~= Seq::<char>::empty());
    while k < s.len() && bytes < limit as u128
        invariant
            k <= s.len(),
            bytes == byte_len(s@.take(k as int)),
            bytes <= 4 * k,
            cut(s@, limit as nat) == cut_from(s@, k as int, limit as nat),
        decreases s.len() - k,
    {
        assert(s@.take(k + 1).drop_last() =~= s@.take(k as int));
        bytes += bytes_of_char(s[k]) as u128;
        k += 1;
    }
    k
}

/// The views of a list of string literals.
pub open spec fn literals(v: Seq<&'static str>) -> Seq<Seq<char>> {
    Seq::new(v.len(), |i: int| v[i]@)
}

/// Tells whether `x` is one of a list of string literals.
pub fn is_listed(x: &Vec<char>, list: &Vec<&'static str>) -> (r: bool)
    ensures
        r == literals(list@).contains(x@),
{
    let mut i: usize = 0;
    while i < list.len()
        invariant
            i <= list.len(),
            forall|j: int| 0 <= j < i ==> #[trigger] literals(list@)[j] != x@,
        decreases list.len() - i,
    {
        if equals(x, list[i]) {
            assert(literals(list@)[i as int] == x@);
            return true;
        }
        i += 1;
    }
    false
}

/// No character of `s` is `c`.
pub open spec fn lacks(s: Seq<char>, c: char) -> bool {
    forall|i: int| 0 <= i < s.len() ==> #[trigger] s[i] != c
}

/// What none of the parts has, nor what stands between them, the whole has not.
pub proof fn lemma_join_lacks(parts: Seq<Seq<char>>, sep: Seq<char>, c: char)
    requires
        forall|i: int| 0 <= i < parts.len() ==> lacks(#[trigger] parts[i], c),
        lacks(sep, c),
    ensures
        lacks(join(parts, sep), c),
    decreases parts.len(),
{
    if parts.len() > 1 {
        assert forall|i: int| 0 <= i < parts.drop_last().len() implies lacks(
            #[trigger] parts.drop_last()[i],
            c,
        ) by {
            assert(lacks(parts[i], c));
        }
        lemma_join_lacks(parts.drop_last(), sep, c);
        assert(lacks(parts.last(), c));
    } else if parts.len() == 1 {
        assert(lacks(parts[0], c));
    }
}

/// No line holds a line feed, nor a carriage return where the text has none.
proof fn lemma_lines_from_lack(s: Seq<char>, i: int)
    requires
        0 <= i <= s.len(),
    ensures
        forall|j: int| 0 <= j < lines_from(s, i).len() ==> lacks(#[trigger] lines_from(s, i)[j], '\n'),
        lacks(s, '\r') ==> forall|j: int|
            0 <= j < lines_from(s, i).len() ==> lacks(#[trigger] lines_from(s, i)[j], '\r'),
    decreases s.len() - i,
{
    if i < s.len() {
        lemma_next_where(s, i, newline());
        let k = next_where(s, i, newline());
        assert forall|j: int| i <= j < k implies #[trigger] s[j] != '\n' by {
            assert(!newline()(s[j]));
        }
        if k < s.len() {
            lemma_lines_from_lack(s, k + 1);
            let rest = lines_from(s, k + 1);
            assert forall|j: int| 0 <= j < lines_from(s, i).len() implies lacks(
                #[trigger] lines_from(s, i)[j],
                '\n',
            ) && (lacks(s, '\r') ==> lacks(lines_from(s, i)[j], '\r')) by {
                if j > 0 {
                    assert(lines_from(s, i)[j] == rest[j - 1]);
                }
            }
        }
    }
}

/// No line holds a line feed, nor a carriage return where the text has none.
pub proof fn lemma_lines_lack(s: Seq<char>)
    ensures
        forall|j: int| 0 <= j < lines(s).len() ==> lacks(#[trigger] lines(s)[j], '\n'),
        lacks(s, '\r') ==> forall|j: int|
            0 <= j < lines(s).len() ==> lacks(#[trigger] lines(s)[j], '\r'),
{
    lemma_lines_from_lack(s, 0);
}

/// A last line without characters is one that ends right where it begins.
proof fn lemma_last_line_from(s: Seq<char>, i: int)
    requires
        0 <= i < s.len(),
        lacks(s, '\r'),
    ensures
        lines_from(s, i).len() > 0,
        lines_from(s, i).last().len() == 0 ==> s.last() == '\n' && (i == s.len() - 1 || s[s.len()
            - 2] == '\n'),
    decreases s.len() - i,
{
    lemma_next_where(s, i, newline());
    let k = next_where(s, i, newline());
    if k < s.len() {
        assert(newline()(s[k]));
        if k + 1 < s.len() {
            lemma_last_line_from(s, k + 1);
            assert(lines_from(s, i).last() == lines_from(s, k + 1).last());
        } else {
            assert(lines_from(s, k + 1) =~= Seq::<Seq<char>>::empty());
            assert(lines_from(s, i).last() == line_body(s, i, k, true));
        }
    } else {
        assert(lines_from(s, i).last() == s.subrange(i, k));
    }
}

/// The last line is empty only where the text is a line feed or ends with two.
pub proof fn lemma_last_line(s: Seq<char>)
    requires
        s.len() > 0,
        lacks(s, '\r'),
    ensures
        lines(s).len() > 0,
        lines(s).last().len() == 0 ==> s == "\n"@ || ends_with(s, "\n\n"@),
{
    lemma_last_line_from(s, 0);
    reveal_strlit("\n");
    reveal_strlit("\n\n");
    assert("\n"@ =~= seq!['\n']);
    assert("\n\n"@ =~= seq!['\n', '\n']);
    if lines(s).last().len() == 0 {
        if s.len() == 1 {
            assert(s =~= "\n"@);
        } else {
            assert(s.subrange(s.len() - 2, s.len() as int) =~= "\n\n"@);
        }
    }
}

/// What stands before a text does not matter to where a character of it is found.
proof fn lemma_next_where_shift(a: Seq<char>, b: Seq<char>, i: int, p: spec_fn(char) -> bool)
    requires
        0 <= i <= b.len(),
    ensures
        next_where(a + b, a.len() + i, p) == a.len() + next_where(b, i, p),
    decreases b.len() - i,
{
    if i < b.len() && !p(b[i]) {
        lemma_next_where_shift(a, b, i + 1, p);
    }
}

/// What stands before a text does not matter to the lines of it.
proof fn lemma_lines_shift(a: Seq<char>, b: Seq<char>, i: int)
    requires
        0 <= i <= b.len(),
    ensures
        lines_from(a + b, a.len() + i) == lines_from(b, i),
    decreases b.len() - i,
{
    if i < b.len() {
        let s = a + b;
        let k = next_where(b, i, newline());
        lemma_next_where_shift(a, b, i, newline());
        lemma_next_where(b, i, newline());
        assert(line_body(s, a.len() + i, a.len() + k, k < b.len()) =~= line_body(
            b,
            i,
            k,
            k < b.len(),
        ));
        if k < b.len() {
            lemma_lines_shift(a, b, k + 1);
        }
    }
}

/// Joined parts begin with the first of them.
pub proof fn lemma_join_first(parts: Seq<Seq<char>>, sep: Seq<char>)
    requires
        parts.len() >= 2,
    ensures
        join(parts, sep) == parts[0] + sep + join(parts.skip(1), sep),
    decreases parts.len(),
{
    if parts.len() == 2 {
        assert(parts.drop_last()[0] == parts[0]);
        assert(parts.skip(1)[0] == parts[1]);
        assert(join(parts.drop_last(), sep) == parts[0]);
    } else {
        lemma_join_first(parts.drop_last(), sep);
        assert(parts.drop_last().skip(1) =~= parts.skip(1).drop_last());
        assert(parts.skip(1).last() == parts.last());
        assert(join(parts, sep) =~= parts[0] + sep + join(parts.skip(1), sep));
    }
}

/// `s` is one line: no line feed in it, and no carriage return at its end.
pub open spec fn is_line(s: Seq<char>) -> bool {
    lacks(s, '\n') && (s.len() > 0 ==> s.last() != '\r')
}

/// Lines that are joined come apart again, if the last of them is not empty.
pub proof fn lemma_lines_of_join(parts: Seq<Seq<char>>)
    requires
        forall|j: int| 0 <= j < parts.len() ==> is_line(#[trigger] parts[j]),
        parts.len() > 0 ==> parts.last().len() > 0,
    ensures
        lines(join(parts, "\n"@)) == parts,
    decreases parts.len(),
{
    reveal_strlit("\n");
    assert("\n"@ =~= seq!['\n']);
    let s = join(parts, "\n"@);
    if parts.len() == 0 {
        assert(lines(s) =~= parts);
    } else {
        let first = parts[0];
        assert(is_line(first));
        lemma_next_where(s, 0, newline());
        let k = next_where(s, 0, newline());
        if parts.len() == 1 {
            if k < s.len() {
                assert(newline()(s[k]));
            }
            assert(line_body(s, 0, k, false) =~= first);
            assert(lines(s) =~= parts);
        } else {
            let rest = parts.skip(1);
            lemma_join_first(parts, "\n"@);
            assert forall|j: int| 0 <= j < rest.len() implies is_line(#[trigger] rest[j]) by {
                assert(rest[j] == parts[j + 1]);
            }
            lemma_lines_of_join(rest);
            let front = first + "\n"@;
            assert(s[first.len() as int] == '\n');
            assert(newline()(s[first.len() as int]));
            if k < first.len() {
                assert(newline()(s[k]));
                assert(s[k] == first[k]);
            }
            assert(k == first.len());
            lemma_lines_shift(front, join(rest, "\n"@), 0);
            assert(front + join(rest, "\n"@) =~= s);
            if k > 0 {
                assert(s[k - 1] == first[k - 1]);
            }
            assert(line_body(s, 0, k, true) =~= first);
            assert(lines(s) =~= seq![first] + rest);
            assert(seq![first] + rest =~= parts);
        }
    }
}

/// A stretch of characters without white space.
pub open spec fn is_word(s: Seq<char>) -> bool {
    s.len() > 0 && forall|i: int| 0 <= i < s.len() ==> !is_white(#[trigger] s[i])
}

proof fn lemma_words_from_are_words(s: Seq<char>, i: int)
    requires
        0 <= i <= s.len(),
    ensures
        forall|j: int| 0 <= j < words_from(s, i).len() ==> is_word(#[trigger] words_from(s, i)[j]),
    decreases s.len() - i,
{
    if i < s.len() {
        let a = next_where(s, i, visible());
        let b = next_where(s, a, white());
        lemma_next_where(s, i, visible());
        lemma_next_where(s, a, white());
        if a < s.len() {
            assert(visible()(s[a]));
            lemma_words_from_are_words(s, b);
            assert(is_word(s.subrange(a, b))) by {
                assert forall|j: int| a <= j < b implies !is_white(#[trigger] s[j]) by {
                    assert(!white()(s[j]));
                }
            }
            assert forall|j: int| 0 <= j < words_from(s, i).len() implies is_word(
                #[trigger] words_from(s, i)[j],
            ) by {
                if j > 0 {
                    assert(words_from(s, i)[j] == words_from(s, b)[j - 1]);
                }
            }
        }
    }
}

/// The words of a text are words.
pub proof fn lemma_words_are_words(s: Seq<char>)
    ensures
        forall|j: int| 0 <= j < words(s).len() ==> is_word(#[trigger] words(s)[j]),
{
    lemma_words_from_are_words(s, 0);
}

/// What stands before a text does not matter to the words of it.
proof fn lemma_words_shift(a: Seq<char>, b: Seq<char>, i: int)
    requires
        0 <= i <= b.len(),
    ensures
        words_from(a + b, a.len() + i) == words_from(b, i),
    decreases b.len() - i,
{
    if i < b.len() {
        let x = next_where(b, i, visible());
        lemma_next_where(b, i, visible());
        lemma_next_where_shift(a, b, i, visible());
        let y = next_where(b, x, white());
        lemma_next_where(b, x, white());
        lemma_next_where_shift(a, b, x, white());
        if x < b.len() {
            assert(visible()(b[x]));
            assert((a + b).subrange(a.len() + x, a.len() + y) =~= b.subrange(x, y));
            lemma_words_shift(a, b, y);
        }
    }
}

/// Words that are joined by spaces come apart again.
pub proof fn lemma_words_of_join(parts: Seq<Seq<char>>)
    requires
        forall|j: int| 0 <= j < parts.len() ==> is_word(#[trigger] parts[j]),
    ensures
        words(join(parts, " "@)) == parts,
    decreases parts.len(),
{
    reveal_strlit(" ");
    assert(" "@ =~= seq![' ']);
    let s = join(parts, " "@);
    if parts.len() == 0 {
        assert(words(s) =~= parts);
    } else {
        let first = parts[0];
        assert(is_word(first));
        let n = first.len() as int;
        if parts.len() > 1 {
            lemma_join_first(parts, " "@);
            assert(s[n] == ' ');
            assert(white()(s[n]));
        }
        assert(s[0] == first[0]);
        assert(visible()(s[0]));
        assert(next_where(s, 0, visible()) == 0);
        lemma_next_where(s, 0, white());
        let b = next_where(s, 0, white());
        if b < n {
            assert(white()(s[b]));
            assert(s[b] == first[b]);
        }
        assert(b == n);
        assert(s.subrange(0, n) =~= first);
        if parts.len() == 1 {
            assert(words_from(s, n) =~= Seq::<Seq<char>>::empty());
            assert(words(s) =~= parts);
        } else {
            let rest = parts.skip(1);
            assert forall|j: int| 0 <= j < rest.len() implies is_word(#[trigger] rest[j]) by {
                assert(rest[j] == parts[j + 1]);
            }
            lemma_words_of_join(rest);
            let front = first + " "@;
            assert(front + join(rest, " "@) =~= s);
            lemma_words_shift(front, join(rest, " "@), 0);
            assert(!visible()(s[n]));
            assert(next_where(s, n, visible()) == next_where(s, n + 1, visible()));
            assert(words_from(s, n) == words_from(s, n + 1)) by {
                lemma_next_where(s, n + 1, visible());
            }
            assert(words(s) =~= seq![first] + rest);
            assert(seq![first] + rest =~= parts);
        }
    }
}

/// What is trimmed has no white space at its ends, so there is nothing more to trim; and it
/// has no character that was not there.
pub proof fn lemma_trim_again(s: Seq<char>)
    ensures
        trim(trim(s)) == trim(s),
        trim(s).len() > 0 ==> !is_white(trim(s)[0]) && !is_white(trim(s).last()),
        forall|c: char| #[trigger] lacks(s, c) ==> lacks(trim(s), c),
{
    let t = trim(s);
    let a = next_where(s, 0, visible());
    let b = visible_end(s, s.len() as int);
    lemma_next_where(s, 0, visible());
    lemma_visible_end(s, s.len() as int);
    if a < b {
        assert(visible()(s[a]));
        assert(t[0] == s[a] && t.last() == s[b - 1]);
        assert(visible()(t[0]));
        assert(next_where(t, 0, visible()) == 0);
        assert(visible_end(t, t.len() as int) == t.len());
        assert(t.subrange(0, t.len() as int) =~= t);
    } else {
        assert(next_where(t, 0, visible()) == 0);
    }
}

/// Lines that all satisfy `p` are all kept.
pub proof fn lemma_keep_all(l: Seq<Seq<char>>, i: int, p: spec_fn(Seq<char>) -> bool)
    requires
        0 <= i <= l.len(),
        forall|j: int| 0 <= j < l.len() ==> p(#[trigger] l[j]),
    ensures
        keep_from(l, i, p) == l.skip(i),
    decreases l.len() - i,
{
    if i < l.len() {
        lemma_keep_all(l, i + 1, p);
        assert(p(l[i]));
        assert(seq![l[i]] + l.skip(i + 1) =~= l.skip(i));
    } else {
        assert(l.skip(i) =~= Seq::<Seq<char>>::empty());
    }
}

/// A text that shows something is not empty.
pub proof fn lemma_trim_len(s: Seq<char>)
    ensures
        trim(s).len() <= s.len(),
{
    lemma_next_where(s, 0, visible());
    lemma_visible_end(s, s.len() as int);
}

proof fn lemma_visible_end(s: Seq<char>, j: int)
    requires
        0 <= j <= s.len(),
    ensures
        0 <= visible_end(s, j) <= j,
        visible_end(s, j) > 0 ==> !is_white(s[visible_end(s, j) - 1]),
    decreases j,
{
    if j > 0 {
        lemma_visible_end(s, j - 1);
    }
}

/// A text has at most as many characters as bytes.
pub proof fn lemma_len_at_most_bytes(s: Seq<char>)
    ensures
        s.len() <= byte_len(s),
{
    lemma_byte_len_grows(s, 0, s.len() as int);
    assert(s.take(s.len() as int) =~= s);
}

/// `keep` is the filter of sequences: the lines that satisfy `p`, all of them, in their order.
pub proof fn lemma_keep_is_filter(l: Seq<Seq<char>>, p: spec_fn(Seq<char>) -> bool)
    ensures
        keep(l, p) == l.filter(p),
{
    lemma_keep_from_is_filter(l, 0, p);
    assert(l.skip(0) =~= l);
}

proof fn lemma_keep_from_is_filter(l: Seq<Seq<char>>, i: int, p: spec_fn(Seq<char>) -> bool)
    requires
        0 <= i <= l.len(),
    ensures
        keep_from(l, i, p) == l.skip(i).filter(p),
    decreases l.len() - i,
{
    reveal(Seq::filter);
    if i < l.len() {
        lemma_keep_from_is_filter(l, i + 1, p);
        let one = seq![l[i]];
        assert(one + l.skip(i + 1) =~= l.skip(i));
        Seq::filter_distributes_over_add(one, l.skip(i + 1), p);
        assert(one.drop_last() =~= Seq::<Seq<char>>::empty());
        assert(one.drop_last().filter(p) =~= Seq::<Seq<char>>::empty());
        if p(l[i]) {
            assert(one.filter(p) =~= one);
        } else {
            assert(one.filter(p) =~= Seq::<Seq<char>>::empty());
            assert(Seq::<Seq<char>>::empty() + l.skip(i + 1).filter(p) =~= l.skip(i + 1).filter(p));
        }
    } else {
        assert(l.skip(i) =~= Seq::<Seq<char>>::empty());
    }
}

/// The positions from `i` up to `n`.
pub open spec fn positions(i: int, n: int) -> Seq<int> {
    Seq::new(
        (if i <= n {
            n - i
        } else {
            0
        }) as nat,
        |j: int| i + j,
    )
}

/// The lines at the positions from `i` on that `p` picks, in their order.
pub open spec fn picked(l: Seq<Seq<char>>, i: int, p: spec_fn(int) -> bool) -> Seq<Seq<char>> {
    positions(i, l.len() as int).filter(p).map_values(|k: int| l[k])
}

/// A position is picked before those after it.
pub proof fn lemma_picked_step(l: Seq<Seq<char>>, i: int, p: spec_fn(int) -> bool)
    requires
        0 <= i <= l.len(),
    ensures
        i < l.len() && p(i) ==> picked(l, i, p) == seq![l[i]] + picked(l, i + 1, p),
        i < l.len() && !p(i) ==> picked(l, i, p) == picked(l, i + 1, p),
        i == l.len() ==> picked(l, i, p) == Seq::<Seq<char>>::empty(),
{
    reveal(Seq::filter);
    let n = l.len() as int;
    let f = |k: int| l[k];
    if i < n {
        let one = seq![i];
        let rest = positions(i + 1, n);
        assert(one + rest =~= positions(i, n));
        Seq::filter_distributes_over_add(one, rest, p);
        assert(one.drop_last() =~= Seq::<int>::empty());
        assert(one.drop_last().filter(p) =~= Seq::<int>::empty());
        if p(i) {
            assert(one.filter(p) =~= one);
            assert((one + rest.filter(p)).map_values(f) =~= seq![l[i]] + rest.filter(
                p,
            ).map_values(f));
        } else {
            assert(one.filter(p) =~= Seq::<int>::empty());
            assert(Seq::<int>::empty() + rest.filter(p) =~= rest.filter(p));
        }
    } else {
        assert(positions(i, n) =~= Seq::<int>::empty());
        assert(picked(l, i, p) =~= Seq::<Seq<char>>::empty());
    }
}

/// To filter twice is to filter by both.
pub proof fn lemma_filter_twice<T>(l: Seq<T>, p: spec_fn(T) -> bool, q: spec_fn(T) -> bool)
    ensures
        l.filter(p).filter(q) == l.filter(|x: T| p(x) && q(x)),
    decreases l.len(),
{
    reveal(Seq::filter);
    let both = |x: T| p(x) && q(x);
    if l.len() > 0 {
        let before = l.drop_last();
        let x = l.last();
        lemma_filter_twice(before, p, q);
        if p(x) {
            assert(l.filter(p) == before.filter(p).push(x));
            assert(before.filter(p).push(x).drop_last() =~= before.filter(p));
        }
    } else {
        assert(l.filter(p) =~= l);
        assert(l.filter(both) =~= l);
    }
}

/// Joined parts are the first parts joined, what stands between, and the other parts joined.
pub proof fn lemma_join_adds(a: Seq<Seq<char>>, b: Seq<Seq<char>>, x: Seq<char>, sep: Seq<char>)
    ensures
        join(Seq::empty(), sep) == Seq::<char>::empty(),
        join(seq![x], sep) == x,
        a.len() > 0 && b.len() > 0 ==> join(a + b, sep) == join(a, sep) + sep + join(b, sep),
    decreases b.len(),
{
    if a.len() > 0 && b.len() > 0 {
        let whole = a + b;
        assert(whole.last() == b.last());
        if b.len() == 1 {
            assert(whole.drop_last() =~= a);
        } else {
            lemma_join_adds(a, b.drop_last(), x, sep);
            assert(whole.drop_last() =~= a + b.drop_last());
            assert(join(whole, sep) =~= join(a, sep) + sep + join(b, sep));
        }
    }
}

proof fn lemma_lines_from_step(s: Seq<char>, i: int)
    requires
        0 <= i < s.len(),
    ensures
        ({
            let k = next_where(s, i, newline());
            &&& i <= k <= s.len()
            &&& forall|j: int| i <= j < k ==> #[trigger] s[j] != '\n'
            &&& k < s.len() ==> s[k] == '\n'
        }),
{
    lemma_next_where(s, i, newline());
    let k = next_where(s, i, newline());
    assert forall|j: int| i <= j < k implies #[trigger] s[j] != '\n' by {
        assert(!newline()(s[j]));
    }
    if k < s.len() {
        assert(newline()(s[k]));
    }
}

/// No carriage return stands directly before a line feed.
pub open spec fn lacks_return_feed(s: Seq<char>) -> bool {
    forall|i: int, j: int|
        0 <= i && j == i + 1 && j < s.len() ==> !(#[trigger] s[i] == '\r' && #[trigger] s[j]
            == '\n')
}

proof fn lemma_lines_from_join(s: Seq<char>, i: int)
    requires
        0 <= i < s.len(),
        lacks_return_feed(s),
    ensures
        lines_from(s, i).len() > 0,
        s.skip(i) == join(lines_from(s, i), "\n"@) + if s.last() == '\n' {
            "\n"@
        } else {
            Seq::empty()
        },
    decreases s.len() - i,
{
    reveal_strlit("\n");
    assert("\n"@ =~= seq!['\n']);
    lemma_lines_from_step(s, i);
    let k = next_where(s, i, newline());
    if k < s.len() {
        if i < k {
            assert(!(s[k - 1] == '\r' && s[k] == '\n'));
        }
        let line = s.subrange(i, k);
        assert(line_body(s, i, k, true) == line);
        let rest = lines_from(s, k + 1);
        assert(lines_from(s, i) == seq![line] + rest);
        if k + 1 < s.len() {
            lemma_lines_from_join(s, k + 1);
            lemma_join_adds(seq![line], rest, line, "\n"@);
            assert(s.skip(i) =~= line + "\n"@ + s.skip(k + 1));
            assert(s.skip(i) =~= join(lines_from(s, i), "\n"@) + if s.last() == '\n' {
                "\n"@
            } else {
                Seq::empty()
            });
        } else {
            assert(rest =~= Seq::<Seq<char>>::empty());
            assert(seq![line] + rest =~= seq![line]);
            assert(s.skip(i) =~= line + "\n"@);
        }
    } else {
        let line = s.subrange(i, k);
        if s.last() == '\n' {
            assert(s[s.len() - 1] != '\n');
        }
        assert(lines_from(s, i) == seq![line]);
        assert(s.skip(i) =~= line + Seq::<char>::empty());
    }
}

/// The lines of a text are what stands between its line feeds: joined by line feeds they give
/// the text again, but for a line feed at its end. That holds of text in which no carriage
/// return stands before a line feed.
pub proof fn lemma_join_of_lines(s: Seq<char>)
    requires
        lacks_return_feed(s),
    ensures
        s.len() == 0 ==> lines(s).len() == 0,
        s.len() > 0 && s.last() == '\n' ==> s == join(lines(s), "\n"@) + "\n"@,
        s.len() > 0 && s.last() != '\n' ==> s == join(lines(s), "\n"@),
        forall|j: int| 0 <= j < lines(s).len() ==> lacks(#[trigger] lines(s)[j], '\n'),
{
    lemma_lines_lack(s);
    if s.len() > 0 {
        lemma_lines_from_join(s, 0);
        assert(s.skip(0) =~= s);
        assert(join(lines(s), "\n"@) + Seq::<char>::empty() =~= join(lines(s), "\n"@));
    }
}

/// A carriage return and a line feed end a line as a line feed does.
pub proof fn lemma_lines_return_feed(a: Seq<char>, b: Seq<char>)
    requires
        lacks(a, '\n'),
        a.len() > 0 ==> a.last() != '\r',
    ensures
        lines(a + "\r\n"@ + b) == seq![a] + lines(b),
        lines(a + "\n"@ + b) == seq![a] + lines(b),
{
    reveal_strlit("\n");
    reveal_strlit("\r\n");
    assert("\n"@ =~= seq!['\n']);
    assert("\r\n"@ =~= seq!['\r', '\n']);
    let n = a.len() as int;
    let s = a + "\n"@ + b;
    lemma_lines_from_step(s, 0);
    assert(s[n] == '\n');
    let k = next_where(s, 0, newline());
    if k < n {
        assert(s[k] == a[k]);
    }
    assert(k == n);
    if n > 0 {
        assert(s[n - 1] == a[n - 1]);
    }
    assert(line_body(s, 0, n, true) =~= a);
    lemma_lines_shift(a + "\n"@, b, 0);
    let t = a + "\r\n"@ + b;
    lemma_lines_from_step(t, 0);
    assert(t[n + 1] == '\n' && t[n] == '\r');
    let m = next_where(t, 0, newline());
    if m < n {
        assert(t[m] == a[m]);
    }
    assert(m == n + 1);
    assert(line_body(t, 0, n + 1, true) =~= a);
    lemma_lines_shift(a + "\r\n"@, b, 0);
}

/// Lines that are joined come apart again; an empty line at the end is lost.
pub proof fn lemma_lines_of_any_join(parts: Seq<Seq<char>>)
    requires
        forall|j: int| 0 <= j < parts.len() ==> is_line(#[trigger] parts[j]),
    ensures
        lines(join(parts, "\n"@)) == if parts.len() > 0 && parts.last().len() == 0 {
            parts.drop_last()
        } else {
            parts
        },
{
    reveal_strlit("\n");
    assert("\n"@ =~= seq!['\n']);
    if parts.len() > 0 && parts.last().len() == 0 {
        let front = parts.drop_last();
        if front.len() == 0 {
            assert(join(parts, "\n"@) =~= Seq::<char>::empty());
            assert(lines(join(parts, "\n"@)) =~= front);
        } else {
            assert(join(parts, "\n"@) =~= join(front, "\n"@) + "\n"@);
            assert forall|j: int| 0 <= j < front.len() implies is_line(#[trigger] front[j]) by {
                assert(front[j] == parts[j]);
            }
            lemma_lines_ended(front);
        }
    } else {
        lemma_lines_of_join(parts);
    }
}

/// Lines that are joined and ended come apart again.
pub proof fn lemma_lines_ended(parts: Seq<Seq<char>>)
    requires
        parts.len() > 0,
        forall|j: int| 0 <= j < parts.len() ==> is_line(#[trigger] parts[j]),
    ensures
        lines(join(parts, "\n"@) + "\n"@) == parts,
    decreases parts.len(),
{
    reveal_strlit("\n");
    assert("\n"@ =~= seq!['\n']);
    let first = parts[0];
    assert(is_line(first));
    if parts.len() == 1 {
        lemma_lines_return_feed(first, Seq::empty());
        assert(join(parts, "\n"@) + "\n"@ =~= first + "\n"@ + Seq::<char>::empty());
        assert(lines(Seq::<char>::empty()) =~= Seq::<Seq<char>>::empty());
        assert(seq![first] + Seq::<Seq<char>>::empty() =~= parts);
    } else {
        let rest = parts.skip(1);
        assert forall|j: int| 0 <= j < rest.len() implies is_line(#[trigger] rest[j]) by {
            assert(rest[j] == parts[j + 1]);
        }
        lemma_lines_ended(rest);
        lemma_join_first(parts, "\n"@);
        lemma_lines_return_feed(first, join(rest, "\n"@) + "\n"@);
        assert(join(parts, "\n"@) + "\n"@ =~= first + "\n"@ + (join(rest, "\n"@) + "\n"@));
        assert(seq![first] + rest =~= parts);
    }
}

/// A text is its trimmed text with white space before and after it.
pub proof fn lemma_trim_parts(s: Seq<char>)
    ensures
        exists|a: Seq<char>, b: Seq<char>|
            #![trigger a + trim(s) + b]
            s == a + trim(s) + b && (forall|i: int| 0 <= i < a.len() ==> is_white(#[trigger] a[i]))
                && (forall|i: int| 0 <= i < b.len() ==> is_white(#[trigger] b[i])),
        trim(s).len() > 0 ==> !is_white(trim(s)[0]) && !is_white(trim(s).last()),
{
    lemma_trim_again(s);
    let n = s.len() as int;
    let x = next_where(s, 0, visible());
    let y = visible_end(s, n);
    lemma_next_where(s, 0, visible());
    lemma_visible_end_white(s, n);
    assert forall|i: int| 0 <= i < x implies is_white(#[trigger] s[i]) by {
        assert(!visible()(s[i]));
    }
    if x < y {
        let a = s.subrange(0, x);
        let b = s.subrange(y, n);
        assert(s =~= a + trim(s) + b);
    } else {
        if x < n {
            assert(visible()(s[x]));
        }
        let b = Seq::<char>::empty();
        assert(s =~= s + trim(s) + b);
    }
}

proof fn lemma_visible_end_white(s: Seq<char>, j: int)
    requires
        0 <= j <= s.len(),
    ensures
        0 <= visible_end(s, j) <= j,
        forall|i: int| visible_end(s, j) <= i < j ==> is_white(#[trigger] s[i]),
    decreases j,
{
    if j > 0 && is_white(s[j - 1]) {
        lemma_visible_end_white(s, j - 1);
    }
}

proof fn lemma_words_from_skip(s: Seq<char>, i: int)
    requires
        0 <= i < s.len(),
        is_white(s[i]),
    ensures
        words_from(s, i) == words_from(s, i + 1),
{
    assert(!visible()(s[i]));
    lemma_next_where(s, i + 1, visible());
}

proof fn lemma_next_where_before(a: Seq<char>, b: Seq<char>, i: int, p: spec_fn(char) -> bool)
    requires
        0 <= i <= a.len(),
    ensures
        next_where(a, i, p) < a.len() ==> next_where(a + b, i, p) == next_where(a, i, p),
        next_where(a, i, p) == a.len() ==> next_where(a + b, i, p) == next_where(
            a + b,
            a.len() as int,
            p,
        ),
    decreases a.len() - i,
{
    lemma_next_where(a, i, p);
    if i < a.len() {
        assert((a + b)[i] == a[i]);
        if !p(a[i]) {
            lemma_next_where_before(a, b, i + 1, p);
        }
    }
}

proof fn lemma_words_from_parts(a: Seq<char>, c: char, b: Seq<char>, i: int)
    requires
        0 <= i <= a.len(),
        is_white(c),
    ensures
        words_from(a + seq![c] + b, i) == words_from(a, i) + words(b),
    decreases a.len() - i,
{
    let rest = seq![c] + b;
    let s = a + seq![c] + b;
    let n = a.len() as int;
    assert(s =~= a + rest);
    assert(s[n] == c);
    lemma_words_from_skip(s, n);
    assert(s =~= (a + seq![c]) + b);
    lemma_words_shift(a + seq![c], b, 0);
    assert(words_from(s, n) == words(b));
    if i < n {
        let x = next_where(a, i, visible());
        lemma_next_where(a, i, visible());
        lemma_next_where_before(a, rest, i, visible());
        if x < n {
            let y = next_where(a, x, white());
            assert(visible()(a[x]));
            lemma_next_where(a, x, white());
            lemma_next_where_before(a, rest, x, white());
            assert(white()(s[n]));
            assert(next_where(s, x, white()) == y);
            assert(s.subrange(x, y) =~= a.subrange(x, y));
            lemma_words_from_parts(a, c, b, y);
            assert(words_from(s, i) =~= words_from(a, i) + words(b));
        } else {
            assert(words_from(a, i) =~= Seq::<Seq<char>>::empty());
            lemma_next_where(s, n, visible());
            assert(words_from(s, i) == words_from(s, n));
            assert(words_from(a, i) + words(b) =~= words(b));
        }
    } else {
        assert(words_from(a, i) =~= Seq::<Seq<char>>::empty());
        assert(words_from(a, i) + words(b) =~= words(b));
    }
}

/// White space parts a text into the words before it and the words after it, a word by itself
/// is one word, and nothing has none.
pub proof fn lemma_words_parts(a: Seq<char>, c: char, b: Seq<char>, word: Seq<char>)
    requires
        is_white(c),
        is_word(word),
    ensures
        words(a + seq![c] + b) == words(a) + words(b),
        words(word) == seq![word],
        words(Seq::empty()) == Seq::<Seq<char>>::empty(),
{
    lemma_words_from_parts(a, c, b, 0);
    let one = seq![word];
    assert(forall|j: int| 0 <= j < one.len() ==> is_word(#[trigger] one[j]));
    lemma_words_of_join(one);
    assert(join(one, " "@) == word);
}

/// An aligned text has its width, or its own if that is more; the text stands at its left or
/// at its right, and the rest is spaces.
pub proof fn lemma_aligned(s: Seq<char>, width: nat)
    ensures
        s.len() <= width ==> left_aligned(s, width).len() == width && right_aligned(s, width).len()
            == width,
        s.len() > width ==> left_aligned(s, width) == s && right_aligned(s, width) == s,
        left_aligned(s, width).take(s.len() as int) == s,
        right_aligned(s, width).skip(right_aligned(s, width).len() - s.len()) == s,
        forall|i: int|
            s.len() <= i < left_aligned(s, width).len() ==> #[trigger] left_aligned(s, width)[i]
                == ' ',
        forall|i: int|
            0 <= i < right_aligned(s, width).len() - s.len() ==> #[trigger] right_aligned(
                s,
                width,
            )[i] == ' ',
{
    assert(left_aligned(s, width).take(s.len() as int) =~= s);
    assert(right_aligned(s, width).skip(right_aligned(s, width).len() - s.len()) =~= s);
}

/// Every line at a position that is picked is there.
pub proof fn lemma_picked_has(l: Seq<Seq<char>>, i: int, p: spec_fn(int) -> bool, k: int)
    requires
        0 <= i <= k < l.len(),
        p(k),
    ensures
        picked(l, i, p).contains(l[k]),
    decreases k - i,
{
    lemma_picked_step(l, i, p);
    if i == k {
        assert(picked(l, i, p)[0] == l[k]);
    } else {
        lemma_picked_has(l, i + 1, p, k);
        let rest = picked(l, i + 1, p);
        let j = choose|j: int| 0 <= j < rest.len() && rest[j] == l[k];
        if p(i) {
            assert(picked(l, i, p)[j + 1] == l[k]);
        }
    }
}

/// A text whose first and last characters are visible has nothing to trim.
pub proof fn lemma_trim_none(s: Seq<char>)
    requires
        s.len() > 0,
        !is_white(s[0]),
        !is_white(s.last()),
    ensures
        trim(s) == s,
{
    lemma_trim_parts(s);
    let (a, b) = choose|a: Seq<char>, b: Seq<char>|
        #![trigger a + trim(s) + b]
        s == a + trim(s) + b && (forall|i: int| 0 <= i < a.len() ==> is_white(#[trigger] a[i]))
            && (forall|i: int| 0 <= i < b.len() ==> is_white(#[trigger] b[i]));
    if a.len() > 0 {
        assert(s[0] == a[0]);
    }
    if b.len() > 0 {
        assert(s.last() == b[b.len() - 1]);
    }
    assert(a + trim(s) + b =~= trim(s));
}

/// A text whose last character is visible ends with what is left of its end when that is trimmed.
pub proof fn lemma_trim_end(s: Seq<char>, k: int)
    requires
        0 <= k <= s.len(),
        s.len() > 0,
        !is_white(s.last()),
        trim(s.skip(k)).len() > 0,
    ensures
        trim(s.skip(k)).len() <= s.len(),
        s.skip(s.len() - trim(s.skip(k)).len()) == trim(s.skip(k)),
{
    let t = s.skip(k);
    lemma_trim_parts(t);
    let (a, b) = choose|a: Seq<char>, b: Seq<char>|
        #![trigger a + trim(t) + b]
        t == a + trim(t) + b && (forall|i: int| 0 <= i < a.len() ==> is_white(#[trigger] a[i]))
            && (forall|i: int| 0 <= i < b.len() ==> is_white(#[trigger] b[i]));
    if b.len() > 0 {
        assert(t.last() == b[b.len() - 1]);
        assert(t.last() == s.last());
    }
    let x = trim(t);
    let whole = a + x + b;
    assert(b.len() == 0);
    assert forall|i: int| 0 <= i < x.len() implies s.skip(s.len() - x.len())[i] == #[trigger] x[i] by {
        assert(whole[a.len() + i] == x[i]);
        assert(t[a.len() + i] == s[k + a.len() + i]);
    }
    assert(s.skip(s.len() - x.len()) =~= x);
}

}
