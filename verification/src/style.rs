//! Styled text: pieces of text, each with the paint that it gets on a terminal.

use std::io::IsTerminal;

use colored::Colorize;
use vstd::prelude::*;

use crate::text;
use crate::text::{chars_of, copy, extend, string_of};
use crate::utils;

verus! {

/// How a piece of text looks on a terminal.
#[derive(Clone, Copy, Debug, PartialEq, Eq, Structural)]
pub enum Paint {
    /// As it is.
    Plain,
    /// A heading or an affirmation: bold green.
    Heading,
    /// The name of a command: bold bright cyan.
    Command,
    /// A number of tokens: bright white.
    Tokens,
    /// A high percentage: bold green.
    High,
    /// A middling percentage: bold yellow.
    Middling,
    /// A low percentage, or a denial: bold red.
    Low,
    /// Neither good nor bad: yellow.
    Neutral,
    /// A bar of a chart: cyan.
    Bar,
    /// A meter: green.
    Meter,
}

/// A piece of text and its paint.
pub struct Span {
    pub text: Vec<char>,
    pub paint: Paint,
}

/// A piece of text and its paint, as a value.
pub type Piece = (Seq<char>, Paint);

/// The values of a list of spans.
pub open spec fn pieces(v: Seq<Span>) -> Seq<Piece> {
    Seq::new(v.len(), |i: int| (v[i].text@, v[i].paint))
}

/// `texts`, one after the other.
pub open spec fn flat(texts: Seq<Seq<char>>) -> Seq<char>
    decreases texts.len(),
{
    if texts.len() == 0 {
        Seq::empty()
    } else {
        flat(texts.drop_last()) + texts.last()
    }
}

/// The texts of the pieces `p`.
pub open spec fn bare(p: Seq<Piece>) -> Seq<Seq<char>> {
    Seq::new(p.len(), |i: int| p[i].0)
}

/// The pieces `p` as plain text.
pub open spec fn plain(p: Seq<Piece>) -> Seq<char> {
    flat(bare(p))
}

/// The escape sequence that ends a style.
pub open spec fn reset() -> Seq<char> {
    seq!['\x1b', '[', '0', 'm']
}

/// `s` from `i` on, the escape sequence `style` being repeated after each reset.
pub open spec fn restyled_from(s: Seq<char>, i: int, style: Seq<char>) -> Seq<char>
    decreases s.len() - i,
{
    if i < 0 || i >= s.len() {
        Seq::empty()
    } else if text::stands_at(s, i, reset()) {
        reset() + style + restyled_from(s, i + 4, style)
    } else {
        seq![s[i]] + restyled_from(s, i + 1, style)
    }
}

/// `s` between the escape sequence of the style `code` and a reset.
pub open spec fn escaped(s: Seq<char>, code: Seq<char>) -> Seq<char> {
    let style = "\x1b["@ + code + "m"@;
    style + restyled_from(s, 0, style) + reset()
}

/// The code of a foreground colour, by its name.
pub open spec fn color_code(name: Seq<char>) -> Option<Seq<char>> {
    if name == "red"@ {
        Some("31"@)
    } else if name == "green"@ {
        Some("32"@)
    } else if name == "yellow"@ {
        Some("33"@)
    } else if name == "cyan"@ {
        Some("36"@)
    } else if name == "bright cyan"@ {
        Some("96"@)
    } else if name == "bright white"@ {
        Some("97"@)
    } else {
        None
    }
}

/// `Colorize::color` of the `colored` crate, and the rendering of its result. The crate
/// decides from the environment and the terminal whether it colours at all: the text comes
/// out as it is, or between the escape sequence of the colour and a reset.
#[verifier::external_body]
fn in_color(text: &str, color: &str) -> (r: String)
    requires
        color_code(color@) is Some,
    ensures
        r@ == text@ || r@ == escaped(text@, color_code(color@)->0),
{
    text.color(color).to_string()
}

/// `Colorize::color` and `Colorize::bold` of the `colored` crate, and the rendering of their
/// result. The crate decides from the environment and the terminal whether it styles at all:
/// the text comes out as it is, or between the escape sequence of the style and a reset.
#[verifier::external_body]
fn in_bold_color(text: &str, color: &str) -> (r: String)
    requires
        color_code(color@) is Some,
    ensures
        r@ == text@ || r@ == escaped(text@, "1;"@ + color_code(color@)->0),
{
    text.color(color).bold().to_string()
}

/// The code of the style of a paint.
pub open spec fn paint_code(paint: Paint) -> Seq<char> {
    match paint {
        Paint::Plain => ""@,
        Paint::Heading => "1;"@ + "32"@,
        Paint::Command => "1;"@ + "96"@,
        Paint::Tokens => "97"@,
        Paint::High => "1;"@ + "32"@,
        Paint::Middling => "1;"@ + "33"@,
        Paint::Low => "1;"@ + "31"@,
        Paint::Neutral => "33"@,
        Paint::Bar => "36"@,
        Paint::Meter => "32"@,
    }
}

/// `r` is the text `s` with a paint that a terminal may show: as it is, or in its style.
pub open spec fn is_painted(s: Seq<char>, paint: Paint, r: Seq<char>) -> bool {
    r == s || (paint != Paint::Plain && r == escaped(s, paint_code(paint)))
}

/// Gives a text its paint, if the terminal shows colours.
pub fn paint_text(s: &str, paint: Paint) -> (r: String)
    ensures
        is_painted(s@, paint, r@),
{
    proof {
        reveal_strlit("red");
        reveal_strlit("green");
        reveal_strlit("yellow");
        reveal_strlit("cyan");
        reveal_strlit("bright cyan");
        reveal_strlit("bright white");
        assert("red"@.len() == 3 && "green"@.len() == 5 && "yellow"@.len() == 6);
        assert("cyan"@.len() == 4 && "bright cyan"@.len() == 11 && "bright white"@.len() == 12);
    }
    match paint {
        Paint::Plain => string_of(&chars_of(s)),
        Paint::Heading => in_bold_color(s, "green"),
        Paint::Command => in_bold_color(s, "bright cyan"),
        Paint::Tokens => in_color(s, "bright white"),
        Paint::High => in_bold_color(s, "green"),
        Paint::Middling => in_bold_color(s, "yellow"),
        Paint::Low => in_bold_color(s, "red"),
        Paint::Neutral => in_color(s, "yellow"),
        Paint::Bar => in_color(s, "cyan"),
        Paint::Meter => in_color(s, "green"),
    }
}

/// The paint of a whole percentage.
pub open spec fn tier(pct: nat) -> Paint {
    if pct >= 70 {
        Paint::High
    } else if pct >= 40 {
        Paint::Middling
    } else {
        Paint::Low
    }
}

/// The texts one after the other.
pub fn flatten(texts: &Vec<Vec<char>>) -> (r: String)
    ensures
        r@ == flat(text::views(texts@)),
{
    let ghost all = text::views(texts@);
    let mut out: Vec<char> = Vec::new();
    let mut i: usize = 0;
    while i < texts.len()
        invariant
            i <= texts.len(),
            all == text::views(texts@),
            out@ == flat(all.take(i as int)),
        decreases texts.len() - i,
    {
        extend(&mut out, &texts[i]);
        assert(all.take(i + 1).drop_last() =~= all.take(i as int));
        i += 1;
    }
    assert(all.take(all.len() as int) =~= all);
    string_of(&out)
}

/// `texts` are the pieces `p` as a terminal shows them.
pub open spec fn are_painted(p: Seq<Piece>, texts: Seq<Seq<char>>) -> bool {
    &&& texts.len() == p.len()
    &&& forall|i: int| 0 <= i < p.len() ==> is_painted(p[i].0, p[i].1, #[trigger] texts[i])
}

/// `r` is a rendering of the pieces `p`: plain text off a terminal, and on a terminal each
/// piece as its paint may show it.
pub open spec fn is_rendering(p: Seq<Piece>, tty: bool, r: Seq<char>) -> bool {
    if tty {
        exists|texts: Seq<Seq<char>>| #[trigger] are_painted(p, texts) && r == flat(texts)
    } else {
        r == plain(p)
    }
}

/// Renders styled text for a terminal (`tty`) or for anything else.
pub fn render(spans: &Vec<Span>, tty: bool) -> (r: String)
    ensures
        is_rendering(pieces(spans@), tty, r@),
{
    let ghost p = pieces(spans@);
    let mut texts: Vec<Vec<char>> = Vec::new();
    let mut i: usize = 0;
    while i < spans.len()
        invariant
            i <= spans.len(),
            p == pieces(spans@),
            texts.len() == i,
            forall|j: int|
                0 <= j < i ==> is_painted(p[j].0, p[j].1, #[trigger] text::views(texts@)[j]),
            !tty ==> text::views(texts@) =~= bare(p).take(i as int),
        decreases spans.len() - i,
    {
        let ghost before = texts@;
        let shown = if tty {
            chars_of(paint_text(string_of(&spans[i].text).as_str(), spans[i].paint).as_str())
        } else {
            copy(&spans[i].text)
        };
        texts.push(shown);
        proof {
            text::lemma_views_push(before, shown);
            assert(p[i as int] == (spans@[i as int].text@, spans@[i as int].paint));
        }
        i += 1;
    }
    assert(!tty ==> text::views(texts@) =~= bare(p));
    assert(are_painted(p, text::views(texts@)));
    flatten(&texts)
}

/// `IsTerminal::is_terminal` of the standard output. Nothing is claimed of the answer: it is
/// the machine's.
#[verifier::external_body]
pub(crate) fn on_terminal() -> bool {
    std::io::stdout().is_terminal()
}

/// Plain text is a rendering too, on a terminal that shows no colours.
pub proof fn lemma_plain_rendering(p: Seq<Piece>)
    ensures
        is_rendering(p, true, plain(p)),
{
    assert(are_painted(p, bare(p)));
}

/// Appends a text with its paint.
pub fn say(out: &mut Vec<Span>, text: Vec<char>, paint: Paint)
    ensures
        pieces(final(out)@) == pieces(old(out)@).push((text@, paint)),
{
    let ghost before = pieces(out@);
    let ghost value = text@;
    out.push(Span { text, paint });
    assert(pieces(out@) =~= before.push((value, paint)));
}

/// Appends a string as plain text.
pub fn say_plain(out: &mut Vec<Span>, s: &str)
    ensures
        pieces(final(out)@) == pieces(old(out)@).push((s@, Paint::Plain)),
{
    say(out, chars_of(s), Paint::Plain)
}

/// The texts one after the other, the first set apart.
proof fn lemma_flat_first(texts: Seq<Seq<char>>)
    requires
        texts.len() > 0,
    ensures
        flat(texts) == texts[0] + flat(texts.skip(1)),
    decreases texts.len(),
{
    if texts.len() == 1 {
        assert(texts.drop_last() =~= Seq::<Seq<char>>::empty());
        assert(texts.skip(1) =~= Seq::<Seq<char>>::empty());
        assert(flat(texts) =~= texts[0] + flat(texts.skip(1)));
    } else {
        lemma_flat_first(texts.drop_last());
        assert(texts.drop_last().skip(1) =~= texts.skip(1).drop_last());
        assert(texts.skip(1).last() == texts.last());
        assert(flat(texts) =~= texts[0] + flat(texts.skip(1)));
    }
}

/// Without an escape character there is nothing to strip from the start of a text.
proof fn lemma_plain_start(s: Seq<char>, i: int, k: int)
    requires
        0 <= i <= k <= s.len(),
        forall|j: int| i <= j < k ==> #[trigger] s[j] != '\x1b',
    ensures
        utils::unescaped_from(s, i) == s.subrange(i, k) + utils::unescaped_from(s, k),
    decreases k - i,
{
    if i < k {
        lemma_plain_start(s, i + 1, k);
        assert(s[i] != '\x1b');
        assert(seq![s[i]] + (s.subrange(i + 1, k) + utils::unescaped_from(s, k)) =~= s.subrange(i, k)
            + utils::unescaped_from(s, k));
    } else {
        assert(s.subrange(i, k) + utils::unescaped_from(s, k) =~= utils::unescaped_from(s, k));
    }
}

/// Where a text goes on does not matter to what is stripped after it.
proof fn lemma_unescaped_shift(a: Seq<char>, b: Seq<char>, i: int)
    requires
        0 <= i <= b.len(),
    ensures
        utils::unescaped_from(a + b, a.len() + i) == utils::unescaped_from(b, i),
    decreases b.len() - i,
{
    let s = a + b;
    if i < b.len() {
        let at = a.len() + i;
        if i + 2 <= b.len() {
            lemma_next_shift(a, b, i + 2, utils::no_parameter());
            text::lemma_next_where(b, i + 2, utils::no_parameter());
        }
        assert(s[at] == b[i]);
        if i + 1 < b.len() {
            assert(s[at + 1] == b[i + 1]);
        }
        let e = utils::escape_end(b, i);
        if e > i {
            assert(s[a.len() + (e - 1)] == b[e - 1]);
            assert(utils::escape_end(s, at) == a.len() + e);
            lemma_unescaped_shift(a, b, e);
        } else {
            let j = text::next_where(b, i + 2, utils::no_parameter());
            if i + 2 <= b.len() && j < b.len() {
                assert(s[a.len() + j] == b[j]);
            }
            assert(utils::escape_end(s, at) == at);
            lemma_unescaped_shift(a, b, i + 1);
        }
    }
}

proof fn lemma_next_shift(a: Seq<char>, b: Seq<char>, i: int, p: spec_fn(char) -> bool)
    requires
        0 <= i <= b.len(),
    ensures
        text::next_where(a + b, a.len() + i, p) == a.len() + text::next_where(b, i, p),
    decreases b.len() - i,
{
    if i < b.len() {
        assert((a + b)[a.len() + i] == b[i]);
        lemma_next_shift(a, b, i + 1, p);
    }
}

/// The code of a style is made of digits and semicolons.
proof fn lemma_paint_code(paint: Paint)
    ensures
        paint_code(paint).len() <= 4,
        forall|i: int|
            0 <= i < paint_code(paint).len() ==> !utils::no_parameter()(
                #[trigger] paint_code(paint)[i],
            ),
{
    reveal_strlit("");
    reveal_strlit("1;");
    reveal_strlit("31");
    reveal_strlit("32");
    reveal_strlit("33");
    reveal_strlit("36");
    reveal_strlit("96");
    reveal_strlit("97");
    assert(""@.len() == 0 && "1;"@.len() == 2 && "31"@.len() == 2 && "32"@.len() == 2);
    assert("33"@.len() == 2 && "36"@.len() == 2 && "96"@.len() == 2 && "97"@.len() == 2);
    assert forall|i: int| 0 <= i < paint_code(paint).len() implies !utils::no_parameter()(
        #[trigger] paint_code(paint)[i],
    ) by {
        let c = paint_code(paint);
        if i < 2 {
            assert(c[i] == c.take(2)[i]);
        }
    }
}

proof fn lemma_next_after(s: Seq<char>, i: int, k: int, p: spec_fn(char) -> bool)
    requires
        0 <= i <= k < s.len(),
        forall|j: int| i <= j < k ==> !p(#[trigger] s[j]),
        p(s[k]),
    ensures
        text::next_where(s, i, p) == k,
    decreases k - i,
{
    if i < k {
        assert(!p(s[i]));
        lemma_next_after(s, i + 1, k, p);
    }
}

/// The escape sequence of a style at the start of a text is stripped.
proof fn lemma_style_stripped(code: Seq<char>, rest: Seq<char>)
    requires
        forall|i: int| 0 <= i < code.len() ==> !utils::no_parameter()(#[trigger] code[i]),
    ensures
        utils::unescaped(("\x1b["@ + code + "m"@) + rest) == utils::unescaped(rest),
{
    reveal_strlit("\x1b[");
    reveal_strlit("m");
    assert("\x1b["@.len() == 2 && "m"@.len() == 1);
    let style = "\x1b["@ + code + "m"@;
    let s = style + rest;
    let k = code.len() + 2;
    assert(s[0] == '\x1b' && s[1] == '[');
    assert(s[k as int] == 'm');
    assert forall|j: int| 2 <= j < k implies !utils::no_parameter()(#[trigger] s[j]) by {
        assert(s[j] == code[j - 2]);
    }
    lemma_next_after(s, 2, k as int, utils::no_parameter());
    assert(utils::escape_end(s, 0) == k + 1);
    assert(style.len() == k + 1);
    lemma_unescaped_shift(style, rest, 0);
}

/// A text without escape characters has no resets to restyle.
proof fn lemma_restyled(s: Seq<char>, i: int, style: Seq<char>)
    requires
        0 <= i <= s.len(),
        text::lacks(s, '\x1b'),
    ensures
        restyled_from(s, i, style) == s.skip(i),
    decreases s.len() - i,
{
    if i < s.len() {
        lemma_restyled(s, i + 1, style);
        if text::stands_at(s, i, reset()) {
            assert(s.subrange(i, i + 4)[0] == '\x1b');
            assert(s[i] == '\x1b');
        }
        assert(seq![s[i]] + s.skip(i + 1) =~= s.skip(i));
    } else {
        assert(s.skip(i) =~= Seq::<char>::empty());
    }
}

proof fn lemma_piece_stripped(s: Seq<char>, paint: Paint, r: Seq<char>, rest: Seq<char>)
    requires
        text::lacks(s, '\x1b'),
        is_painted(s, paint, r),
    ensures
        utils::unescaped(r + rest) == s + utils::unescaped(rest),
{
    if r == s {
        let whole = s + rest;
        assert forall|j: int| 0 <= j < s.len() implies #[trigger] whole[j] != '\x1b' by {
            assert(whole[j] == s[j]);
        }
        lemma_plain_start(whole, 0, s.len() as int);
        assert(whole.subrange(0, s.len() as int) =~= s);
        lemma_unescaped_shift(s, rest, 0);
    } else {
        let code = paint_code(paint);
        let style = "\x1b["@ + code + "m"@;
        lemma_paint_code(paint);
        lemma_restyled(s, 0, style);
        assert(s.skip(0) =~= s);
        reveal_strlit("\x1b[");
        reveal_strlit("m");
        let none = Seq::<char>::empty();
        let zero = seq!['0'];
        assert(reset() =~= "\x1b["@ + zero + "m"@);
        assert(r =~= style + s + reset());
        let tail = reset() + rest;
        lemma_style_stripped(zero, rest);
        assert(tail =~= ("\x1b["@ + zero + "m"@) + rest);
        let inner = s + tail;
        assert forall|j: int| 0 <= j < s.len() implies #[trigger] inner[j] != '\x1b' by {
            assert(inner[j] == s[j]);
        }
        lemma_plain_start(inner, 0, s.len() as int);
        assert(inner.subrange(0, s.len() as int) =~= s);
        lemma_unescaped_shift(s, tail, 0);
        lemma_style_stripped(code, inner);
        assert(r + rest =~= style + inner);
    }
}

proof fn lemma_texts_stripped(p: Seq<Piece>, texts: Seq<Seq<char>>)
    requires
        are_painted(p, texts),
        forall|i: int| 0 <= i < p.len() ==> text::lacks((#[trigger] p[i]).0, '\x1b'),
    ensures
        utils::unescaped(flat(texts)) == plain(p),
    decreases p.len(),
{
    if p.len() == 0 {
        assert(bare(p) =~= Seq::<Seq<char>>::empty());
        assert(texts =~= Seq::<Seq<char>>::empty());
    } else {
        let q = p.skip(1);
        let rest = texts.skip(1);
        assert forall|i: int| 0 <= i < q.len() implies is_painted(
            q[i].0,
            q[i].1,
            #[trigger] rest[i],
        ) by {
            assert(is_painted(p[i + 1].0, p[i + 1].1, texts[i + 1]));
        }
        assert forall|i: int| 0 <= i < q.len() implies text::lacks((#[trigger] q[i]).0, '\x1b') by {
            assert(text::lacks(p[i + 1].0, '\x1b'));
        }
        lemma_texts_stripped(q, rest);
        lemma_flat_first(texts);
        lemma_flat_first(bare(p));
        assert(bare(p).skip(1) =~= bare(q));
        assert(is_painted(p[0].0, p[0].1, texts[0]));
        assert(text::lacks(p[0].0, '\x1b'));
        lemma_piece_stripped(p[0].0, p[0].1, texts[0], flat(rest));
    }
}

/// Paint changes nothing but how a text looks: without its escape sequences, what a terminal
/// shows of pieces without escape characters is their plain text.
pub proof fn lemma_rendering_stripped(p: Seq<Piece>, tty: bool, r: Seq<char>)
    requires
        is_rendering(p, tty, r),
        forall|i: int| 0 <= i < p.len() ==> text::lacks((#[trigger] p[i]).0, '\x1b'),
    ensures
        utils::unescaped(r) == plain(p),
{
    if tty {
        let texts = choose|texts: Seq<Seq<char>>|
            #[trigger] are_painted(p, texts) && r == flat(texts);
        lemma_texts_stripped(p, texts);
    } else {
        assert(are_painted(p, bare(p)));
        lemma_texts_stripped(p, bare(p));
    }
}

/// A piece adds its characters to the plain text.
pub proof fn lemma_plain_push(p: Seq<Piece>, x: Piece)
    ensures
        plain(p.push(x)) == plain(p) + x.0,
{
    assert(bare(p.push(x)).drop_last() =~= bare(p));
}

/// No pieces are no text.
pub proof fn lemma_plain_empty()
    ensures
        plain(Seq::empty()).len() == 0,
{
    assert(bare(Seq::<Piece>::empty()) =~= Seq::<Seq<char>>::empty());
}

/// From position `at` on, `p` holds the pieces of `row`.
pub open spec fn holds(p: Seq<Piece>, at: int, row: Seq<Piece>) -> bool {
    0 <= at && at + row.len() <= p.len() && p.subrange(at, at + row.len()) == row
}

/// Pieces put around others move them.
pub proof fn lemma_holds_around(
    before: Seq<Piece>,
    p: Seq<Piece>,
    after: Seq<Piece>,
    at: int,
    row: Seq<Piece>,
)
    requires
        holds(p, at, row),
    ensures
        holds(before + p + after, before.len() + at, row),
{
    let t = before + p + after;
    assert(t.subrange(before.len() + at, before.len() + at + row.len()) =~= p.subrange(
        at,
        at + row.len(),
    ));
}

/// Text that is put together is the text of the first pieces and then that of the others.
pub proof fn lemma_plain_adds(a: Seq<Piece>, b: Seq<Piece>)
    ensures
        plain(a + b) == plain(a) + plain(b),
    decreases b.len(),
{
    if b.len() == 0 {
        assert(a + b =~= a);
        assert(bare(b) =~= Seq::<Seq<char>>::empty());
        assert(plain(a) + plain(b) =~= plain(a));
    } else {
        lemma_plain_adds(a, b.drop_last());
        assert(bare(a + b).drop_last() =~= bare(a + b.drop_last()));
        assert(bare(a + b).last() == b.last().0);
        assert(bare(b).drop_last() =~= bare(b.drop_last()));
        assert(plain(a + b) =~= plain(a) + plain(b));
    }
}

}
