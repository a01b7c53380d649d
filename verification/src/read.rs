//! Views of a file's content: numbered lines and a diet for Markdown.

use vstd::prelude::*;

use crate::comment;
use crate::comment::without_comments;
use crate::number;
use crate::number::decimal_of;
use crate::text;
use crate::text::{
    align_right, chars_of, extend, extend_str, find_at, has, has_prefix, has_suffix, is_whitespace,
    joined_lines, lines_of, string_of, trimmed,
};

verus! {

/// What the diet remembers from the lines before.
pub struct Diet {
    /// Inside a fenced code block.
    pub code: bool,
    /// Inside an HTML comment.
    pub comment: bool,
    /// A blank line was kept, and no line since.
    pub blank: bool,
    /// The rows kept of the table at hand.
    pub rows: nat,
    /// A line between the rows of the table at hand was removed, and no row kept since.
    pub gap: bool,
}

/// A line that only decorates: three or more of `mark` and spaces.
pub open spec fn is_rule_of(t: Seq<char>, mark: char) -> bool {
    t.len() >= 3 && forall|i: int| 0 <= i < t.len() ==> (#[trigger] t[i] == mark || t[i] == ' ')
}

/// A line that underlines a heading or fences something off.
pub open spec fn is_underline(t: Seq<char>) -> bool {
    is_rule_of(t, '=') || is_rule_of(t, '~')
}

/// A purely decorative line.
pub open spec fn is_rule(t: Seq<char>) -> bool {
    is_underline(t) || is_rule_of(t, '-')
}

pub open spec fn is_table_row(t: Seq<char>) -> bool {
    text::starts_with(t, "|"@) && text::ends_with(t, "|"@)
}

/// A character of a row that separates the header of a table from the rows below.
pub open spec fn is_separator_char(c: char) -> bool {
    c == '|' || c == '-' || c == ':' || text::is_white(c)
}

/// A row that separates the header of a table from the rows below.
pub open spec fn is_separator_row(t: Seq<char>) -> bool {
    &&& is_table_row(t)
    &&& t.contains('-')
    &&& forall|i: int| 0 <= i < t.len() ==> is_separator_char(#[trigger] t[i])
}

/// Line `i` is the header of a table, and the line after it a separator. With `inside`, line
/// `i` begins in a comment.
pub open spec fn begins_table(l: Seq<Seq<char>>, i: int, inside: bool) -> bool {
    let (line, after) = comment::shown(l[i], inside);
    &&& is_table_row(text::trim(line))
    &&& !is_separator_row(text::trim(line))
    &&& i + 1 < l.len()
    &&& is_separator_row(text::trim(comment::shown(l[i + 1], after).0))
}

/// An item of a checklist. A bullet with a link whose text is `x` is none.
pub open spec fn is_checklist_item(t: Seq<char>) -> bool {
    &&& text::starts_with(t, "- [ ]"@) || text::starts_with(t, "- [x]"@) || text::starts_with(
        t,
        "- [X]"@,
    )
    &&& !(t.len() > 5 && (t[5] == '(' || t[5] == '['))
}

pub open spec fn is_fence(t: Seq<char>) -> bool {
    text::starts_with(t, "```"@)
}

pub open spec fn not_backtick() -> spec_fn(char) -> bool {
    |c: char| c != '`'
}

/// A fence with its counterpart on the same line: the code block ends where it began.
pub open spec fn is_whole_block(t: Seq<char>) -> bool {
    text::next_at(t, text::next_where(t, 0, not_backtick()), "```"@) < t.len()
}

/// Where the table rows that begin at line `i` end, and whether a comment is open there.
/// With `inside`, line `i` begins in a comment.
pub open spec fn table_end(l: Seq<Seq<char>>, i: int, inside: bool) -> (int, bool)
    decreases l.len() - i,
{
    if 0 <= i < l.len() && is_table_row(text::trim(comment::shown(l[i], inside).0)) {
        table_end(l, i + 1, comment::shown(l[i], inside).1)
    } else {
        (i, inside)
    }
}

pub proof fn lemma_table_end(l: Seq<Seq<char>>, i: int, inside: bool)
    requires
        0 <= i <= l.len(),
    ensures
        i <= table_end(l, i, inside).0 <= l.len(),
        i < l.len() && is_table_row(text::trim(comment::shown(l[i], inside).0)) ==> i < table_end(
            l,
            i,
            inside,
        ).0,
    decreases l.len() - i,
{
    if i < l.len() && is_table_row(text::trim(comment::shown(l[i], inside).0)) {
        lemma_table_end(l, i + 1, comment::shown(l[i], inside).1);
    }
}

/// The line that stands for the rest of a table.
pub open spec fn rows_omitted(n: nat) -> Seq<char> {
    "  ("@ + number::decimal(n) + " rows omitted)"@
}

/// What the diet keeps of the lines from `i` on. A line outside code is taken without its
/// comments.
///
/// A comment, an underline or a code block between the rows of a table does not end it, unless
/// the header of another table follows.
pub open spec fn diet_from(l: Seq<Seq<char>>, i: int, d: Diet) -> Seq<Seq<char>>
    decreases l.len() - i,
    when 0 <= i <= l.len()
{
    if i >= l.len() {
        Seq::empty()
    } else if d.code {
        diet_from(l, i + 1, Diet { code: !is_fence(text::trim(l[i])), ..d })
    } else {
        let (line, comment) = comment::shown(l[i], d.comment);
        let t = text::trim(line);
        let (end, comment_after) = table_end(l, i, d.comment);
        let rows = if d.gap && begins_table(l, i, d.comment) {
            0
        } else {
            d.rows
        };
        proof {
            lemma_table_end(l, i, d.comment);
        }
        if t.len() == 0 && comment::is_commented(l[i], d.comment) || is_underline(t) {
            diet_from(l, i + 1, Diet { comment, gap: true, ..d })
        } else if is_fence(t) {
            seq!["  (code example omitted)"@] + diet_from(
                l,
                i + 1,
                Diet { code: !is_whole_block(t), comment, blank: false, gap: true, ..d },
            )
        } else if is_rule(t) || is_checklist_item(t) {
            diet_from(l, i + 1, Diet { comment, rows: 0, gap: false, ..d })
        } else if is_table_row(t) && rows < 2 {
            seq![line] + diet_from(
                l,
                i + 1,
                Diet { comment, blank: false, rows: rows + 1, gap: false, ..d },
            )
        } else if is_table_row(t) {
            seq![rows_omitted((end - i) as nat)] + diet_from(
                l,
                end,
                Diet { comment: comment_after, blank: false, rows: 0, gap: false, ..d },
            )
        } else if t.len() > 0 {
            seq![line] + diet_from(
                l,
                i + 1,
                Diet { comment, blank: false, rows: 0, gap: false, ..d },
            )
        } else if d.blank {
            diet_from(l, i + 1, Diet { comment, rows: 0, gap: false, ..d })
        } else {
            seq![Seq::empty()] + diet_from(
                l,
                i + 1,
                Diet { comment, blank: true, rows: 0, gap: false, ..d },
            )
        }
    }
}

/// The diet before the first line.
pub open spec fn start() -> Diet {
    Diet { code: false, comment: false, blank: false, rows: 0, gap: false }
}

/// The lines that the diet keeps of `l`.
pub open spec fn diet(l: Seq<Seq<char>>) -> Seq<Seq<char>> {
    diet_from(l, 0, start())
}

fn only_of(t: &Vec<char>, mark: char) -> (r: bool)
    ensures
        r == is_rule_of(t@, mark),
{
    if t.len() < 3 {
        return false;
    }
    let mut i: usize = 0;
    while i < t.len()
        invariant
            i <= t.len(),
            t.len() >= 3,
            forall|j: int| 0 <= j < i ==> (#[trigger] t@[j] == mark || t@[j] == ' '),
        decreases t.len() - i,
    {
        if t[i] != mark && t[i] != ' ' {
            return false;
        }
        i += 1;
    }
    true
}

fn underline(t: &Vec<char>) -> (r: bool)
    ensures
        r == is_underline(t@),
{
    only_of(t, '=') || only_of(t, '~')
}

fn separator_row(t: &Vec<char>) -> (r: bool)
    ensures
        r == is_separator_row(t@),
{
    let mut dash: bool = false;
    let mut i: usize = 0;
    while i < t.len()
        invariant
            i <= t.len(),
            dash <==> exists|j: int| 0 <= j < i && t@[j] == '-',
            forall|j: int| 0 <= j < i ==> is_separator_char(#[trigger] t@[j]),
        decreases t.len() - i,
    {
        let c = t[i];
        if c != '|' && c != '-' && c != ':' && !is_whitespace(c) {
            assert(!is_separator_char(t@[i as int]));
            return false;
        }
        if c == '-' {
            assert(t@[i as int] == '-');
            dash = true;
        }
        i += 1;
    }
    dash && table_row(t)
}

fn table_begins(lines: &Vec<Vec<char>>, i: usize, inside: bool) -> (r: bool)
    requires
        i < lines.len(),
    ensures
        r == begins_table(text::views(lines@), i as int, inside),
{
    let ghost l = text::views(lines@);
    assert(l[i as int] == lines@[i as int]@);
    let (line, after) = without_comments(&lines[i], inside);
    assert((line@, after) == comment::shown(l[i as int], inside));
    let t = trimmed(&line);
    if !table_row(&t) || separator_row(&t) || lines.len() - i < 2 {
        return false;
    }
    assert(l[i + 1] == lines@[i + 1]@);
    let (next, end) = without_comments(&lines[i + 1], after);
    assert((next@, end) == comment::shown(l[i + 1], after));
    separator_row(&trimmed(&next))
}

fn checklist_item(t: &Vec<char>) -> (r: bool)
    ensures
        r == is_checklist_item(t@),
{
    if t.len() > 5 && (t[5] == '(' || t[5] == '[') {
        return false;
    }
    has_prefix(t, "- [ ]") || has_prefix(t, "- [x]") || has_prefix(t, "- [X]")
}

fn whole_block(t: &Vec<char>) -> (r: bool)
    ensures
        r == is_whole_block(t@),
{
    let mut i: usize = 0;
    while i < t.len() && t[i] == '`'
        invariant
            i <= t.len(),
            text::next_where(t@, 0, not_backtick()) == text::next_where(
                t@,
                i as int,
                not_backtick(),
            ),
        decreases t.len() - i,
    {
        i += 1;
    }
    find_at(t, i, &chars_of("```")) < t.len()
}

fn table_row(t: &Vec<char>) -> (r: bool)
    ensures
        r == is_table_row(t@),
{
    has_prefix(t, "|") && has_suffix(t, "|")
}

fn end_of_table(lines: &Vec<Vec<char>>, i: usize, inside: bool) -> (r: (usize, bool))
    requires
        i <= lines.len(),
    ensures
        (r.0 as int, r.1) == table_end(text::views(lines@), i as int, inside),
        i <= r.0 <= lines.len(),
{
    let ghost l = text::views(lines@);
    let mut j: usize = i;
    let mut open: bool = inside;
    while j < lines.len()
        invariant
            i <= j <= lines.len(),
            l == text::views(lines@),
            table_end(l, i as int, inside) == table_end(l, j as int, open),
        decreases lines.len() - j,
    {
        let (line, after) = without_comments(&lines[j], open);
        assert(l[j as int] == lines@[j as int]@);
        assert((line@, after) == comment::shown(l[j as int], open));
        if !table_row(&trimmed(&line)) {
            return (j, open);
        }
        open = after;
        j += 1;
    }
    (j, open)
}

fn omitted_rows(n: usize) -> (r: Vec<char>)
    ensures
        r@ == rows_omitted(n as nat),
{
    let mut note = chars_of("  (");
    extend(&mut note, &decimal_of(n));
    extend_str(&mut note, " rows omitted)");
    note
}

/// Diet mode for Markdown: strips verbose patterns and keeps the essential rules.
///
/// Removed are code block examples (a marker stays), table rows beyond the header and its
/// separator (a count stays), checklist items, HTML comments, all but the first of
/// consecutive blank lines, and purely decorative lines (`===`, `---`, `~~~`). Headings,
/// bullet points, numbered lists, emphasis and links stay as they are. Of a line with a
/// comment in it the rest stays, if it shows anything.
pub fn diet_markdown(content: &str) -> (r: String)
    ensures
        r@ == text::join(diet(text::lines(content@)), "\n"@),
{
    let lines = lines_of(content);
    let ghost l = text::views(lines@);
    let mut result: Vec<Vec<char>> = Vec::new();
    let mut i: usize = 0;
    let mut in_code: bool = false;
    let mut in_comment: bool = false;
    let mut prev_blank: bool = false;
    let mut table_rows: usize = 0;
    let mut gap: bool = false;
    assert(text::views(result@) + diet(l) == diet(l));
    while i < lines.len()
        invariant
            i <= lines.len(),
            l == text::views(lines@),
            table_rows <= 2,
            text::views(result@) + diet_from(
                l,
                i as int,
                Diet {
                    code: in_code,
                    comment: in_comment,
                    blank: prev_blank,
                    rows: table_rows as nat,
                    gap,
                },
            ) == diet(l),
        decreases lines.len() - i,
    {
        assert(l[i as int] == lines@[i as int]@);
        if in_code {
            in_code = !has_prefix(&trimmed(&lines[i]), "```");
            i += 1;
        } else {
            let (line, after) = without_comments(&lines[i], in_comment);
            assert((line@, after) == comment::shown(l[i as int], in_comment));
            let t = trimmed(&line);
            let nothing = t.len() == 0 && (in_comment || has(&lines[i], "<!--"));
            let rows: usize = if gap && table_begins(&lines, i, in_comment) {
                0
            } else {
                table_rows
            };
            let mut kept: Option<Vec<char>> = None;
            let mut next: usize = i + 1;
            let mut comment_after: bool = after;
            if nothing || underline(&t) {
                gap = true;
            } else if has_prefix(&t, "```") {
                kept = Some(chars_of("  (code example omitted)"));
                in_code = !whole_block(&t);
                prev_blank = false;
                gap = true;
            } else {
                gap = false;
                table_rows = 0;
                if only_of(&t, '-') || checklist_item(&t) {
                } else if table_row(&t) && rows < 2 {
                    kept = Some(line);
                    prev_blank = false;
                    table_rows = rows + 1;
                } else if table_row(&t) {
                    let (end, open) = end_of_table(&lines, i, in_comment);
                    proof {
                        lemma_table_end(l, i as int, in_comment);
                    }
                    kept = Some(omitted_rows(end - i));
                    prev_blank = false;
                    next = end;
                    comment_after = open;
                } else if t.len() > 0 {
                    kept = Some(line);
                    prev_blank = false;
                } else if !prev_blank {
                    kept = Some(Vec::new());
                    prev_blank = true;
                }
            }
            in_comment = comment_after;
            i = next;
            if let Some(x) = kept {
                let ghost before = result@;
                result.push(x);
                proof {
                    text::lemma_views_push(before, x);
                    text::lemma_shift(
                        text::views(before),
                        x@,
                        diet_from(
                            l,
                            i as int,
                            Diet {
                                code: in_code,
                                comment: in_comment,
                                blank: prev_blank,
                                rows: table_rows as nat,
                                gap,
                            },
                        ),
                    );
                }
            }
        }
    }
    assert(text::views(result@) + Seq::<Seq<char>>::empty() == text::views(result@));
    joined_lines(&result)
}

/// The lines from `i` on, each behind its number.
pub open spec fn numbered_from(l: Seq<Seq<char>>, i: int, width: nat) -> Seq<char>
    decreases l.len() - i,
{
    if i < 0 || i >= l.len() {
        Seq::empty()
    } else {
        text::right_aligned(number::decimal((i + 1) as nat), width) + " │ "@ + l[i] + "\n"@ + numbered_from(
            l,
            i + 1,
            width,
        )
    }
}

/// The lines of `l`, each behind its number, the numbers right-aligned.
pub open spec fn numbered(l: Seq<Seq<char>>) -> Seq<char> {
    numbered_from(l, 0, number::decimal(l.len()).len())
}

/// Puts its number before each line.
pub fn format_with_line_numbers(content: &str) -> (r: String)
    ensures
        r@ == numbered(text::lines(content@)),
{
    let lines = lines_of(content);
    let ghost l = text::views(lines@);
    let width: usize = decimal_of(lines.len()).len();
    let mut out: Vec<char> = Vec::new();
    let mut i: usize = 0;
    assert(out@ + numbered_from(l, 0, width as nat) == numbered(l));
    while i < lines.len()
        invariant
            i <= lines.len(),
            l == text::views(lines@),
            out@ + numbered_from(l, i as int, width as nat) == numbered(l),
        decreases lines.len() - i,
    {
        let ghost before = out@;
        extend(&mut out, &align_right(&decimal_of(i + 1), width));
        extend_str(&mut out, " │ ");
        extend(&mut out, &lines[i]);
        extend_str(&mut out, "\n");
        assert(out@ + numbered_from(l, i + 1, width as nat) =~= before + numbered_from(
            l,
            i as int,
            width as nat,
        ));
        i += 1;
    }
    assert(out@ + Seq::<char>::empty() == out@);
    string_of(&out)
}

/// A line of substance: it shows something, fences no code, and is neither decoration nor an
/// item of a checklist.
pub open spec fn is_substance(line: Seq<char>) -> bool {
    let t = text::trim(line);
    t.len() > 0 && !is_fence(t) && !is_rule(t) && !is_checklist_item(t)
}

/// `line` is line `k` of the content without its comments.
pub open spec fn is_shown_of(l: Seq<Seq<char>>, line: Seq<char>, k: int, inside: bool) -> bool {
    0 <= k < l.len() && line == comment::shown(l[k], inside).0
}

/// What the diet leaves: an empty line, a mark of something omitted, or a line of substance
/// of the content without its comments.
pub open spec fn is_left(l: Seq<Seq<char>>, line: Seq<char>) -> bool {
    ||| line.len() == 0
    ||| line == "  (code example omitted)"@
    ||| exists|n: nat| line == #[trigger] rows_omitted(n)
    ||| is_substance(line) && exists|k: int, inside: bool| #[trigger]
        is_shown_of(l, line, k, inside)
}

/// The lines at `j` and after it are not both empty.
pub open spec fn apart(l: Seq<Seq<char>>, j: int) -> bool {
    !(l[j].len() == 0 && l[j + 1].len() == 0)
}

proof fn lemma_diet_from(l: Seq<Seq<char>>, i: int, d: Diet)
    requires
        0 <= i <= l.len(),
    ensures
        forall|j: int|
            0 <= j < diet_from(l, i, d).len() ==> #[trigger] is_left(l, diet_from(l, i, d)[j]),
        forall|j: int|
            0 <= j && j + 1 < diet_from(l, i, d).len() ==> #[trigger] apart(diet_from(l, i, d), j),
        d.blank && diet_from(l, i, d).len() > 0 ==> diet_from(l, i, d)[0].len() > 0,
        diet_from(l, i, d).len() <= l.len() - i,
    decreases l.len() - i,
{
    if i < l.len() && d.code {
        lemma_diet_from(l, i + 1, Diet { code: !is_fence(text::trim(l[i])), ..d });
    } else if i < l.len() {
        let (line, comment) = comment::shown(l[i], d.comment);
        let t = text::trim(line);
        let (end, comment_after) = table_end(l, i, d.comment);
        lemma_table_end(l, i, d.comment);
        text::lemma_trim_len(line);
        assert(is_shown_of(l, line, i, d.comment));
        reveal_strlit("  (code example omitted)");
        reveal_strlit("  (");
        assert("  (code example omitted)"@.len() == 24 && "  ("@.len() == 3);
        let rows = if d.gap && begins_table(l, i, d.comment) {
            0
        } else {
            d.rows
        };
        if t.len() == 0 && comment::is_commented(l[i], d.comment) || is_underline(t) {
            lemma_diet_from(l, i + 1, Diet { comment, gap: true, ..d });
        } else if is_fence(t) {
            let next = Diet { code: !is_whole_block(t), comment, blank: false, gap: true, ..d };
            lemma_diet_from(l, i + 1, next);
            lemma_diet_step(l, "  (code example omitted)"@, diet_from(l, i + 1, next));
        } else if is_rule(t) || is_checklist_item(t) {
            lemma_diet_from(l, i + 1, Diet { comment, rows: 0, gap: false, ..d });
        } else if is_table_row(t) && rows < 2 {
            reveal_strlit("|");
            let next = Diet { comment, blank: false, rows: rows + 1, gap: false, ..d };
            lemma_diet_from(l, i + 1, next);
            lemma_diet_step(l, line, diet_from(l, i + 1, next));
        } else if is_table_row(t) {
            let next = Diet {
                comment: comment_after,
                blank: false,
                rows: 0,
                gap: false,
                ..d
            };
            lemma_diet_from(l, end, next);
            lemma_diet_step(l, rows_omitted((end - i) as nat), diet_from(l, end, next));
        } else if t.len() > 0 {
            let next = Diet { comment, blank: false, rows: 0, gap: false, ..d };
            lemma_diet_from(l, i + 1, next);
            lemma_diet_step(l, line, diet_from(l, i + 1, next));
        } else if d.blank {
            lemma_diet_from(l, i + 1, Diet { comment, rows: 0, gap: false, ..d });
        } else {
            let next = Diet { comment, blank: true, rows: 0, gap: false, ..d };
            lemma_diet_from(l, i + 1, next);
            lemma_diet_step(l, Seq::empty(), diet_from(l, i + 1, next));
        }
    }
}

proof fn lemma_diet_step(l: Seq<Seq<char>>, line: Seq<char>, rest: Seq<Seq<char>>)
    requires
        is_left(l, line),
        forall|j: int| 0 <= j < rest.len() ==> #[trigger] is_left(l, rest[j]),
        forall|j: int| 0 <= j && j + 1 < rest.len() ==> #[trigger] apart(rest, j),
        line.len() == 0 && rest.len() > 0 ==> rest[0].len() > 0,
    ensures
        forall|j: int|
            0 <= j < (seq![line] + rest).len() ==> #[trigger] is_left(l, (seq![line] + rest)[j]),
        forall|j: int|
            0 <= j && j + 1 < (seq![line] + rest).len() ==> #[trigger] apart(seq![line] + rest, j),
        (seq![line] + rest)[0] == line,
        (seq![line] + rest).len() == rest.len() + 1,
{
    let whole = seq![line] + rest;
    assert forall|j: int| 0 <= j < whole.len() implies #[trigger] is_left(l, whole[j]) by {
        if j > 0 {
            assert(whole[j] == rest[j - 1]);
            assert(is_left(l, rest[j - 1]));
        }
    }
    assert forall|j: int| 0 <= j && j + 1 < whole.len() implies #[trigger] apart(whole, j) by {
        assert(whole[j + 1] == rest[j]);
        if j > 0 {
            assert(whole[j] == rest[j - 1]);
            assert(apart(rest, j - 1));
        }
    }
}

/// The diet leaves nothing but empty lines, marks of what it omits, and lines of substance of
/// the content without their comments; no two of its lines in a row are empty; and there are
/// no more of them than the content has.
pub proof fn lemma_diet(l: Seq<Seq<char>>)
    ensures
        forall|j: int| 0 <= j < diet(l).len() ==> #[trigger] is_left(l, diet(l)[j]),
        forall|j: int| 0 <= j && j + 1 < diet(l).len() ==> #[trigger] apart(diet(l), j),
        diet(l).len() <= l.len(),
{
    lemma_diet_from(l, 0, start());
}

/// A line that stays as it is: of substance, without a comment, and no row of a table.
pub open spec fn is_plain(line: Seq<char>) -> bool {
    is_substance(line) && !comment::is_commented(line, false) && !is_table_row(text::trim(line))
}

proof fn lemma_substance_kept_from(l: Seq<Seq<char>>, i: int, d: Diet)
    requires
        0 <= i <= l.len(),
        !d.code,
        !d.comment,
        forall|j: int| 0 <= j < l.len() ==> is_plain(#[trigger] l[j]),
    ensures
        diet_from(l, i, d) == l.skip(i),
    decreases l.len() - i,
{
    if i < l.len() {
        assert(is_plain(l[i]));
        comment::lemma_plain_line(l[i]);
        lemma_substance_kept_from(l, i + 1, Diet { rows: 0, blank: false, gap: false, ..d });
        assert(seq![l[i]] + l.skip(i + 1) =~= l.skip(i));
    } else {
        assert(l.skip(i) =~= Seq::<Seq<char>>::empty());
    }
}

/// Content that is all substance, and has no comments and no tables, stays as it is:
/// headings, bullet points, numbered lists, emphasis, links.
pub proof fn lemma_substance_kept(l: Seq<Seq<char>>)
    requires
        forall|j: int| 0 <= j < l.len() ==> is_plain(#[trigger] l[j]),
    ensures
        diet(l) == l,
{
    lemma_substance_kept_from(l, 0, start());
    assert(l.skip(0) =~= l);
}

/// Whether line `k` begins in a code block, and whether it begins in a comment. A fence opens
/// a code block, and the next fence closes it; comments are not looked for in code.
pub open spec fn inside(l: Seq<Seq<char>>, k: int) -> (bool, bool)
    decreases k,
{
    if k <= 0 {
        (false, false)
    } else {
        let (code, comment) = inside(l, k - 1);
        if code {
            (!is_fence(text::trim(l[k - 1])), comment)
        } else {
            let (line, after) = comment::shown(l[k - 1], comment);
            (is_fence(text::trim(line)) && !is_whole_block(text::trim(line)), after)
        }
    }
}

/// Line `k` without its comments.
pub open spec fn shown_at(l: Seq<Seq<char>>, k: int) -> Seq<char> {
    comment::shown(l[k], inside(l, k).1).0
}

/// Line `k` lies outside code.
pub open spec fn is_prose(l: Seq<Seq<char>>, k: int) -> bool {
    0 <= k < l.len() && !inside(l, k).0
}

/// Line `k` lies outside code and is a row of a table.
pub open spec fn is_row_at(l: Seq<Seq<char>>, k: int) -> bool {
    is_prose(l, k) && is_table_row(text::trim(shown_at(l, k)))
}

/// Line `k` lies outside code, shows something without its comments, and fences no code, is no
/// decoration, no item of a checklist and no row of a table.
pub open spec fn is_rule_or_text(l: Seq<Seq<char>>, k: int) -> bool {
    is_prose(l, k) && is_substance(shown_at(l, k)) && !is_row_at(l, k)
}

/// Line `k` opens a code block.
pub open spec fn opens_code(l: Seq<Seq<char>>, k: int) -> bool {
    is_prose(l, k) && is_fence(text::trim(shown_at(l, k)))
}

/// Line `k` lies outside code and comments and is blank.
pub open spec fn is_blank_at(l: Seq<Seq<char>>, k: int) -> bool {
    is_prose(l, k) && text::trim(shown_at(l, k)).len() == 0 && !comment::is_commented(
        l[k],
        inside(l, k).1,
    )
}

/// The lines from `k` up to `e` are rows of a table, and the line at `e` is none.
pub open spec fn is_run(l: Seq<Seq<char>>, k: int, e: int) -> bool {
    &&& 0 <= k < e <= l.len()
    &&& forall|m: int| k <= m < e ==> #[trigger] is_row_at(l, m)
    &&& !is_row_at(l, e)
}

/// What `line` of the diet stands for is line `k` of the content: the line itself without its
/// comments, or the marker of a code block that it opens, or an empty line for a blank one, or
/// the number of rows of a table from it on.
pub open spec fn stands_for(l: Seq<Seq<char>>, line: Seq<char>, k: int) -> bool {
    ||| is_rule_or_text(l, k) && line == shown_at(l, k)
    ||| is_row_at(l, k) && line == shown_at(l, k)
    ||| opens_code(l, k) && line == "  (code example omitted)"@
    ||| is_blank_at(l, k) && line.len() == 0
    ||| is_row_at(l, k) && exists|e: int|
        #[trigger] is_run(l, k, e) && line == "  ("@ + number::decimal((e - k) as nat)
            + " rows omitted)"@
}

/// `at` tells for each line of the diet which line of the content it stands for, in order.
pub open spec fn is_origin(l: Seq<Seq<char>>, d: Seq<Seq<char>>, at: Seq<int>, i: int) -> bool {
    &&& at.len() == d.len()
    &&& forall|j: int| 0 <= j < at.len() ==> i <= #[trigger] at[j] < l.len()
    &&& forall|j: int, m: int| 0 <= j < m < at.len() ==> #[trigger] at[j] < #[trigger] at[m]
    &&& forall|j: int| 0 <= j < at.len() ==> #[trigger] stands_for(l, d[j], at[j])
}

/// Position `j` of the diet holds an empty line, and nothing stands for a line between that
/// and `k`.
pub open spec fn follows_blank(d: Seq<Seq<char>>, at: Seq<int>, j: int, k: int) -> bool {
    &&& 0 <= j < at.len()
    &&& at[j] < k
    &&& d[j].len() == 0
    &&& j + 1 < at.len() ==> at[j + 1] > k
}

/// Position `j` of the diet and those after it hold what the diet makes of the rows from `p`
/// up to `q`, of which `r` rows of the same table came before: the first two rows, and then
/// how many more there are.
pub open spec fn holds_rows(
    l: Seq<Seq<char>>,
    d: Seq<Seq<char>>,
    at: Seq<int>,
    j: int,
    p: int,
    q: int,
    r: nat,
) -> bool {
    let m = if q - p < 2 - r {
        q - p
    } else {
        2 - r
    };
    &&& 0 <= j && j + m <= at.len()
    &&& forall|x: int| 0 <= x < m ==> #[trigger] at[j + x] == p + x && d[j + x] == shown_at(l, p + x)
    &&& q - p > m ==> j + m < at.len() && at[j + m] == p + m && d[j + m] == "  ("@
        + number::decimal((q - p - m) as nat) + " rows omitted)"@
    &&& q - p > m && j + m + 1 < at.len() ==> at[j + m + 1] >= q
}

/// The table that begins at line `p` is the first since the start, or since a line that ends
/// every table: one that shows something or is blank, and is no row, no fence and no line of
/// `=` or `~`.
pub open spec fn is_fresh(l: Seq<Seq<char>>, p: int) -> bool {
    p == 0 || is_prose(l, p - 1) && !is_row_at(l, p - 1) && !opens_code(l, p - 1) && !is_underline(
        text::trim(shown_at(l, p - 1)),
    ) && !(text::trim(shown_at(l, p - 1)).len() == 0 && comment::is_commented(
        l[p - 1],
        inside(l, p - 1).1,
    ))
}

/// A table begins at line `p`: afresh, or with a header and a separator behind a line that is no
/// row.
pub open spec fn opens_table(l: Seq<Seq<char>>, p: int) -> bool {
    is_fresh(l, p) || p > 0 && !is_row_at(l, p - 1) && begins_table(l, p, inside(l, p).1)
}

/// The diet goes on as if from line `i` with what it remembers.
spec fn remembers(l: Seq<Seq<char>>, i: int, d: Diet) -> bool {
    &&& 0 <= i <= l.len()
    &&& inside(l, i) == (d.code, d.comment)
    &&& d.rows <= 2
    &&& d.code ==> d.gap
    &&& is_fresh(l, i) ==> d.rows == 0 && !d.gap
}

proof fn lemma_table_end_inside(l: Seq<Seq<char>>, i: int, comment: bool)
    requires
        0 <= i <= l.len(),
        inside(l, i) == (false, comment),
    ensures
        ({
            let (e, after) = table_end(l, i, comment);
            &&& i <= e <= l.len()
            &&& inside(l, e) == (false, after)
            &&& forall|m: int| i <= m < e ==> #[trigger] is_row_at(l, m)
            &&& !is_row_at(l, e)
        }),
    decreases l.len() - i,
{
    if i < l.len() && is_row_at(l, i) {
        reveal_strlit("|");
        reveal_strlit("```");
        let t = text::trim(shown_at(l, i));
        if is_fence(t) {
            assert(t.subrange(0, 1)[0] == '|');
            assert(t.subrange(0, 3)[0] == '`');
        }
        assert(inside(l, i + 1) == (false, comment::shown(l[i], comment).1));
        lemma_table_end_inside(l, i + 1, comment::shown(l[i], comment).1);
    }
}

/// No line is of two kinds.
proof fn lemma_kinds(t: Seq<char>)
    ensures
        is_fence(t) ==> t.len() >= 3 && !is_rule(t) && !is_table_row(t) && !is_checklist_item(t),
        is_table_row(t) ==> t.len() > 0 && !is_rule(t) && !is_checklist_item(t),
        is_rule(t) || is_checklist_item(t) ==> t.len() > 0,
{
    reveal_strlit("|");
    reveal_strlit("```");
    reveal_strlit("- [ ]");
    reveal_strlit("- [x]");
    reveal_strlit("- [X]");
    if is_fence(t) {
        assert(t.subrange(0, 3)[0] == '`');
        assert(t[0] == '`');
    }
    if is_table_row(t) {
        assert(t.subrange(0, 1)[0] == '|');
        assert(t[0] == '|');
    }
    if is_checklist_item(t) {
        assert(t.subrange(0, 5)[0] == '-');
        assert(t[0] == '-');
    }
}

/// Everything of substance outside code is kept, and every code block leaves its marker.
spec fn keeps_text(l: Seq<Seq<char>>, at: Seq<int>, i: int) -> bool {
    forall|k: int|
        #![trigger is_rule_or_text(l, k)]
        #![trigger opens_code(l, k)]
        i <= k && (is_rule_or_text(l, k) || opens_code(l, k)) ==> at.contains(k)
}

/// A blank line is kept, unless an empty line is the last before it.
spec fn keeps_blanks(
    l: Seq<Seq<char>>,
    d: Seq<Seq<char>>,
    at: Seq<int>,
    i: int,
    blank: bool,
) -> bool {
    forall|k: int|
        i <= k && #[trigger] is_blank_at(l, k) && !at.contains(k) ==> (exists|j: int|
            #[trigger] follows_blank(d, at, j, k)) || blank && (at.len() > 0 ==> at[0] > k)
}

/// Of every table that begins after line `i`, the first two rows are kept and the others
/// counted.
spec fn keeps_tables(l: Seq<Seq<char>>, d: Seq<Seq<char>>, at: Seq<int>, i: int) -> bool {
    forall|p: int, q: int|
        i < p && opens_table(l, p) && #[trigger] is_run(l, p, q) ==> exists|j: int| #[trigger]
            holds_rows(l, d, at, j, p, q, 0)
}

/// The same of the table at hand, of which `r` rows came before line `i`.
spec fn keeps_table(
    l: Seq<Seq<char>>,
    d: Seq<Seq<char>>,
    at: Seq<int>,
    i: int,
    r: nat,
) -> bool {
    forall|q: int| #[trigger] is_run(l, i, q) ==> holds_rows(l, d, at, 0, i, q, r)
}

proof fn lemma_rows_moved(
    l: Seq<Seq<char>>,
    x: Seq<char>,
    i: int,
    d: Seq<Seq<char>>,
    at: Seq<int>,
    j: int,
    p: int,
    q: int,
    r: nat,
)
    requires
        holds_rows(l, d, at, j, p, q, r),
        d.len() == at.len(),
        p < q,
        r <= 2,
    ensures
        holds_rows(l, seq![x] + d, seq![i] + at, j + 1, p, q, r),
{
    let m = if q - p < 2 - r {
        q - p
    } else {
        2 - r
    };
    let d1 = seq![x] + d;
    let at1 = seq![i] + at;
    let j1 = j + 1;
    assert forall|y: int| 0 <= y < m implies #[trigger] at1[j1 + y] == p + y && d1[j1 + y]
        == shown_at(l, p + y) by {
        let before = j + y;
        assert(at[before] == at[j + y]);
        assert(at[j + y] == p + y && d[j + y] == shown_at(l, p + y));
        assert(at1[before + 1] == at[before]);
        assert(d1[before + 1] == d[before]);
        assert(j1 + y == before + 1);
    }
    assert(j1 + m <= at1.len());
    if q - p > m {
        let before = j + m;
        assert(at1[before + 1] == at[before]);
        assert(d1[before + 1] == d[before]);
        assert(j1 + m == before + 1);
        if before + 1 < at.len() {
            assert(at1[before + 2] == at[before + 1]);
        }
    }
    assert(holds_rows(l, d1, at1, j1, p, q, r));
}

/// A line that is kept comes before what is kept of the lines after it.
proof fn lemma_origin_kept(
    l: Seq<Seq<char>>,
    x: Seq<char>,
    i: int,
    next: int,
    d: Seq<Seq<char>>,
    at: Seq<int>,
    blank: bool,
)
    requires
        0 <= i < next <= l.len(),
        stands_for(l, x, i),
        is_origin(l, d, at, next),
        keeps_text(l, at, next),
        keeps_blanks(l, d, at, next, blank),
        keeps_tables(l, d, at, next),
        blank ==> x.len() == 0,
        forall|k: int| i < k < next ==> #[trigger] is_row_at(l, k),
    ensures
        is_origin(l, seq![x] + d, seq![i] + at, i),
        keeps_text(l, seq![i] + at, i),
        forall|b: bool| #[trigger] keeps_blanks(l, seq![x] + d, seq![i] + at, i, b),
        keeps_tables(l, seq![x] + d, seq![i] + at, next),
{
    let d1 = seq![x] + d;
    let at1 = seq![i] + at;
    assert forall|j: int| 0 <= j < at1.len() implies i <= #[trigger] at1[j] < l.len() by {
        if j > 0 {
            assert(at1[j] == at[j - 1]);
        }
    }
    assert forall|j: int, m: int| 0 <= j < m < at1.len() implies #[trigger] at1[j]
        < #[trigger] at1[m] by {
        assert(at1[m] == at[m - 1]);
        if j > 0 {
            assert(at1[j] == at[j - 1]);
        }
    }
    assert forall|j: int| 0 <= j < at1.len() implies #[trigger] stands_for(l, d1[j], at1[j]) by {
        if j > 0 {
            assert(d1[j] == d[j - 1] && at1[j] == at[j - 1]);
            assert(stands_for(l, d[j - 1], at[j - 1]));
        }
    }
    assert forall|k: int| at.contains(k) implies #[trigger] at1.contains(k) by {
        let j = choose|j: int| 0 <= j < at.len() && at[j] == k;
        assert(at1[j + 1] == k);
    }
    assert(at1[0] == i);
    assert(at1.contains(i));
    assert forall|k: int| i < k < next implies !is_rule_or_text(l, k) && !opens_code(l, k)
        && !#[trigger] is_blank_at(l, k) by {
        assert(is_row_at(l, k));
        lemma_kinds(text::trim(shown_at(l, k)));
    }
    assert forall|k: int|
        #![trigger is_rule_or_text(l, k)]
        #![trigger opens_code(l, k)]
        i <= k && (is_rule_or_text(l, k) || opens_code(l, k)) implies at1.contains(k) by {
        if k >= next {
            assert(at.contains(k));
        } else if k > i {
            assert(!is_blank_at(l, k));
        }
    }
    assert forall|b: bool| #[trigger] keeps_blanks(l, d1, at1, i, b) by {
        assert forall|k: int|
            i <= k && #[trigger] is_blank_at(l, k) && !at1.contains(k) implies (exists|j: int|
            #[trigger] follows_blank(d1, at1, j, k)) || b && (at1.len() > 0 ==> at1[0] > k) by {
            assert(k >= next);
            assert(!at.contains(k));
            if exists|j: int| #[trigger] follows_blank(d, at, j, k) {
                let j = choose|j: int| #[trigger] follows_blank(d, at, j, k);
                assert(at1[j + 1] == at[j] && d1[j + 1] == d[j]);
                if j + 1 < at.len() {
                    assert(at1[j + 2] == at[j + 1]);
                }
                assert(follows_blank(d1, at1, j + 1, k));
            } else {
                if at.len() > 0 {
                    assert(at1[1] == at[0]);
                }
                assert(follows_blank(d1, at1, 0, k));
            }
        }
    }
    assert forall|p: int, q: int|
        next < p && opens_table(l, p) && #[trigger] is_run(l, p, q) implies exists|j: int| #[trigger]
        holds_rows(l, d1, at1, j, p, q, 0) by {
        let j = choose|j: int| #[trigger] holds_rows(l, d, at, j, p, q, 0);
        lemma_rows_moved(l, x, i, d, at, j, p, q, 0);
        assert(holds_rows(l, d1, at1, j + 1, p, q, 0));
    }
}

/// Line by line, what the diet keeps is the content, with what it says of omissions in place.
proof fn lemma_origin(l: Seq<Seq<char>>, i: int, d: Diet) -> (at: Seq<int>)
    requires
        remembers(l, i, d),
    ensures
        is_origin(l, diet_from(l, i, d), at, i),
        keeps_text(l, at, i),
        keeps_blanks(l, diet_from(l, i, d), at, i, d.blank),
        keeps_tables(l, diet_from(l, i, d), at, i),
        !d.gap ==> keeps_table(l, diet_from(l, i, d), at, i, d.rows),
        d.gap && begins_table(l, i, d.comment) ==> keeps_table(l, diet_from(l, i, d), at, i, 0),
    decreases l.len() - i,
{
    let whole = diet_from(l, i, d);
    if i >= l.len() {
        Seq::empty()
    } else if d.code {
        let next = Diet { code: !is_fence(text::trim(l[i])), ..d };
        let at = lemma_origin(l, i + 1, next);
        lemma_origin_dropped(l, i, whole, at, d, next);
        at
    } else {
        let (line, comment) = comment::shown(l[i], d.comment);
        let t = text::trim(line);
        let (end, comment_after) = table_end(l, i, d.comment);
        let rows = if d.gap && begins_table(l, i, d.comment) {
            0
        } else {
            d.rows
        };
        lemma_table_end(l, i, d.comment);
        lemma_table_end_inside(l, i, d.comment);
        lemma_kinds(t);
        assert(line == shown_at(l, i));
        if t.len() == 0 && comment::is_commented(l[i], d.comment) || is_underline(t) {
            let next = Diet { comment, gap: true, ..d };
            let at = lemma_origin(l, i + 1, next);
            lemma_origin_dropped(l, i, whole, at, d, next);
            at
        } else if is_fence(t) {
            let next = Diet { code: !is_whole_block(t), comment, blank: false, gap: true, ..d };
            let at = lemma_origin(l, i + 1, next);
            lemma_origin_one(l, "  (code example omitted)"@, i, at, d, next);
            seq![i] + at
        } else if is_rule(t) || is_checklist_item(t) {
            let next = Diet { comment, rows: 0, gap: false, ..d };
            let at = lemma_origin(l, i + 1, next);
            lemma_origin_dropped(l, i, whole, at, d, next);
            at
        } else if is_table_row(t) && rows < 2 {
            let next = Diet { comment, blank: false, rows: rows + 1, gap: false, ..d };
            let at = lemma_origin(l, i + 1, next);
            lemma_origin_one(l, line, i, at, d, next);
            lemma_origin_row(l, i, diet_from(l, i + 1, next), at, rows);
            seq![i] + at
        } else if is_table_row(t) {
            let next = Diet { comment: comment_after, blank: false, rows: 0, gap: false, ..d };
            let at = lemma_origin(l, end, next);
            let rest = diet_from(l, end, next);
            let x = rows_omitted((end - i) as nat);
            assert(is_run(l, i, end));
            lemma_origin_kept(l, x, i, end, rest, at, false);
            assert forall|p: int, q: int|
                i < p && opens_table(l, p) && #[trigger] is_run(l, p, q) implies exists|j: int|
                #[trigger] holds_rows(l, whole, seq![i] + at, j, p, q, 0) by {
                if p <= end {
                    assert(is_row_at(l, p - 1));
                }
            }
            assert forall|q: int| !d.gap && #[trigger] is_run(l, i, q) implies holds_rows(
                l,
                whole,
                seq![i] + at,
                0,
                i,
                q,
                d.rows,
            ) by {
                if q < end {
                    assert(is_row_at(l, q));
                } else if q > end {
                    assert(is_row_at(l, end));
                }
            }
            seq![i] + at
        } else if t.len() > 0 {
            let next = Diet { comment, blank: false, rows: 0, gap: false, ..d };
            let at = lemma_origin(l, i + 1, next);
            lemma_origin_one(l, line, i, at, d, next);
            seq![i] + at
        } else if d.blank {
            let next = Diet { comment, rows: 0, gap: false, ..d };
            let at = lemma_origin(l, i + 1, next);
            lemma_origin_dropped(l, i, whole, at, d, next);
            at
        } else {
            let next = Diet { comment, blank: true, rows: 0, gap: false, ..d };
            let at = lemma_origin(l, i + 1, next);
            lemma_origin_one(l, Seq::empty(), i, at, d, next);
            seq![i] + at
        }
    }
}

/// Nothing is lost with a line that is dropped.
proof fn lemma_origin_dropped(
    l: Seq<Seq<char>>,
    i: int,
    kept: Seq<Seq<char>>,
    at: Seq<int>,
    d: Diet,
    next: Diet,
)
    requires
        0 <= i < l.len(),
        is_origin(l, kept, at, i + 1),
        keeps_text(l, at, i + 1),
        keeps_blanks(l, kept, at, i + 1, d.blank),
        keeps_tables(l, kept, at, i + 1),
        !next.gap ==> keeps_table(l, kept, at, i + 1, next.rows),
        next.gap && begins_table(l, i + 1, inside(l, i + 1).1) ==> keeps_table(
            l,
            kept,
            at,
            i + 1,
            0,
        ),
        is_fresh(l, i + 1) ==> next.rows == 0 && !next.gap,
        !next.gap ==> next.rows == 0,
        !is_rule_or_text(l, i) && !opens_code(l, i) && !is_row_at(l, i),
        is_blank_at(l, i) ==> d.blank,
    ensures
        is_origin(l, kept, at, i),
        keeps_text(l, at, i),
        keeps_blanks(l, kept, at, i, d.blank),
        keeps_tables(l, kept, at, i),
        forall|r: nat| #[trigger] keeps_table(l, kept, at, i, r),
{
    assert forall|p: int, q: int|
        i < p && opens_table(l, p) && #[trigger] is_run(l, p, q) implies exists|j: int| #[trigger]
        holds_rows(l, kept, at, j, p, q, 0) by {
        if p == i + 1 {
            assert(holds_rows(l, kept, at, 0, p, q, 0));
        }
    }
    assert forall|r: nat| #[trigger] keeps_table(l, kept, at, i, r) by {
        assert forall|q: int| #[trigger] is_run(l, i, q) implies holds_rows(
            l,
            kept,
            at,
            0,
            i,
            q,
            r,
        ) by {
            assert(is_row_at(l, i));
        }
    }
}

/// A line that is kept comes before what is kept of the lines after it, and if it ends a table
/// the next begins afresh.
proof fn lemma_origin_one(
    l: Seq<Seq<char>>,
    x: Seq<char>,
    i: int,
    at: Seq<int>,
    d: Diet,
    next: Diet,
)
    requires
        0 <= i < l.len(),
        stands_for(l, x, i),
        is_origin(l, diet_from(l, i + 1, next), at, i + 1),
        keeps_text(l, at, i + 1),
        keeps_blanks(l, diet_from(l, i + 1, next), at, i + 1, next.blank),
        keeps_tables(l, diet_from(l, i + 1, next), at, i + 1),
        !next.gap ==> keeps_table(l, diet_from(l, i + 1, next), at, i + 1, next.rows),
        next.gap && begins_table(l, i + 1, inside(l, i + 1).1) ==> keeps_table(
            l,
            diet_from(l, i + 1, next),
            at,
            i + 1,
            0,
        ),
        is_fresh(l, i + 1) ==> next.rows == 0 && !next.gap,
        !next.gap && !is_row_at(l, i) ==> next.rows == 0,
        next.blank ==> x.len() == 0,
    ensures
        is_origin(l, seq![x] + diet_from(l, i + 1, next), seq![i] + at, i),
        keeps_text(l, seq![i] + at, i),
        keeps_blanks(l, seq![x] + diet_from(l, i + 1, next), seq![i] + at, i, d.blank),
        keeps_tables(l, seq![x] + diet_from(l, i + 1, next), seq![i] + at, i),
        !is_row_at(l, i) ==> forall|r: nat| #[trigger]
            keeps_table(l, seq![x] + diet_from(l, i + 1, next), seq![i] + at, i, r),
{
    let rest = diet_from(l, i + 1, next);
    let whole = seq![x] + rest;
    let at1 = seq![i] + at;
    lemma_origin_kept(l, x, i, i + 1, rest, at, next.blank);
    assert(keeps_blanks(l, whole, at1, i, d.blank));
    assert forall|p: int, q: int|
        i < p && opens_table(l, p) && #[trigger] is_run(l, p, q) implies exists|j: int| #[trigger]
        holds_rows(l, whole, at1, j, p, q, 0) by {
        if p == i + 1 {
            assert(holds_rows(l, rest, at, 0, p, q, 0));
            lemma_rows_moved(l, x, i, rest, at, 0, p, q, 0);
            assert(holds_rows(l, whole, at1, 1, p, q, 0));
        }
    }
    if !is_row_at(l, i) {
        assert forall|r: nat| #[trigger] keeps_table(l, whole, at1, i, r) by {
            assert forall|q: int| #[trigger] is_run(l, i, q) implies holds_rows(
                l,
                whole,
                at1,
                0,
                i,
                q,
                r,
            ) by {
                assert(is_row_at(l, i));
            }
        }
    }
}

/// A row that is kept is the first of those that are.
proof fn lemma_origin_row(
    l: Seq<Seq<char>>,
    i: int,
    rest: Seq<Seq<char>>,
    at: Seq<int>,
    r: nat,
)
    requires
        0 <= i < l.len(),
        r < 2,
        is_row_at(l, i),
        is_origin(l, rest, at, i + 1),
        keeps_table(l, rest, at, i + 1, r + 1),
    ensures
        keeps_table(l, seq![shown_at(l, i)] + rest, seq![i] + at, i, r),
{
    let x = shown_at(l, i);
    let whole = seq![x] + rest;
    let at1 = seq![i] + at;
    assert forall|q: int| #[trigger] is_run(l, i, q) implies holds_rows(
        l,
        whole,
        at1,
        0,
        i,
        q,
        r,
    ) by {
        assert(at1[0] == i && whole[0] == x);
        if q > i + 1 {
            assert(is_run(l, i + 1, q)) by {
                assert forall|m: int| i + 1 <= m < q implies #[trigger] is_row_at(l, m) by {}
            }
            assert(holds_rows(l, rest, at, 0, i + 1, q, r + 1));
            lemma_rows_moved(l, x, i, rest, at, 0, i + 1, q, r + 1);
            let m = if q - i < 2 - r {
                q - i
            } else {
                2 - r
            };
            assert forall|y: int| 0 <= y < m implies #[trigger] at1[0 + y] == i + y && whole[0 + y]
                == shown_at(l, i + y) by {
                if y > 0 {
                    assert(at1[1 + (y - 1)] == i + 1 + (y - 1));
                }
            }
            if q - i > m {
                assert(at1[1 + (m - 1)] == at1[0 + m]);
            }
        } else {
            assert forall|y: int| 0 <= y < 1 implies #[trigger] at1[0 + y] == i + y && whole[0 + y]
                == shown_at(l, i + y) by {}
        }
    }
}

/// What the diet leaves, line by line. Each of its lines stands for a line of the content, in
/// the order of these: a line of text, a row of a table, a marker where a code block begins,
/// an empty line for a blank one, or the number of rows from there on. Every line outside code
/// that shows something without its comments, and that fences no code, does not decorate, is no
/// item of a checklist and no row of a table, is there, whatever else the content holds, and so
/// is a marker for every code block. A blank line is there, unless an empty line is the last
/// before it. Of every table that begins afresh or with a header the first two rows are there,
/// and the number of the others.
pub proof fn lemma_diet_exactly(l: Seq<Seq<char>>) -> (at: Seq<int>)
    ensures
        is_origin(l, diet(l), at, 0),
        forall|k: int| #[trigger] is_rule_or_text(l, k) ==> at.contains(k),
        forall|k: int| #[trigger] opens_code(l, k) ==> at.contains(k),
        forall|k: int|
            #[trigger] is_blank_at(l, k) && !at.contains(k) ==> exists|j: int| #[trigger]
                follows_blank(diet(l), at, j, k),
        forall|p: int, q: int|
            opens_table(l, p) && #[trigger] is_run(l, p, q) ==> exists|j: int| #[trigger]
                holds_rows(l, diet(l), at, j, p, q, 0),
{
    let at = lemma_origin(l, 0, start());
    assert forall|k: int| #[trigger] is_blank_at(l, k) && !at.contains(k) implies exists|j: int|
        #[trigger] follows_blank(diet(l), at, j, k) by {
        let kept = diet_from(l, 0, start());
        assert(keeps_blanks(l, kept, at, 0, false));
        let j = choose|j: int| #[trigger] follows_blank(kept, at, j, k);
        assert(follows_blank(diet(l), at, j, k));
    }
    assert forall|p: int, q: int|
        opens_table(l, p) && #[trigger] is_run(l, p, q) implies exists|j: int| #[trigger]
        holds_rows(l, diet(l), at, j, p, q, 0) by {
        let kept = diet_from(l, 0, start());
        if p == 0 {
            assert(holds_rows(l, kept, at, 0, p, q, 0));
            assert(holds_rows(l, diet(l), at, 0, p, q, 0));
        } else {
            assert(keeps_tables(l, kept, at, 0));
            let j = choose|j: int| #[trigger] holds_rows(l, kept, at, j, p, q, 0);
            assert(holds_rows(l, diet(l), at, j, p, q, 0));
        }
    }
    at
}

/// A line lies outside code and comments if none before it has a fence or a comment.
pub proof fn lemma_outside(l: Seq<Seq<char>>, k: int)
    requires
        0 <= k <= l.len(),
        forall|m: int|
            0 <= m < k ==> !is_fence(text::trim(#[trigger] l[m])) && !text::contains(
                l[m],
                "<!--"@,
            ),
    ensures
        inside(l, k) == (false, false),
    decreases k,
{
    if k > 0 {
        lemma_outside(l, k - 1);
        assert(!is_fence(text::trim(l[k - 1])));
        comment::lemma_plain_line(l[k - 1]);
    }
}

/// Where a code block begins, all lines up to the next fence lie in it, and the line after
/// that fence does not.
pub proof fn lemma_code_block(l: Seq<Seq<char>>, f: int, k: int)
    requires
        opens_code(l, f),
        !is_whole_block(text::trim(shown_at(l, f))),
        f < k < l.len(),
        forall|m: int| f < m < k ==> !is_fence(text::trim(#[trigger] l[m])),
    ensures
        inside(l, k).0,
        is_fence(text::trim(l[k])) ==> !inside(l, k + 1).0,
    decreases k,
{
    reveal_with_fuel(inside, 2);
    if k > f + 1 {
        lemma_code_block(l, f, k - 1);
        assert(!is_fence(text::trim(l[k - 1])));
    }
}

proof fn lemma_numbered_from(l: Seq<Seq<char>>, i: int, width: nat, rows: Seq<Seq<char>>)
    requires
        0 <= i <= l.len(),
        rows.len() == l.len(),
        forall|k: int|
            0 <= k < l.len() ==> #[trigger] rows[k] == text::right_aligned(
                number::decimal((k + 1) as nat),
                width,
            ) + " │ "@ + l[k] + "\n"@,
    ensures
        numbered_from(l, i, width) == rows.skip(i).flatten(),
    decreases l.len() - i,
{
    if i < l.len() {
        lemma_numbered_from(l, i + 1, width, rows);
        let rest = rows.skip(i);
        assert(rest.first() == rows[i]);
        assert(rest.drop_first() =~= rows.skip(i + 1));
        assert(rest.flatten() == rest.first() + rest.drop_first().flatten());
    } else {
        assert(rows.skip(i) =~= Seq::<Seq<char>>::empty());
    }
}

/// A numbered text is one row for each line, in order: the number of the line, counted from 1
/// and aligned to the right in the width of the last number, a bar, and the line itself.
pub proof fn lemma_numbered(l: Seq<Seq<char>>)
    ensures
        numbered(l) == Seq::new(
            l.len(),
            |k: int|
                text::right_aligned(
                    number::decimal((k + 1) as nat),
                    number::decimal(l.len()).len(),
                ) + " │ "@ + l[k] + "\n"@,
        ).flatten(),
{
    let width = number::decimal(l.len()).len();
    let rows = Seq::new(
        l.len(),
        |k: int|
            text::right_aligned(
                number::decimal((k + 1) as nat),
                number::decimal(l.len()).len(),
            ) + " │ "@ + l[k] + "\n"@,
    );
    lemma_numbered_from(l, 0, width, rows);
    assert(rows.skip(0) =~= rows);
}

proof fn lemma_begins(t: Seq<char>, start: Seq<char>)
    requires
        text::starts_with(t, start),
    ensures
        t.len() >= start.len(),
        forall|i: int| 0 <= i < start.len() ==> #[trigger] t[i] == start[i],
{
    assert forall|i: int| 0 <= i < start.len() implies #[trigger] t[i] == start[i] by {
        assert(t.subrange(0, start.len() as int)[i] == t[i]);
    }
}

/// A line is of substance and no row of a table by its first visible character, if that is none
/// of the marks of decoration, code, tables and lists. One that begins with a dash is of
/// substance too, if it shows anything but dashes and spaces and no bracket follows. No other
/// character than a mark of decoration or a space stands in a decoration.
pub proof fn lemma_substance(line: Seq<char>)
    requires
        text::trim(line).len() > 0,
    ensures
        ({
            let t = text::trim(line);
            let c = t[0];
            &&& c != '=' && c != '~' && c != '-' && c != '|' && c != '`' ==> is_substance(line)
                && !is_table_row(t) && !is_fence(t)
            &&& c == '-' && t.len() > 2 && t[2] != '[' && (exists|i: int|
                0 <= i < t.len() && #[trigger] t[i] != '-' && t[i] != ' ') ==> is_substance(line)
                && !is_table_row(t) && !is_fence(t)
            &&& is_rule(t) ==> forall|i: int|
                0 <= i < t.len() ==> (#[trigger] t[i] == ' ' || t[i] == '=' || t[i] == '~' || t[i]
                    == '-')
        }),
{
    let t = text::trim(line);
    text::lemma_trim_parts(line);
    reveal_strlit("|");
    reveal_strlit("```");
    reveal_strlit("- [ ]");
    reveal_strlit("- [x]");
    reveal_strlit("- [X]");
    assert("|"@.len() == 1 && "|"@[0] == '|');
    assert("```"@.len() == 3 && "```"@[0] == '`');
    assert("- [ ]"@.len() == 5 && "- [ ]"@[0] == '-' && "- [ ]"@[2] == '[');
    assert("- [x]"@.len() == 5 && "- [x]"@[0] == '-' && "- [x]"@[2] == '[');
    assert("- [X]"@.len() == 5 && "- [X]"@[0] == '-' && "- [X]"@[2] == '[');
    assert(text::is_white(' '));
    assert(t[0] != ' ');
    if is_table_row(t) {
        lemma_begins(t, "|"@);
        assert(t[0] == "|"@[0]);
    }
    if is_fence(t) {
        lemma_begins(t, "```"@);
        assert(t[0] == "```"@[0]);
    }
    if is_checklist_item(t) {
        if text::starts_with(t, "- [ ]"@) {
            lemma_begins(t, "- [ ]"@);
            assert(t[0] == "- [ ]"@[0] && t[2] == "- [ ]"@[2]);
        } else if text::starts_with(t, "- [x]"@) {
            lemma_begins(t, "- [x]"@);
            assert(t[0] == "- [x]"@[0] && t[2] == "- [x]"@[2]);
        } else {
            lemma_begins(t, "- [X]"@);
            assert(t[0] == "- [X]"@[0] && t[2] == "- [X]"@[2]);
        }
    }
}

/// A line of text without a comment is in the diet as it stands, if no line before it begins a
/// comment or a fence, whatever else stands before and after it.
pub proof fn lemma_text_kept(l: Seq<Seq<char>>, k: int)
    requires
        0 <= k < l.len(),
        forall|m: int|
            0 <= m < k ==> !is_fence(text::trim(#[trigger] l[m])) && !text::contains(
                l[m],
                "<!--"@,
            ),
        !text::contains(l[k], "<!--"@),
        text::trim(l[k]).len() > 0,
        text::trim(l[k])[0] != '=',
        text::trim(l[k])[0] != '~',
        text::trim(l[k])[0] != '-',
        text::trim(l[k])[0] != '|',
        text::trim(l[k])[0] != '`',
    ensures
        diet(l).contains(l[k]),
{
    let at = lemma_diet_exactly(l);
    lemma_outside(l, k);
    comment::lemma_plain_line(l[k]);
    lemma_substance(l[k]);
    assert(shown_at(l, k) == l[k]);
    assert(is_rule_or_text(l, k));
    let j = choose|j: int| 0 <= j < at.len() && at[j] == k;
    assert(stands_for(l, diet(l)[j], at[j]));
    assert(diet(l)[j] == l[k]);
}

/// A line of three or more equal marks of decoration is not of substance, however long it is, and
/// neither is an item of a checklist, whatever it says.
pub proof fn lemma_not_substance(n: nat, item: Seq<char>)
    requires
        n >= 3,
        item.len() > 0,
        !text::is_white(item.last()),
    ensures
        !is_substance(text::repeat('=', n)),
        !is_substance(text::repeat('~', n)),
        !is_substance(text::repeat('-', n)),
        !is_substance("- [ ] "@ + item),
        !is_substance("- [x] "@ + item),
        !is_substance("- [X] "@ + item),
{
    text::lemma_trim_none(text::repeat('=', n));
    text::lemma_trim_none(text::repeat('~', n));
    text::lemma_trim_none(text::repeat('-', n));
    assert(is_rule_of(text::repeat('=', n), '='));
    assert(is_rule_of(text::repeat('~', n), '~'));
    assert(is_rule_of(text::repeat('-', n), '-'));
    reveal_strlit("- [ ] ");
    reveal_strlit("- [x] ");
    reveal_strlit("- [X] ");
    reveal_strlit("- [ ]");
    reveal_strlit("- [x]");
    reveal_strlit("- [X]");
    let a = "- [ ] "@ + item;
    let b = "- [x] "@ + item;
    let c = "- [X] "@ + item;
    assert(a.last() == item.last() && b.last() == item.last() && c.last() == item.last());
    text::lemma_trim_none(a);
    text::lemma_trim_none(b);
    text::lemma_trim_none(c);
    assert(a.subrange(0, 5) =~= "- [ ]"@);
    assert(b.subrange(0, 5) =~= "- [x]"@);
    assert(c.subrange(0, 5) =~= "- [X]"@);
    assert(a[5] == ' ' && b[5] == ' ' && c[5] == ' ');
}

/// What stands between two bars is a row of a table, whatever it is; it separates a header from
/// the rows below if it is dashes only, and does not if it shows a letter or a digit. What
/// follows three backticks does not matter to a fence.
pub proof fn lemma_rows_and_fences(x: Seq<char>, n: nat)
    requires
        n > 0,
    ensures
        is_table_row(seq!['|'] + x + seq!['|']),
        is_separator_row(seq!['|'] + text::repeat('-', n) + seq!['|']),
        (exists|i: int|
            0 <= i < x.len() && (('a' <= #[trigger] x[i] <= 'z') || ('A' <= x[i] <= 'Z') || ('0'
                <= x[i] <= '9'))) ==> !is_separator_row(seq!['|'] + x + seq!['|']),
        is_fence("```"@ + x),
{
    reveal_strlit("|");
    reveal_strlit("```");
    let row = seq!['|'] + x + seq!['|'];
    assert(row.subrange(0, 1) =~= "|"@);
    assert(row.subrange(row.len() - 1, row.len() as int) =~= "|"@);
    let dashes = text::repeat('-', n);
    let line = seq!['|'] + dashes + seq!['|'];
    assert(line.subrange(0, 1) =~= "|"@);
    assert(line.subrange(line.len() - 1, line.len() as int) =~= "|"@);
    assert(line[1] == dashes[0]);
    assert(line.contains('-'));
    if exists|i: int|
        0 <= i < x.len() && (('a' <= #[trigger] x[i] <= 'z') || ('A' <= x[i] <= 'Z') || ('0'
            <= x[i] <= '9')) {
        let i = choose|i: int|
            0 <= i < x.len() && (('a' <= #[trigger] x[i] <= 'z') || ('A' <= x[i] <= 'Z') || ('0'
                <= x[i] <= '9'));
        assert(row[i + 1] == x[i]);
        assert(!is_separator_char(row[i + 1]));
    }
    assert(("```"@ + x).subrange(0, 3) =~= "```"@);
}

}
