//! The sections of the savings report.

use vstd::prelude::*;

use super::coverage;
use super::coverage::{by_savings, CategoryStats, Totals};
use super::{column_of, lookup_category, shorten_path};
use crate::number;
use crate::number::decimal_of;
use crate::order;
use crate::style;
use crate::style::{say, say_plain, Paint, Span};
use crate::text;
use crate::text::{
    align_left, align_right, chars_of, copy, count_before, count_bytes, extend, extend_str, joined,
    repeated, slice,
};

verus! {

/// A percentage as it is shown.
#[derive(Debug)]
pub struct Percent {
    /// With one decimal place and a percent sign.
    pub text: String,
    /// Rounded down.
    pub floor: i64,
}

/// The paint of a percentage, by its value rounded down.
pub open spec fn percent_paint(floor: i64) -> Paint {
    if floor >= 70 {
        Paint::High
    } else if floor >= 40 {
        Paint::Middling
    } else {
        Paint::Low
    }
}

fn paint_of(p: &Percent) -> (r: Paint)
    ensures
        r == percent_paint(p.floor),
{
    if p.floor >= 70 {
        Paint::High
    } else if p.floor >= 40 {
        Paint::Middling
    } else {
        Paint::Low
    }
}

/// A text as it is.
pub open spec fn plainly(s: Seq<char>) -> style::Piece {
    (s, Paint::Plain)
}

/// A heading on a line of its own.
pub open spec fn heading(s: Seq<char>) -> Seq<style::Piece> {
    seq![(s, Paint::Heading), plainly("\n"@)]
}

/// A line of `n` characters `c`.
pub open spec fn ruled(c: char, n: nat) -> Seq<style::Piece> {
    seq![plainly(text::repeat(c, n)), plainly("\n"@)]
}

pub(crate) fn say_heading(out: &mut Vec<Span>, s: &str)
    ensures
        style::pieces(final(out)@) == style::pieces(old(out)@) + heading(s@),
{
    let ghost before = style::pieces(out@);
    say(out, chars_of(s), Paint::Heading);
    say_plain(out, "\n");
    assert(style::pieces(out@) =~= before + heading(s@));
}

pub(crate) fn say_ruled(out: &mut Vec<Span>, c: char, n: usize)
    ensures
        style::pieces(final(out)@) == style::pieces(old(out)@) + ruled(c, n as nat),
{
    let ghost before = style::pieces(out@);
    say(out, repeated(c, n), Paint::Plain);
    say_plain(out, "\n");
    assert(style::pieces(out@) =~= before + ruled(c, n as nat));
}

fn say_left(out: &mut Vec<Span>, s: &str, width: usize)
    ensures
        style::pieces(final(out)@) == style::pieces(old(out)@).push(
            plainly(text::left_aligned(s@, width as nat)),
        ),
{
    say(out, align_left(&chars_of(s), width), Paint::Plain);
}

fn say_right(out: &mut Vec<Span>, s: &str, width: usize)
    ensures
        style::pieces(final(out)@) == style::pieces(old(out)@).push(
            plainly(text::right_aligned(s@, width as nat)),
        ),
{
    say(out, align_right(&chars_of(s), width), Paint::Plain);
}

pub(crate) fn say_count(out: &mut Vec<Span>, n: usize, width: usize)
    ensures
        style::pieces(final(out)@) == style::pieces(old(out)@).push(
            plainly(text::right_aligned(number::decimal(n as nat), width as nat)),
        ),
{
    say(out, align_right(&decimal_of(n), width), Paint::Plain);
}

/// A line with a label and a value.
pub open spec fn kpi(label: Seq<char>, value: Seq<char>) -> Seq<style::Piece> {
    seq![
        plainly(text::left_aligned(label + ":"@, 18)),
        plainly(" "@),
        plainly(value),
        plainly("\n"@),
    ]
}

pub(crate) fn say_kpi(out: &mut Vec<Span>, label: &str, value: &Vec<char>)
    ensures
        style::pieces(final(out)@) == style::pieces(old(out)@) + kpi(label@, value@),
{
    let ghost before = style::pieces(out@);
    let mut l = chars_of(label);
    extend_str(&mut l, ":");
    say(out, align_left(&l, 18), Paint::Plain);
    say_plain(out, " ");
    say(out, copy(value), Paint::Plain);
    say_plain(out, "\n");
    assert(style::pieces(out@) =~= before + kpi(label@, value@));
}

/// A bar of `width` characters, of which `filled` are full.
pub open spec fn bar(filled: nat, width: nat) -> Seq<char> {
    text::repeat('\u{2588}', filled) + text::repeat('\u{2591}', (width - filled) as nat)
}

fn bar_of(filled: usize, width: usize) -> (r: Vec<char>)
    requires
        filled <= width,
    ensures
        r@ == bar(filled as nat, width as nat),
{
    let mut r = repeated('\u{2588}', filled);
    extend(&mut r, &repeated('\u{2591}', width - filled));
    r
}

/// The title of the report, with the path of the project as it is shown.
pub open spec fn title(scope: Option<Seq<char>>) -> Seq<style::Piece> {
    heading(
        if scope is Some {
            "RTK Token Savings (Project Scope)"@
        } else {
            "RTK Token Savings (Global Scope)"@
        },
    ) + ruled('\u{2550}', 60) + (match scope {
        Some(path) => seq![plainly("Scope: "@), plainly(path), plainly("\n"@)],
        None => Seq::empty(),
    }) + seq![plainly("\n"@)]
}

/// The view of an optional string.
pub open spec fn optional(s: Option<&str>) -> Option<Seq<char>> {
    match s {
        Some(x) => Some(x@),
        None => None,
    }
}

/// Writes the title of the report, with the path of the project as it is shown.
pub fn title_with(scope: Option<&str>) -> (r: Vec<Span>)
    ensures
        style::pieces(r@) == title(optional(scope)),
{
    let mut out: Vec<Span> = Vec::new();
    assert(style::pieces(out@) =~= Seq::<style::Piece>::empty());
    match scope {
        Some(path) => {
            say_heading(&mut out, "RTK Token Savings (Project Scope)");
            say_ruled(&mut out, '\u{2550}', 60);
            say_plain(&mut out, "Scope: ");
            say_plain(&mut out, path);
            say_plain(&mut out, "\n");
        },
        None => {
            say_heading(&mut out, "RTK Token Savings (Global Scope)");
            say_ruled(&mut out, '\u{2550}', 60);
        },
    }
    say_plain(&mut out, "\n");
    assert(style::pieces(out@) =~= title(optional(scope)));
    out
}

/// Writes the title of the report, for all projects or for the one at a path, which is
/// shortened.
pub fn title_section(scope: Option<&str>) -> (r: Vec<Span>)
    ensures
        scope is None ==> style::pieces(r@) == title(None),
        scope matches Some(path) ==> exists|c: Seq<Seq<char>>| #[trigger]
            super::may_split(path@, c) && style::pieces(r@) == title(
                Some(super::shortened(path@, c)),
            ),
{
    match scope {
        Some(path) => title_with(Some(shorten_path(path).as_str())),
        None => title_with(None),
    }
}

/// The sums over all commands, as they are shown.
#[derive(Debug)]
pub struct Overview {
    pub total_commands: usize,
    pub input_tokens: String,
    pub output_tokens: String,
    pub saved_tokens: String,
    /// The average savings.
    pub savings: Percent,
    /// How many of the characters of the meter are full.
    pub meter: usize,
    pub total_time: String,
    pub average_time: String,
}

/// The number of characters of the meter.
pub const METER_WIDTH: usize = 24;

/// The sums over all commands.
pub open spec fn overview(o: Overview) -> Seq<style::Piece> {
    kpi("Total commands"@, number::decimal(o.total_commands as nat)) + kpi(
        "Input tokens"@,
        o.input_tokens@,
    ) + kpi("Output tokens"@, o.output_tokens@) + kpi(
        "Tokens saved"@,
        o.saved_tokens@ + " ("@ + o.savings.text@ + ")"@,
    ) + kpi("Total exec time"@, o.total_time@ + " (avg "@ + o.average_time@ + ")"@) + seq![
        plainly("Efficiency meter: "@),
        (bar(o.meter as nat, METER_WIDTH as nat), Paint::Meter),
        plainly(" "@),
        (o.savings.text@, percent_paint(o.savings.floor)),
        plainly("\n"@),
        plainly("\n"@),
    ]
}

/// Writes the sums over all commands.
pub fn overview_section(o: &Overview) -> (r: Vec<Span>)
    requires
        o.meter <= METER_WIDTH,
    ensures
        style::pieces(r@) == overview(*o),
{
    let mut out: Vec<Span> = Vec::new();
    assert(style::pieces(out@) =~= Seq::<style::Piece>::empty());
    say_kpi(&mut out, "Total commands", &decimal_of(o.total_commands));
    say_kpi(&mut out, "Input tokens", &chars_of(o.input_tokens.as_str()));
    say_kpi(&mut out, "Output tokens", &chars_of(o.output_tokens.as_str()));
    let mut saved = chars_of(o.saved_tokens.as_str());
    extend_str(&mut saved, " (");
    extend_str(&mut saved, o.savings.text.as_str());
    extend_str(&mut saved, ")");
    say_kpi(&mut out, "Tokens saved", &saved);
    let mut time = chars_of(o.total_time.as_str());
    extend_str(&mut time, " (avg ");
    extend_str(&mut time, o.average_time.as_str());
    extend_str(&mut time, ")");
    say_kpi(&mut out, "Total exec time", &time);
    say_plain(&mut out, "Efficiency meter: ");
    say(&mut out, bar_of(o.meter, METER_WIDTH), Paint::Meter);
    say_plain(&mut out, " ");
    say(&mut out, chars_of(o.savings.text.as_str()), paint_of(&o.savings));
    say_plain(&mut out, "\n");
    say_plain(&mut out, "\n");
    assert(style::pieces(out@) =~= overview(*o));
    out
}

/// A row of the table of commands.
#[derive(Debug)]
pub struct CommandRow {
    pub command: String,
    pub count: usize,
    pub saved: usize,
    /// The saved tokens, as they are shown.
    pub saved_text: String,
    pub savings: Percent,
    pub time: String,
    /// How many of the characters of its bar are full.
    pub bar: usize,
}

/// The number of characters of a bar.
pub const BAR_WIDTH: usize = 10;

/// The widths of the columns of the table of commands: count, saved tokens and time.
pub open spec fn command_widths(rows: Seq<CommandRow>) -> (nat, nat, nat) {
    let n = rows.len() as int;
    (
        number::widest(
            Seq::new(rows.len(), |i: int| number::decimal(rows[i].count as nat).len()),
            n,
            5,
        ),
        number::widest(
            Seq::new(rows.len(), |i: int| text::byte_len(rows[i].saved_text@)),
            n,
            5,
        ),
        number::widest(Seq::new(rows.len(), |i: int| text::byte_len(rows[i].time@)), n, 6),
    )
}

/// One of the rows saved tokens.
pub open spec fn any_saved(rows: Seq<CommandRow>) -> bool {
    exists|i: int| 0 <= i < rows.len() && (#[trigger] rows[i]).saved > 0
}

/// The bar of a row; there is none where nothing was saved at all.
pub open spec fn row_bar(filled: nat, any: bool) -> style::Piece {
    if any {
        (bar(filled, BAR_WIDTH as nat), Paint::Bar)
    } else {
        plainly(Seq::empty())
    }
}

/// The row at position `i` of the table of commands.
pub open spec fn command_row(r: CommandRow, i: nat, w: (nat, nat, nat), any: bool) -> Seq<
    style::Piece,
> {
    seq![
        plainly(text::right_aligned(number::decimal(i + 1), 2)),
        plainly("."@),
        plainly("  "@),
        (super::in_column(r.command@, 24), Paint::Command),
        plainly("  "@),
        plainly(
            super::in_column(
                match super::category_name(r.command@) {
                    Some(c) => c,
                    None => "Other"@,
                },
                16,
            ),
        ),
        plainly("  "@),
        plainly(text::right_aligned(number::decimal(r.count as nat), w.0)),
        plainly("  "@),
        plainly(text::right_aligned(r.saved_text@, w.1)),
        plainly("  "@),
        (text::right_aligned(r.savings.text@, 6), percent_paint(r.savings.floor)),
        plainly("  "@),
        plainly(text::right_aligned(r.time@, w.2)),
        plainly("  "@),
        row_bar(r.bar as nat, any),
        plainly("\n"@),
    ]
}

/// The first `n` rows of the table of commands.
pub open spec fn command_rows(
    rows: Seq<CommandRow>,
    n: int,
    w: (nat, nat, nat),
    any: bool,
) -> Seq<style::Piece>
    decreases n,
{
    if n <= 0 {
        Seq::empty()
    } else {
        command_rows(rows, n - 1, w, any) + command_row(rows[n - 1], (n - 1) as nat, w, any)
    }
}

/// The width of the table of commands.
pub open spec fn command_table_width(w: (nat, nat, nat)) -> nat {
    3 + 2 + 24 + 2 + 16 + 2 + w.0 + 2 + w.1 + 2 + 6 + 2 + w.2 + 2 + 10
}

/// The names of the columns of the table of commands.
pub open spec fn command_columns(w: (nat, nat, nat)) -> Seq<style::Piece> {
    seq![
        plainly(text::right_aligned("#"@, 3)),
        plainly("  "@),
        plainly(text::left_aligned("Command"@, 24)),
        plainly("  "@),
        plainly(text::left_aligned("Category"@, 16)),
        plainly("  "@),
        plainly(text::right_aligned("Count"@, w.0)),
        plainly("  "@),
        plainly(text::right_aligned("Saved"@, w.1)),
        plainly("  "@),
        plainly(text::right_aligned("Avg%"@, 6)),
        plainly("  "@),
        plainly(text::right_aligned("Time"@, w.2)),
        plainly("  "@),
        plainly(text::left_aligned("Impact"@, 10)),
        plainly("\n"@),
    ]
}

/// The table of commands, if there are any.
pub open spec fn command_table(rows: Seq<CommandRow>) -> Seq<style::Piece> {
    if rows.len() == 0 {
        Seq::empty()
    } else {
        let w = command_widths(rows);
        let line = ruled('\u{2500}', command_table_width(w));
        heading("By Command (top 10)"@) + line + command_columns(w) + line + command_rows(
            rows,
            rows.len() as int,
            w,
            any_saved(rows),
        ) + line + seq![plainly("\n"@)]
    }
}

/// The number of bytes of a text.
fn bytes_in(s: &str) -> (r: usize)
    ensures
        r == text::byte_len(s@),
{
    proof {
        text::lemma_byte_len(s@);
    }
    s.as_bytes().len()
}

fn measure_commands(rows: &Vec<CommandRow>) -> (r: (usize, usize, usize))
    ensures
        (r.0 as nat, r.1 as nat, r.2 as nat) == command_widths(rows@),
{
    let ghost counts = Seq::new(rows@.len(), |i: int| number::decimal(rows@[i].count as nat).len());
    let ghost saved = Seq::new(rows@.len(), |i: int| text::byte_len(rows@[i].saved_text@));
    let ghost times = Seq::new(rows@.len(), |i: int| text::byte_len(rows@[i].time@));
    let mut count_w: usize = 5;
    let mut saved_w: usize = 5;
    let mut time_w: usize = 6;
    let mut i: usize = 0;
    while i < rows.len()
        invariant
            i <= rows.len(),
            counts == Seq::new(rows@.len(), |i: int| number::decimal(rows@[i].count as nat).len()),
            saved == Seq::new(rows@.len(), |i: int| text::byte_len(rows@[i].saved_text@)),
            times == Seq::new(rows@.len(), |i: int| text::byte_len(rows@[i].time@)),
            count_w == number::widest(counts, i as int, 5),
            saved_w == number::widest(saved, i as int, 5),
            time_w == number::widest(times, i as int, 6),
        decreases rows.len() - i,
    {
        let count_len = decimal_of(rows[i].count).len();
        let saved_len = bytes_in(rows[i].saved_text.as_str());
        let time_len = bytes_in(rows[i].time.as_str());
        if count_len > count_w {
            count_w = count_len;
        }
        if saved_len > saved_w {
            saved_w = saved_len;
        }
        if time_len > time_w {
            time_w = time_len;
        }
        i += 1;
    }
    (count_w, saved_w, time_w)
}

fn say_command_row(
    out: &mut Vec<Span>,
    r: &CommandRow,
    i: usize,
    w: (usize, usize, usize),
    any: bool,
)
    requires
        i < usize::MAX,
        r.bar <= BAR_WIDTH,
    ensures
        style::pieces(final(out)@) == style::pieces(old(out)@) + command_row(
            *r,
            i as nat,
            (w.0 as nat, w.1 as nat, w.2 as nat),
            any,
        ),
{
    let ghost before = style::pieces(out@);
    say_count(out, i + 1, 2);
    say_plain(out, ".");
    say_plain(out, "  ");
    say(out, column_of(&chars_of(r.command.as_str()), 24), Paint::Command);
    say_plain(out, "  ");
    say(out, column_of(&chars_of(lookup_category(r.command.as_str())), 16), Paint::Plain);
    say_plain(out, "  ");
    say_count(out, r.count, w.0);
    say_plain(out, "  ");
    say_right(out, r.saved_text.as_str(), w.1);
    say_plain(out, "  ");
    say(out, align_right(&chars_of(r.savings.text.as_str()), 6), paint_of(&r.savings));
    say_plain(out, "  ");
    say_right(out, r.time.as_str(), w.2);
    say_plain(out, "  ");
    if any {
        say(out, bar_of(r.bar, BAR_WIDTH), Paint::Bar);
    } else {
        say(out, Vec::new(), Paint::Plain);
    }
    say_plain(out, "\n");
    assert(style::pieces(out@) =~= before + command_row(
        *r,
        i as nat,
        (w.0 as nat, w.1 as nat, w.2 as nat),
        any,
    ));
}

fn say_command_columns(out: &mut Vec<Span>, w: (usize, usize, usize))
    ensures
        style::pieces(final(out)@) == style::pieces(old(out)@) + command_columns(
            (w.0 as nat, w.1 as nat, w.2 as nat),
        ),
{
    let ghost before = style::pieces(out@);
    say_right(out, "#", 3);
    say_plain(out, "  ");
    say_left(out, "Command", 24);
    say_plain(out, "  ");
    say_left(out, "Category", 16);
    say_plain(out, "  ");
    say_right(out, "Count", w.0);
    say_plain(out, "  ");
    say_right(out, "Saved", w.1);
    say_plain(out, "  ");
    say_right(out, "Avg%", 6);
    say_plain(out, "  ");
    say_right(out, "Time", w.2);
    say_plain(out, "  ");
    say_left(out, "Impact", 10);
    say_plain(out, "\n");
    assert(style::pieces(out@) =~= before + command_columns(
        (w.0 as nat, w.1 as nat, w.2 as nat),
    ));
}

fn say_command_line(out: &mut Vec<Span>, w: (usize, usize, usize))
    ensures
        style::pieces(final(out)@) == style::pieces(old(out)@) + ruled(
            '\u{2500}',
            command_table_width((w.0 as nat, w.1 as nat, w.2 as nat)),
        ),
{
    let ghost before = style::pieces(out@);
    let mut line = repeated('\u{2500}', 73);
    extend(&mut line, &repeated('\u{2500}', w.0));
    extend(&mut line, &repeated('\u{2500}', w.1));
    extend(&mut line, &repeated('\u{2500}', w.2));
    assert(line@ =~= text::repeat(
        '\u{2500}',
        command_table_width((w.0 as nat, w.1 as nat, w.2 as nat)),
    ));
    say(out, line, Paint::Plain);
    say_plain(out, "\n");
    assert(style::pieces(out@) =~= before + ruled(
        '\u{2500}',
        command_table_width((w.0 as nat, w.1 as nat, w.2 as nat)),
    ));
}

/// Writes the table of commands.
pub fn command_section(rows: &Vec<CommandRow>) -> (r: Vec<Span>)
    requires
        forall|i: int| 0 <= i < rows@.len() ==> (#[trigger] rows@[i]).bar <= BAR_WIDTH,
    ensures
        style::pieces(r@) == command_table(rows@),
{
    let mut out: Vec<Span> = Vec::new();
    assert(style::pieces(out@) =~= Seq::<style::Piece>::empty());
    if rows.len() == 0 {
        return out;
    }
    let mut any = false;
    let mut k: usize = 0;
    while k < rows.len()
        invariant
            k <= rows.len(),
            any <==> exists|i: int| 0 <= i < k && (#[trigger] rows@[i]).saved > 0,
        decreases rows.len() - k,
    {
        if rows[k].saved > 0 {
            any = true;
        }
        k += 1;
    }
    let w = measure_commands(rows);
    let ghost widths = (w.0 as nat, w.1 as nat, w.2 as nat);
    let ghost line = ruled('\u{2500}', command_table_width(widths));
    let ghost top = heading("By Command (top 10)"@) + line + command_columns(widths) + line;
    say_heading(&mut out, "By Command (top 10)");
    say_command_line(&mut out, w);
    say_command_columns(&mut out, w);
    say_command_line(&mut out, w);
    assert(style::pieces(out@) =~= top);
    let mut i: usize = 0;
    assert(top =~= top + command_rows(rows@, 0, widths, any));
    while i < rows.len()
        invariant
            i <= rows.len(),
            widths == (w.0 as nat, w.1 as nat, w.2 as nat),
            forall|i: int| 0 <= i < rows@.len() ==> (#[trigger] rows@[i]).bar <= BAR_WIDTH,
            style::pieces(out@) == top + command_rows(rows@, i as int, widths, any),
        decreases rows.len() - i,
    {
        say_command_row(&mut out, &rows[i], i, w, any);
        i += 1;
        assert(top + command_rows(rows@, i - 1, widths, any) + command_row(
            rows@[i - 1],
            (i - 1) as nat,
            widths,
            any,
        ) =~= top + command_rows(rows@, i as int, widths, any));
    }
    say_command_line(&mut out, w);
    say_plain(&mut out, "\n");
    assert(style::pieces(out@) =~= command_table(rows@));
    out
}

/// What is shown of the savings of a category, or of all.
#[derive(Debug)]
pub struct SavingsCell {
    /// The saved tokens.
    pub saved: String,
    pub savings: Percent,
}

/// What is shown of the unused commands of a category.
pub open spec fn unused_text(unused: Seq<Seq<char>>) -> Seq<char> {
    if unused.len() == 0 {
        "\u{2014}"@
    } else if unused.len() <= 3 {
        text::join(unused, ", "@)
    } else {
        text::join(unused.take(2), ", "@) + ", "@ + number::decimal((unused.len() - 2) as nat)
            + "..."@
    }
}

fn texts_in(v: &Vec<&'static str>, n: usize) -> (r: Vec<Vec<char>>)
    requires
        n <= v.len(),
    ensures
        text::views(r@) == text::literals(v@).take(n as int),
{
    let mut r: Vec<Vec<char>> = Vec::new();
    let mut i: usize = 0;
    while i < n
        invariant
            i <= n <= v.len(),
            r.len() == i,
            forall|j: int| 0 <= j < i ==> (#[trigger] r@[j])@ == v@[j]@,
        decreases n - i,
    {
        r.push(chars_of(v[i]));
        i += 1;
    }
    assert(text::views(r@) =~= text::literals(v@).take(n as int));
    r
}

fn unused_of(unused: &Vec<&'static str>) -> (r: Vec<char>)
    ensures
        r@ == unused_text(text::literals(unused@)),
{
    let n = unused.len();
    let ghost all = text::literals(unused@);
    if n == 0 {
        chars_of("\u{2014}")
    } else if n <= 3 {
        assert(all.take(n as int) =~= all);
        joined(&texts_in(unused, n), ", ")
    } else {
        let mut r = joined(&texts_in(unused, 2), ", ");
        extend_str(&mut r, ", ");
        extend(&mut r, &decimal_of(n - 2));
        extend_str(&mut r, "...");
        r
    }
}

/// Two numbers with a slash between them.
pub open spec fn ratio(a: nat, b: nat) -> Seq<char> {
    number::decimal(a) + " / "@ + number::decimal(b)
}

fn ratio_of(a: usize, b: usize) -> (r: Vec<char>)
    ensures
        r@ == ratio(a as nat, b as nat),
{
    let mut r = decimal_of(a);
    extend_str(&mut r, " / ");
    extend(&mut r, &decimal_of(b));
    r
}

/// The row of a category.
pub open spec fn category_row(s: CategoryStats, cell: SavingsCell) -> Seq<style::Piece> {
    seq![
        plainly("  "@),
        plainly(text::left_aligned(s.category@, 20)),
        plainly(" "@),
        plainly(text::right_aligned(ratio(s.used as nat, s.available as nat), 10)),
        plainly("  "@),
        plainly(text::right_aligned(number::decimal(s.count as nat), 5)),
        plainly("  "@),
        plainly(
            text::right_aligned(
                if s.saved > 0 {
                    cell.saved@
                } else {
                    "0"@
                },
                8,
            ),
        ),
        plainly("  "@),
        (if s.count > 0 {
            (cell.savings.text@, percent_paint(cell.savings.floor))
        } else {
            plainly("    \u{2014}"@)
        }),
        plainly("   "@),
        plainly(unused_text(text::literals(s.unused@))),
        plainly("\n"@),
    ]
}

fn say_category_row(out: &mut Vec<Span>, s: &CategoryStats, cell: &SavingsCell)
    ensures
        style::pieces(final(out)@) == style::pieces(old(out)@) + category_row(*s, *cell),
{
    let ghost before = style::pieces(out@);
    say_plain(out, "  ");
    say_left(out, s.category, 20);
    say_plain(out, " ");
    say(out, align_right(&ratio_of(s.used, s.available), 10), Paint::Plain);
    say_plain(out, "  ");
    say_count(out, s.count, 5);
    say_plain(out, "  ");
    if s.saved > 0 {
        say_right(out, cell.saved.as_str(), 8);
    } else {
        say_right(out, "0", 8);
    }
    say_plain(out, "  ");
    if s.count > 0 {
        say(out, chars_of(cell.savings.text.as_str()), paint_of(&cell.savings));
    } else {
        say_plain(out, "    \u{2014}");
    }
    say_plain(out, "   ");
    say(out, unused_of(&s.unused), Paint::Plain);
    say_plain(out, "\n");
    assert(style::pieces(out@) =~= before + category_row(*s, *cell));
}

/// The rows of the first `n` categories, the largest savings first.
pub open spec fn category_rows(
    stats: Seq<CategoryStats>,
    cells: Seq<SavingsCell>,
    n: int,
) -> Seq<style::Piece>
    decreases n,
{
    if n <= 0 {
        Seq::empty()
    } else {
        let at = order::ranking(coverage::saved_counts(stats), stats.len() as int)[n - 1] as int;
        category_rows(stats, cells, n - 1) + category_row(stats[at], cells[at])
    }
}

/// The heading of the table of categories.
pub open spec fn coverage_heading(t: Totals) -> Seq<style::Piece> {
    heading(
        "Command Coverage ("@ + ratio(t.used as nat, t.available as nat) + " commands used)"@,
    ) + ruled('\u{2500}', 72) + seq![
        plainly("  "@),
        plainly(text::left_aligned("Category"@, 20)),
        plainly(" "@),
        plainly(text::right_aligned("Used/Avail"@, 10)),
        plainly("  "@),
        plainly(text::right_aligned("Count"@, 5)),
        plainly("  "@),
        plainly(text::right_aligned("Saved"@, 8)),
        plainly("  "@),
        plainly(text::right_aligned("Avg%"@, 5)),
        plainly("   Unused\n"@),
    ] + ruled('\u{2500}', 72)
}

fn say_coverage_heading(out: &mut Vec<Span>, t: &Totals)
    ensures
        style::pieces(final(out)@) == style::pieces(old(out)@) + coverage_heading(*t),
{
    let ghost before = style::pieces(out@);
    let mut title = chars_of("Command Coverage (");
    extend(&mut title, &ratio_of(t.used, t.available));
    extend_str(&mut title, " commands used)");
    say(out, title, Paint::Heading);
    say_plain(out, "\n");
    say_ruled(out, '\u{2500}', 72);
    say_plain(out, "  ");
    say_left(out, "Category", 20);
    say_plain(out, " ");
    say_right(out, "Used/Avail", 10);
    say_plain(out, "  ");
    say_right(out, "Count", 5);
    say_plain(out, "  ");
    say_right(out, "Saved", 8);
    say_plain(out, "  ");
    say_right(out, "Avg%", 5);
    say_plain(out, "   Unused\n");
    say_ruled(out, '\u{2500}', 72);
    assert(style::pieces(out@) =~= before + coverage_heading(*t));
}

/// The end of the table of categories: the sums, with a full bar where anything was saved.
pub open spec fn coverage_end(t: Totals, cell: SavingsCell) -> Seq<style::Piece> {
    ruled('\u{2500}', 72) + seq![
        plainly("  "@),
        plainly(text::left_aligned("Total"@, 20)),
        plainly(" "@),
        plainly(text::right_aligned(ratio(t.used as nat, t.available as nat) + " used"@, 10)),
        plainly("  "@),
        plainly(text::right_aligned(number::decimal(t.count as nat), 5)),
        plainly("  "@),
        plainly(text::right_aligned(cell.saved@, 8)),
        plainly("  "@),
        (cell.savings.text@, percent_paint(cell.savings.floor)),
        plainly("  "@),
        row_bar(BAR_WIDTH as nat, t.saved > 0),
        plainly("\n"@),
        plainly("\n"@),
        plainly("  Tip: Run 'rtk discover --all' to find missed savings opportunities\n"@),
    ] + ruled('\u{2500}', 72) + seq![plainly("\n"@)]
}

fn say_coverage_end(out: &mut Vec<Span>, t: &Totals, cell: &SavingsCell)
    ensures
        style::pieces(final(out)@) == style::pieces(old(out)@) + coverage_end(*t, *cell),
{
    let ghost before = style::pieces(out@);
    say_ruled(out, '\u{2500}', 72);
    say_plain(out, "  ");
    say_left(out, "Total", 20);
    say_plain(out, " ");
    let mut used = ratio_of(t.used, t.available);
    extend_str(&mut used, " used");
    say(out, align_right(&used, 10), Paint::Plain);
    say_plain(out, "  ");
    say_count(out, t.count, 5);
    say_plain(out, "  ");
    say_right(out, cell.saved.as_str(), 8);
    say_plain(out, "  ");
    say(out, chars_of(cell.savings.text.as_str()), paint_of(&cell.savings));
    say_plain(out, "  ");
    if t.saved > 0 {
        say(out, bar_of(BAR_WIDTH, BAR_WIDTH), Paint::Bar);
    } else {
        say(out, Vec::new(), Paint::Plain);
    }
    say_plain(out, "\n");
    say_plain(out, "\n");
    say_plain(out, "  Tip: Run 'rtk discover --all' to find missed savings opportunities\n");
    say_ruled(out, '\u{2500}', 72);
    say_plain(out, "\n");
    assert(style::pieces(out@) =~= before + coverage_end(*t, *cell));
}

/// The table of categories.
pub open spec fn coverage_table(
    stats: Seq<CategoryStats>,
    cells: Seq<SavingsCell>,
    t: Totals,
    all: SavingsCell,
) -> Seq<style::Piece> {
    coverage_heading(t) + category_rows(stats, cells, stats.len() as int) + coverage_end(t, all)
}

/// Writes the table of categories, with what is shown of the savings of each and of all.
pub fn coverage_section(
    stats: &Vec<CategoryStats>,
    cells: &Vec<SavingsCell>,
    t: &Totals,
    all: &SavingsCell,
) -> (r: Vec<Span>)
    requires
        cells.len() == stats.len(),
    ensures
        style::pieces(r@) == coverage_table(stats@, cells@, *t, *all),
{
    let mut out: Vec<Span> = Vec::new();
    assert(style::pieces(out@) =~= Seq::<style::Piece>::empty());
    say_coverage_heading(&mut out, t);
    let ghost top = coverage_heading(*t);
    assert(style::pieces(out@) =~= top);
    let ranks = by_savings(stats);
    let mut i: usize = 0;
    assert(top =~= top + category_rows(stats@, cells@, 0));
    while i < ranks.len()
        invariant
            i <= ranks.len(),
            ranks.len() == stats.len(),
            cells.len() == stats.len(),
            ranks@ == order::ranking(coverage::saved_counts(stats@), stats@.len() as int),
            forall|j: int| 0 <= j < ranks.len() ==> #[trigger] ranks@[j] < stats.len(),
            style::pieces(out@) == top + category_rows(stats@, cells@, i as int),
        decreases ranks.len() - i,
    {
        let at = ranks[i];
        say_category_row(&mut out, &stats[at], &cells[at]);
        i += 1;
        assert(top + category_rows(stats@, cells@, i - 1) + category_row(
            stats@[at as int],
            cells@[at as int],
        ) =~= top + category_rows(stats@, cells@, i as int));
    }
    say_coverage_end(&mut out, t, all);
    out
}

/// What the cache did, if it did anything.
pub open spec fn cache_table(hits: nat, tokens: Seq<char>, rate: Seq<char>) -> Seq<style::Piece> {
    if hits == 0 {
        Seq::empty()
    } else {
        heading("Cache Performance"@) + ruled('\u{2500}', 56) + kpi(
            "Cache hits"@,
            number::decimal(hits),
        ) + kpi("Tokens avoided"@, tokens) + kpi("Hit rate"@, rate) + ruled('\u{2500}', 56)
            + seq![plainly("\n"@)]
    }
}

/// Writes what the cache did: its hits, the tokens that it avoided, and its hit rate.
pub fn cache_section(hits: usize, tokens: &str, rate: &str) -> (r: Vec<Span>)
    ensures
        style::pieces(r@) == cache_table(hits as nat, tokens@, rate@),
{
    let mut out: Vec<Span> = Vec::new();
    assert(style::pieces(out@) =~= Seq::<style::Piece>::empty());
    if hits > 0 {
        say_heading(&mut out, "Cache Performance");
        say_ruled(&mut out, '\u{2500}', 56);
        say_kpi(&mut out, "Cache hits", &decimal_of(hits));
        say_kpi(&mut out, "Tokens avoided", &chars_of(tokens));
        say_kpi(&mut out, "Hit rate", &chars_of(rate));
        say_ruled(&mut out, '\u{2500}', 56);
        say_plain(&mut out, "\n");
        assert(style::pieces(out@) =~= cache_table(hits as nat, tokens@, rate@));
    }
    out
}

/// A line on a route.
pub open spec fn route_line(label: Seq<char>, n: nat, note: Seq<char>) -> Seq<style::Piece> {
    seq![plainly(label), plainly(text::right_aligned(number::decimal(n), 6)), plainly(note)]
}

fn say_route(out: &mut Vec<Span>, label: &str, n: usize, note: &str)
    ensures
        style::pieces(final(out)@) == style::pieces(old(out)@) + route_line(
            label@,
            n as nat,
            note@,
        ),
{
    let ghost before = style::pieces(out@);
    say_plain(out, label);
    say_count(out, n, 6);
    say_plain(out, note);
    assert(style::pieces(out@) =~= before + route_line(label@, n as nat, note@));
}

/// How many commands ran by which route.
pub open spec fn routing_table(dedicated: nat, proxy: nat, other: nat, cache_hits: nat) -> Seq<
    style::Piece,
> {
    heading("Routing Breakdown"@) + ruled('\u{2500}', 56) + route_line(
        "  Dedicated filters:  "@,
        dedicated,
        " commands  (specialized output)\n"@,
    ) + route_line(
        "  Proxy auto-filter:  "@,
        proxy,
        " commands  (ANSI/dedup/truncate)\n"@,
    ) + (if cache_hits > 0 {
        route_line(
            "  Cache hits:         "@,
            cache_hits,
            " commands  (repeated output skipped)\n"@,
        )
    } else {
        Seq::empty()
    }) + (if other > 0 {
        route_line("  Other:              "@, other, " commands\n"@)
    } else {
        Seq::empty()
    }) + ruled('\u{2500}', 56) + seq![plainly("\n"@)]
}

/// Writes how many commands ran by which route.
pub fn routing_section(dedicated: usize, proxy: usize, other: usize, cache_hits: usize) -> (r: Vec<
    Span,
>)
    ensures
        style::pieces(r@) == routing_table(
            dedicated as nat,
            proxy as nat,
            other as nat,
            cache_hits as nat,
        ),
{
    let mut out: Vec<Span> = Vec::new();
    assert(style::pieces(out@) =~= Seq::<style::Piece>::empty());
    say_heading(&mut out, "Routing Breakdown");
    say_ruled(&mut out, '\u{2500}', 56);
    say_route(&mut out, "  Dedicated filters:  ", dedicated, " commands  (specialized output)\n");
    say_route(&mut out, "  Proxy auto-filter:  ", proxy, " commands  (ANSI/dedup/truncate)\n");
    if cache_hits > 0 {
        say_route(
            &mut out,
            "  Cache hits:         ",
            cache_hits,
            " commands  (repeated output skipped)\n",
        );
    }
    if other > 0 {
        say_route(&mut out, "  Other:              ", other, " commands\n");
    }
    say_ruled(&mut out, '\u{2500}', 56);
    say_plain(&mut out, "\n");
    assert(style::pieces(out@) =~= routing_table(
        dedicated as nat,
        proxy as nat,
        other as nat,
        cache_hits as nat,
    ));
    out
}

/// A character of `s` begins or ends at byte `n`.
pub open spec fn is_boundary(s: Seq<char>, n: nat) -> bool {
    text::byte_len(s.take(text::cut(s, n))) == n
}

/// The first `n` bytes of `s`, where a character ends there.
pub open spec fn first_bytes(s: Seq<char>, n: nat) -> Seq<char> {
    s.take(text::cut(s, n))
}

pub(crate) fn bytes_before(s: &Vec<char>, n: usize) -> (r: Vec<char>)
    ensures
        r@ == first_bytes(s@, n as nat),
{
    let k = count_before(s, n);
    assert(s@.subrange(0, k as int) =~= s@.take(k as int));
    slice(s, 0, k)
}

/// `s`, or if it has more than `max` bytes, the first `keep` of them and three dots.
pub open spec fn clipped(s: Seq<char>, max: nat, keep: nat) -> Seq<char> {
    if text::byte_len(s) > max {
        first_bytes(s, keep) + "..."@
    } else {
        s
    }
}

/// `s` can be clipped: it is short, or a character ends where it is cut.
pub open spec fn can_clip(s: Seq<char>, max: nat, keep: nat) -> bool {
    text::byte_len(s) > max ==> is_boundary(s, keep)
}

pub(crate) fn clip(s: &Vec<char>, max: usize, keep: usize) -> (r: Vec<char>)
    ensures
        r@ == clipped(s@, max as nat, keep as nat),
{
    if count_bytes(s) > max as u128 {
        let mut r = bytes_before(s, keep);
        extend_str(&mut r, "...");
        r
    } else {
        copy(s)
    }
}

/// Tells whether a text can be clipped.
pub fn is_clippable(s: &str, max: usize, keep: usize) -> (r: bool)
    ensures
        r == can_clip(s@, max as nat, keep as nat),
{
    let c = chars_of(s);
    count_bytes(&c) <= max as u128 || count_bytes(&bytes_before(&c, keep)) == keep as u128
}

/// A day of the graph.
#[derive(Debug)]
pub struct GraphDay {
    /// The date, such as `2024-01-31`.
    pub date: String,
    /// The saved tokens, as they are shown.
    pub saved: String,
    /// The length of its bar.
    pub bar: usize,
}

/// The number of characters for a bar of the graph.
pub const GRAPH_WIDTH: usize = 40;

/// The month and day of a date, or all of a shorter text.
pub open spec fn short_date(date: Seq<char>) -> Seq<char> {
    if text::byte_len(date) >= 10 {
        date.subrange(text::cut(date, 5), text::cut(date, 10))
    } else {
        date
    }
}

/// The line of a day.
pub open spec fn graph_line(d: GraphDay) -> Seq<style::Piece> {
    seq![
        plainly(short_date(d.date@)),
        plainly(" \u{2502}"@),
        plainly(text::repeat('\u{2588}', d.bar as nat)),
        plainly(text::repeat(' ', (GRAPH_WIDTH - d.bar) as nat)),
        plainly(" "@),
        plainly(d.saved@),
        plainly("\n"@),
    ]
}

/// The lines of the first `n` days.
pub open spec fn graph_lines(days: Seq<GraphDay>, n: int) -> Seq<style::Piece>
    decreases n,
{
    if n <= 0 {
        Seq::empty()
    } else {
        graph_lines(days, n - 1) + graph_line(days[n - 1])
    }
}

/// The graph of the savings by day, if there are any days.
pub open spec fn graph(days: Seq<GraphDay>) -> Seq<style::Piece> {
    if days.len() == 0 {
        Seq::empty()
    } else {
        heading("Daily Savings (last 30 days)"@) + ruled('\u{2500}', 58) + graph_lines(
            days,
            days.len() as int,
        ) + seq![plainly("\n"@)]
    }
}

/// A date that can be shortened has characters ending around its month and day.
pub open spec fn is_date(date: Seq<char>) -> bool {
    text::byte_len(date) >= 10 ==> is_boundary(date, 5) && is_boundary(date, 10)
}

/// Tells whether a date can be shortened.
pub fn is_graph_date(date: &str) -> (r: bool)
    ensures
        r == is_date(date@),
{
    let c = chars_of(date);
    count_bytes(&c) < 10 || (count_bytes(&bytes_before(&c, 5)) == 5 && count_bytes(
        &bytes_before(&c, 10),
    ) == 10)
}

proof fn lemma_cut_order(s: Seq<char>, a: nat, b: nat)
    requires
        a <= b,
    ensures
        0 <= text::cut(s, a) <= text::cut(s, b) <= s.len(),
{
    text::lemma_cut(s, 0, a);
    text::lemma_cut(s, 0, b);
    if text::cut(s, b) < text::cut(s, a) {
        assert(text::byte_len(s.take(text::cut(s, b))) < a);
    }
}

fn say_graph_line(out: &mut Vec<Span>, d: &GraphDay)
    requires
        d.bar <= GRAPH_WIDTH,
    ensures
        style::pieces(final(out)@) == style::pieces(old(out)@) + graph_line(*d),
{
    let ghost before = style::pieces(out@);
    let date = chars_of(d.date.as_str());
    let shown = if count_bytes(&date) >= 10 {
        proof {
            lemma_cut_order(date@, 5, 10);
        }
        slice(&date, count_before(&date, 5), count_before(&date, 10))
    } else {
        date
    };
    say(out, shown, Paint::Plain);
    say_plain(out, " \u{2502}");
    say(out, repeated('\u{2588}', d.bar), Paint::Plain);
    say(out, repeated(' ', GRAPH_WIDTH - d.bar), Paint::Plain);
    say_plain(out, " ");
    say_plain(out, d.saved.as_str());
    say_plain(out, "\n");
    assert(style::pieces(out@) =~= before + graph_line(*d));
}

/// Writes the graph of the savings by day.
pub fn graph_section(days: &Vec<GraphDay>) -> (r: Vec<Span>)
    requires
        forall|i: int|
            0 <= i < days@.len() ==> (#[trigger] days@[i]).bar <= GRAPH_WIDTH && is_date(
                days@[i].date@,
            ),
    ensures
        style::pieces(r@) == graph(days@),
{
    let mut out: Vec<Span> = Vec::new();
    assert(style::pieces(out@) =~= Seq::<style::Piece>::empty());
    if days.len() == 0 {
        return out;
    }
    say_heading(&mut out, "Daily Savings (last 30 days)");
    say_ruled(&mut out, '\u{2500}', 58);
    let ghost top = heading("Daily Savings (last 30 days)"@) + ruled('\u{2500}', 58);
    assert(style::pieces(out@) =~= top);
    let mut i: usize = 0;
    assert(top =~= top + graph_lines(days@, 0));
    while i < days.len()
        invariant
            i <= days.len(),
            forall|i: int| 0 <= i < days@.len() ==> (#[trigger] days@[i]).bar <= GRAPH_WIDTH,
            style::pieces(out@) == top + graph_lines(days@, i as int),
        decreases days.len() - i,
    {
        say_graph_line(&mut out, &days[i]);
        i += 1;
        assert(top + graph_lines(days@, i - 1) + graph_line(days@[i - 1]) =~= top + graph_lines(
            days@,
            i as int,
        ));
    }
    say_plain(&mut out, "\n");
    assert(style::pieces(out@) =~= graph(days@));
    out
}

/// A command that ran recently.
#[derive(Debug)]
pub struct RecentCommand {
    /// Month, day, hour and minute.
    pub time: String,
    pub command: String,
    /// The savings without a decimal place, and without a percent sign.
    pub savings: String,
    /// The savings rounded down.
    pub floor: i64,
    /// The saved tokens, as they are shown.
    pub saved: String,
}

/// The sign of a level of savings, in percent rounded down.
pub open spec fn savings_sign(floor: i64) -> Seq<char> {
    if floor >= 70 {
        "\u{25b2}"@
    } else if floor >= 30 {
        "\u{25a0}"@
    } else {
        "\u{2022}"@
    }
}

/// The line of a recent command.
pub open spec fn recent_line(c: RecentCommand) -> Seq<style::Piece> {
    seq![
        plainly(c.time@),
        plainly(" "@),
        plainly(savings_sign(c.floor)),
        plainly(" "@),
        plainly(text::left_aligned(clipped(c.command@, 25, 22), 25)),
        plainly(" -"@),
        plainly(c.savings@),
        plainly("% ("@),
        plainly(c.saved@),
        plainly(")\n"@),
    ]
}

/// The lines of the first `n` recent commands.
pub open spec fn recent_lines(v: Seq<RecentCommand>, n: int) -> Seq<style::Piece>
    decreases n,
{
    if n <= 0 {
        Seq::empty()
    } else {
        recent_lines(v, n - 1) + recent_line(v[n - 1])
    }
}

/// The recent commands, if there are any.
pub open spec fn history(v: Seq<RecentCommand>) -> Seq<style::Piece> {
    if v.len() == 0 {
        Seq::empty()
    } else {
        heading("Recent Commands"@) + ruled('\u{2500}', 58) + recent_lines(v, v.len() as int)
            + seq![plainly("\n"@)]
    }
}

fn say_recent_line(out: &mut Vec<Span>, c: &RecentCommand)
    ensures
        style::pieces(final(out)@) == style::pieces(old(out)@) + recent_line(*c),
{
    let ghost before = style::pieces(out@);
    say_plain(out, c.time.as_str());
    say_plain(out, " ");
    if c.floor >= 70 {
        say_plain(out, "\u{25b2}");
    } else if c.floor >= 30 {
        say_plain(out, "\u{25a0}");
    } else {
        say_plain(out, "\u{2022}");
    }
    say_plain(out, " ");
    say(out, align_left(&clip(&chars_of(c.command.as_str()), 25, 22), 25), Paint::Plain);
    say_plain(out, " -");
    say_plain(out, c.savings.as_str());
    say_plain(out, "% (");
    say_plain(out, c.saved.as_str());
    say_plain(out, ")\n");
    assert(style::pieces(out@) =~= before + recent_line(*c));
}

/// Writes the recent commands.
pub fn history_section(v: &Vec<RecentCommand>) -> (r: Vec<Span>)
    requires
        forall|i: int| 0 <= i < v@.len() ==> can_clip((#[trigger] v@[i]).command@, 25, 22),
    ensures
        style::pieces(r@) == history(v@),
{
    let mut out: Vec<Span> = Vec::new();
    assert(style::pieces(out@) =~= Seq::<style::Piece>::empty());
    if v.len() == 0 {
        return out;
    }
    say_heading(&mut out, "Recent Commands");
    say_ruled(&mut out, '\u{2500}', 58);
    let ghost top = heading("Recent Commands"@) + ruled('\u{2500}', 58);
    assert(style::pieces(out@) =~= top);
    let mut i: usize = 0;
    assert(top =~= top + recent_lines(v@, 0));
    while i < v.len()
        invariant
            i <= v.len(),
            style::pieces(out@) == top + recent_lines(v@, i as int),
        decreases v.len() - i,
    {
        say_recent_line(&mut out, &v[i]);
        i += 1;
        assert(top + recent_lines(v@, i - 1) + recent_line(v@[i - 1]) =~= top + recent_lines(
            v@,
            i as int,
        ));
    }
    say_plain(&mut out, "\n");
    assert(style::pieces(out@) =~= history(v@));
    out
}

/// How much of a monthly quota was preserved.
pub open spec fn quota_table(
    name: Seq<char>,
    quota: Seq<char>,
    saved: Seq<char>,
    preserved: Seq<char>,
) -> Seq<style::Piece> {
    heading("Monthly Quota Analysis"@) + ruled('\u{2500}', 58) + kpi("Subscription tier"@, name)
        + kpi("Estimated monthly quota"@, quota) + kpi("Tokens saved (lifetime)"@, saved) + kpi(
        "Quota preserved"@,
        preserved,
    ) + seq![
        plainly("\n"@),
        plainly("Note: Heuristic estimate based on ~44K tokens/5h (Pro baseline)\n"@),
        plainly("      Actual limits use rolling 5-hour windows, not monthly caps.\n"@),
    ]
}

/// Writes how much of a monthly quota was preserved.
pub fn quota_section(name: &str, quota: &str, saved: &str, preserved: &str) -> (r: Vec<Span>)
    ensures
        style::pieces(r@) == quota_table(name@, quota@, saved@, preserved@),
{
    let mut out: Vec<Span> = Vec::new();
    assert(style::pieces(out@) =~= Seq::<style::Piece>::empty());
    say_heading(&mut out, "Monthly Quota Analysis");
    say_ruled(&mut out, '\u{2500}', 58);
    say_kpi(&mut out, "Subscription tier", &chars_of(name));
    say_kpi(&mut out, "Estimated monthly quota", &chars_of(quota));
    say_kpi(&mut out, "Tokens saved (lifetime)", &chars_of(saved));
    say_kpi(&mut out, "Quota preserved", &chars_of(preserved));
    say_plain(&mut out, "\n");
    say_plain(&mut out, "Note: Heuristic estimate based on ~44K tokens/5h (Pro baseline)\n");
    say_plain(&mut out, "      Actual limits use rolling 5-hour windows, not monthly caps.\n");
    assert(style::pieces(out@) =~= quota_table(name@, quota@, saved@, preserved@));
    out
}

/// The last characters of `cell` are `s`, and before them there are only spaces.
pub open spec fn ends_cell(cell: Seq<char>, s: Seq<char>) -> bool {
    &&& s.len() <= cell.len()
    &&& cell.skip(cell.len() - s.len()) == s
    &&& forall|i: int| 0 <= i < cell.len() - s.len() ==> #[trigger] cell[i] == ' '
}

proof fn lemma_ends_cell(s: Seq<char>, width: nat)
    ensures
        ends_cell(text::right_aligned(s, width), s),
{
    text::lemma_aligned(s, width);
}

proof fn lemma_command_rows(v: Seq<CommandRow>, n: int, w: (nat, nat, nat), any: bool)
    requires
        0 <= n <= v.len(),
    ensures
        command_rows(v, n, w, any).len() == 17 * n,
        forall|i: int|
            #![trigger v[i]]
            0 <= i < n ==> style::holds(command_rows(v, n, w, any), 17 * i, command_row(v[i], i as nat, w, any)),
    decreases n,
{
    if n > 0 {
        lemma_command_rows(v, n - 1, w, any);
        let before = command_rows(v, n - 1, w, any);
        let now = command_rows(v, n, w, any);
        assert(command_row(v[n - 1], (n - 1) as nat, w, any).len() == 17);
        assert forall|i: int|
            #![trigger v[i]]
            0 <= i < n implies style::holds(now, 17 * i, command_row(v[i], i as nat, w, any)) by {
            let row = command_row(v[i], i as nat, w, any);
            if i < n - 1 {
                assert(style::holds(before, 17 * i, row));
                assert(row.len() == 17);
                assert(now.subrange(17 * i, 17 * i + 17) =~= before.subrange(
                    17 * i,
                    17 * i + 17,
                ));
            } else {
                assert(now.subrange(17 * i, 17 * i + 17) =~= row);
            }
        }
    }
}

/// The pieces from `at` on are those of the row of `r`, the one with this number.
pub open spec fn shows_command(t: Seq<style::Piece>, at: int, r: CommandRow, number: nat) -> bool {
    &&& ends_cell(t[at].0, number::decimal(number))
    &&& t[at + 3].0 == super::in_column(r.command@, 24)
    &&& super::category_name(r.command@) matches Some(c) ==> t[at + 5].0 == super::in_column(c, 16)
    &&& super::category_name(r.command@) is None ==> t[at + 5].0 == super::in_column("Other"@, 16)
    &&& ends_cell(t[at + 7].0, number::decimal(r.count as nat))
    &&& ends_cell(t[at + 9].0, r.saved_text@)
    &&& ends_cell(t[at + 11].0, r.savings.text@)
    &&& ends_cell(t[at + 13].0, r.time@)
    &&& t[at + 16].0 == "\n"@
}

proof fn lemma_command_shown(
    t: Seq<style::Piece>,
    at: int,
    r: CommandRow,
    i: nat,
    w: (nat, nat, nat),
    any: bool,
)
    requires
        style::holds(t, at, command_row(r, i, w, any)),
    ensures
        shows_command(t, at, r, i + 1),
        t[at + 15] == row_bar(r.bar as nat, any),
        t[at + 7].0.len() >= w.0 && (number::decimal(r.count as nat).len() <= w.0 ==> t[at
            + 7].0.len() == w.0),
{
    let row = command_row(r, i, w, any);
    assert(row.len() == 17);
    let cut = t.subrange(at, at + 17);
    assert(cut == row);
    assert(cut[0] == t[at] && cut[3] == t[at + 3] && cut[5] == t[at + 5] && cut[7] == t[at + 7]
        && cut[9] == t[at + 9] && cut[11] == t[at + 11] && cut[13] == t[at + 13] && cut[15] == t[at
        + 15] && cut[16] == t[at + 16]);
    lemma_ends_cell(number::decimal(i + 1), 2);
    lemma_ends_cell(number::decimal(r.count as nat), w.0);
    text::lemma_aligned(number::decimal(r.count as nat), w.0);
    lemma_ends_cell(r.saved_text@, w.1);
    lemma_ends_cell(r.savings.text@, 6);
    lemma_ends_cell(r.time@, w.2);
}

/// What stands above the rows of the table of commands.
spec fn above_commands(w: (nat, nat, nat)) -> Seq<style::Piece> {
    let line = ruled('\u{2500}', command_table_width(w));
    heading("By Command (top 10)"@) + line + command_columns(w) + line
}

/// What stands below the rows of the table of commands.
spec fn below_commands(w: (nat, nat, nat)) -> Seq<style::Piece> {
    ruled('\u{2500}', command_table_width(w)) + seq![plainly("\n"@)]
}

proof fn lemma_command_parts(rows: Seq<CommandRow>)
    requires
        rows.len() > 0,
    ensures
        ({
            let w = command_widths(rows);
            let all = command_rows(rows, rows.len() as int, w, any_saved(rows));
            &&& command_table(rows) == above_commands(w) + all + below_commands(w)
            &&& above_commands(w).len() == 22
            &&& below_commands(w).len() == 3
            &&& all.len() == 17 * rows.len()
        }),
{
    let w = command_widths(rows);
    let all = command_rows(rows, rows.len() as int, w, any_saved(rows));
    lemma_command_rows(rows, rows.len() as int, w, any_saved(rows));
    assert(command_table(rows) =~= above_commands(w) + all + below_commands(w));
}

proof fn lemma_command_at(rows: Seq<CommandRow>, i: int)
    requires
        0 <= i < rows.len(),
    ensures
        ({
            let t = command_table(rows);
            &&& shows_command(t, 22 + 17 * i, rows[i], (i + 1) as nat)
            &&& t[22 + 17 * i + 7].0.len() == command_widths(rows).0
            &&& t[22 + 17 * i + 15] == row_bar(rows[i].bar as nat, any_saved(rows))
        }),
{
    let w = command_widths(rows);
    let any = any_saved(rows);
    let n = rows.len() as int;
    let all = command_rows(rows, n, w, any);
    let row = command_row(rows[i], i as nat, w, any);
    lemma_command_parts(rows);
    assert(style::holds(all, 17 * i, row)) by {
        lemma_command_rows(rows, n, w, any);
    }
    style::lemma_holds_around(above_commands(w), all, below_commands(w), 17 * i, row);
    lemma_command_shown(command_table(rows), 22 + 17 * i, rows[i], i as nat, w, any);
    let counts = Seq::new(rows.len(), |i: int| number::decimal(rows[i].count as nat).len());
    number::lemma_widest(counts, n, 5);
    assert(counts[i] <= w.0);
}

/// The table of commands has a row for each command, in their order and numbered from 1: its
/// name, its category, how often it ran, what it saved, and its time. The counts stand in a
/// column of one width, and the bars are left out if and only if no command saved anything.
pub proof fn lemma_command_table(rows: Seq<CommandRow>)
    requires
        rows.len() > 0,
    ensures
        ({
            let t = command_table(rows);
            &&& t.len() == 22 + 17 * rows.len() + 3
            &&& forall|i: int|
                #![trigger rows[i]]
                0 <= i < rows.len() ==> {
                    &&& shows_command(t, 22 + 17 * i, rows[i], (i + 1) as nat)
                    &&& t[22 + 17 * i + 7].0.len() == t[29].0.len()
                    &&& (exists|j: int| 0 <= j < rows.len() && (#[trigger] rows[j]).saved > 0)
                        ==> t[22 + 17 * i + 15].0 == text::repeat('\u{2588}', rows[i].bar as nat)
                        + text::repeat('\u{2591}', (10 - rows[i].bar) as nat)
                    &&& (forall|j: int| 0 <= j < rows.len() ==> (#[trigger] rows[j]).saved == 0)
                        ==> t[22 + 17 * i + 15].0.len() == 0
                }
        }),
{
    lemma_command_parts(rows);
    let t = command_table(rows);
    assert forall|i: int|
        #![trigger rows[i]]
        0 <= i < rows.len() implies ({
        &&& shows_command(t, 22 + 17 * i, rows[i], (i + 1) as nat)
        &&& t[22 + 17 * i + 7].0.len() == t[29].0.len()
        &&& (exists|j: int| 0 <= j < rows.len() && (#[trigger] rows[j]).saved > 0) ==> t[22 + 17 * i
            + 15].0 == text::repeat('\u{2588}', rows[i].bar as nat) + text::repeat(
            '\u{2591}',
            (10 - rows[i].bar) as nat,
        )
        &&& (forall|j: int| 0 <= j < rows.len() ==> (#[trigger] rows[j]).saved == 0) ==> t[22 + 17
            * i + 15].0.len() == 0
    }) by {
        lemma_command_at(rows, i);
        lemma_command_at(rows, 0);
        assert(BAR_WIDTH == 10);
    }
}

proof fn lemma_graph_lines(v: Seq<GraphDay>, n: int)
    requires
        0 <= n <= v.len(),
    ensures
        graph_lines(v, n).len() == 7 * n,
        forall|i: int|
            #![trigger v[i]]
            0 <= i < n ==> style::holds(graph_lines(v, n), 7 * i, graph_line(v[i])),
    decreases n,
{
    if n > 0 {
        lemma_graph_lines(v, n - 1);
        let before = graph_lines(v, n - 1);
        let now = graph_lines(v, n);
        assert(graph_line(v[n - 1]).len() == 7);
        assert forall|i: int|
            #![trigger v[i]]
            0 <= i < n implies style::holds(now, 7 * i, graph_line(v[i])) by {
            let row = graph_line(v[i]);
            if i < n - 1 {
                assert(style::holds(before, 7 * i, row));
                assert(row.len() == 7);
                assert(now.subrange(7 * i, 7 * i + 7) =~= before.subrange(
                    7 * i,
                    7 * i + 7,
                ));
            } else {
                assert(now.subrange(7 * i, 7 * i + 7) =~= row);
            }
        }
    }
}

/// The graph has a line for each day, in their order: its month and day, its bar, and what it
/// saved.
pub proof fn lemma_graph(days: Seq<GraphDay>)
    requires
        days.len() > 0,
    ensures
        ({
            let t = graph(days);
            &&& t.len() == 4 + 7 * days.len() + 1
            &&& forall|i: int|
                #![trigger days[i]]
                0 <= i < days.len() ==> {
                    let at = 4 + 7 * i;
                    &&& text::byte_len(days[i].date@) < 10 ==> t[at].0 == days[i].date@
                    &&& text::byte_len(days[i].date@) >= 10 ==> t[at].0 == short_date(days[i].date@)
                    &&& t[at + 2].0 == text::repeat('\u{2588}', days[i].bar as nat)
                    &&& t[at + 2].0.len() <= 40 ==> t[at + 2].0.len() + t[at + 3].0.len() == 40
                    &&& t[at + 5].0 == days[i].saved@
                    &&& t[at + 6].0 == "\n"@
                }
        }),
{
    let n = days.len() as int;
    let top = heading("Daily Savings (last 30 days)"@) + ruled('\u{2500}', 58);
    let all = graph_lines(days, n);
    let below = seq![plainly("\n"@)];
    let t = graph(days);
    assert(top.len() == 4);
    assert(t =~= top + all + below);
    lemma_graph_lines(days, n);
    assert forall|i: int|
        #![trigger days[i]]
        0 <= i < days.len() implies ({
        let at = 4 + 7 * i;
        &&& text::byte_len(days[i].date@) < 10 ==> t[at].0 == days[i].date@
        &&& text::byte_len(days[i].date@) >= 10 ==> t[at].0 == short_date(days[i].date@)
        &&& t[at + 2].0 == text::repeat('\u{2588}', days[i].bar as nat)
        &&& t[at + 2].0.len() <= 40 ==> t[at + 2].0.len() + t[at + 3].0.len() == 40
        &&& t[at + 5].0 == days[i].saved@
        &&& t[at + 6].0 == "\n"@
    }) by {
        let row = graph_line(days[i]);
        style::lemma_holds_around(top, all, below, 7 * i, row);
        let cut = t.subrange(4 + 7 * i, 4 + 7 * i + 7);
        assert(cut == row);
        assert(cut[0] == t[4 + 7 * i] && cut[2] == t[4 + 7 * i + 2] && cut[3] == t[4 + 7 * i + 3]
            && cut[5] == t[4 + 7 * i + 5] && cut[6] == t[4 + 7 * i + 6]);
    }
}

/// The month and day of a date are its five bytes behind the first five.
pub proof fn lemma_short_date(year: Seq<char>, day: Seq<char>, rest: Seq<char>)
    requires
        text::byte_len(year) == 5,
        text::byte_len(day) == 5,
    ensures
        short_date(year + day + rest) == day,
{
    let date = year + day + rest;
    text::lemma_byte_len_joined(year, day);
    text::lemma_byte_len_joined(year + day, rest);
    lemma_first_bytes(year, day + rest);
    assert(year + (day + rest) =~= date);
    lemma_first_bytes(year + day, rest);
    assert(date.subrange(year.len() as int, (year + day).len() as int) =~= day);
}

/// The first bytes of a text are the characters that take them.
pub proof fn lemma_first_bytes(a: Seq<char>, b: Seq<char>)
    ensures
        text::cut(a + b, text::byte_len(a)) == a.len(),
        first_bytes(a + b, text::byte_len(a)) == a,
{
    let s = a + b;
    let limit = text::byte_len(a);
    text::lemma_cut(s, 0, limit);
    let k = text::cut(s, limit);
    assert(s.take(a.len() as int) =~= a);
    if k < a.len() {
        assert(a =~= s.take(k) + a.skip(k));
        text::lemma_byte_len_joined(s.take(k), a.skip(k));
        lemma_has_bytes(a.skip(k));
    } else if k > a.len() {
        assert(text::byte_len(s.take(a.len() as int)) < limit);
    }
}

/// A text that is not empty has bytes.
proof fn lemma_has_bytes(s: Seq<char>)
    requires
        s.len() > 0,
    ensures
        text::byte_len(s) > 0,
{
}

/// A text that is short enough is not clipped; of another the first bytes are kept, with three
/// dots behind them.
pub proof fn lemma_clipped(a: Seq<char>, b: Seq<char>, max: nat)
    ensures
        text::byte_len(a + b) <= max ==> clipped(a + b, max, text::byte_len(a)) == a + b,
        text::byte_len(a + b) > max ==> clipped(a + b, max, text::byte_len(a)) == a + "..."@,
{
    lemma_first_bytes(a, b);
}

proof fn lemma_recent_lines(v: Seq<RecentCommand>, n: int)
    requires
        0 <= n <= v.len(),
    ensures
        recent_lines(v, n).len() == 10 * n,
        forall|i: int|
            #![trigger v[i]]
            0 <= i < n ==> style::holds(recent_lines(v, n), 10 * i, recent_line(v[i])),
    decreases n,
{
    if n > 0 {
        lemma_recent_lines(v, n - 1);
        let before = recent_lines(v, n - 1);
        let now = recent_lines(v, n);
        assert(recent_line(v[n - 1]).len() == 10);
        assert forall|i: int|
            #![trigger v[i]]
            0 <= i < n implies style::holds(now, 10 * i, recent_line(v[i])) by {
            let row = recent_line(v[i]);
            if i < n - 1 {
                assert(style::holds(before, 10 * i, row));
                assert(row.len() == 10);
                assert(now.subrange(10 * i, 10 * i + 10) =~= before.subrange(
                    10 * i,
                    10 * i + 10,
                ));
            } else {
                assert(now.subrange(10 * i, 10 * i + 10) =~= row);
            }
        }
    }
}

/// The history has a line for each command, in their order: its time, its name, and its savings
/// in percent and in tokens.
pub proof fn lemma_history(v: Seq<RecentCommand>)
    requires
        v.len() > 0,
    ensures
        ({
            let t = history(v);
            &&& t.len() == 4 + 10 * v.len() + 1
            &&& forall|i: int|
                #![trigger v[i]]
                0 <= i < v.len() ==> {
                    let at = 4 + 10 * i;
                    &&& t[at].0 == v[i].time@
                    &&& t[at + 2].0 == savings_sign(v[i].floor)
                    &&& text::byte_len(v[i].command@) <= 25 ==> t[at + 4].0 == text::left_aligned(
                        v[i].command@,
                        25,
                    )
                    &&& text::byte_len(v[i].command@) > 25 ==> t[at + 4].0 == text::left_aligned(
                        first_bytes(v[i].command@, 22) + "..."@,
                        25,
                    )
                    &&& t[at + 6].0 == v[i].savings@
                    &&& t[at + 8].0 == v[i].saved@
                    &&& t[at + 9].0 == ")\n"@
                }
        }),
{
    let n = v.len() as int;
    let top = heading("Recent Commands"@) + ruled('\u{2500}', 58);
    let all = recent_lines(v, n);
    let below = seq![plainly("\n"@)];
    let t = history(v);
    assert(top.len() == 4);
    assert(t =~= top + all + below);
    lemma_recent_lines(v, n);
    assert forall|i: int|
        #![trigger v[i]]
        0 <= i < v.len() implies ({
        let at = 4 + 10 * i;
        &&& t[at].0 == v[i].time@
        &&& t[at + 2].0 == savings_sign(v[i].floor)
        &&& text::byte_len(v[i].command@) <= 25 ==> t[at + 4].0 == text::left_aligned(
            v[i].command@,
            25,
        )
        &&& text::byte_len(v[i].command@) > 25 ==> t[at + 4].0 == text::left_aligned(
            first_bytes(v[i].command@, 22) + "..."@,
            25,
        )
        &&& t[at + 6].0 == v[i].savings@
        &&& t[at + 8].0 == v[i].saved@
        &&& t[at + 9].0 == ")\n"@
    }) by {
        let row = recent_line(v[i]);
        style::lemma_holds_around(top, all, below, 10 * i, row);
        let cut = t.subrange(4 + 10 * i, 4 + 10 * i + 10);
        assert(cut == row);
        assert(cut[0] == t[4 + 10 * i] && cut[2] == t[4 + 10 * i + 2] && cut[4] == t[4 + 10 * i + 4]
            && cut[6] == t[4 + 10 * i + 6] && cut[8] == t[4 + 10 * i + 8] && cut[9] == t[4 + 10 * i
            + 9]);
    }
}

proof fn lemma_category_rows(stats: Seq<CategoryStats>, cells: Seq<SavingsCell>, n: int)
    requires
        0 <= n <= stats.len(),
    ensures
        category_rows(stats, cells, n).len() == 13 * n,
        forall|i: int|
            #![trigger order::ranking(coverage::saved_counts(stats), stats.len() as int)[i]]
            0 <= i < n ==> ({
                let at = order::ranking(
                    coverage::saved_counts(stats),
                    stats.len() as int,
                )[i] as int;
                style::holds(
                    category_rows(stats, cells, n),
                    13 * i,
                    category_row(stats[at], cells[at]),
                )
            }),
    decreases n,
{
    if n > 0 {
        lemma_category_rows(stats, cells, n - 1);
        let r = order::ranking(coverage::saved_counts(stats), stats.len() as int);
        let before = category_rows(stats, cells, n - 1);
        let now = category_rows(stats, cells, n);
        let last = r[n - 1] as int;
        assert(category_row(stats[last], cells[last]).len() == 13);
        assert forall|i: int|
            #![trigger order::ranking(coverage::saved_counts(stats), stats.len() as int)[i]]
            0 <= i < n implies ({
            let at = order::ranking(coverage::saved_counts(stats), stats.len() as int)[i] as int;
            style::holds(now, 13 * i, category_row(stats[at], cells[at]))
        }) by {
            let at = r[i] as int;
            let row = category_row(stats[at], cells[at]);
            assert(row.len() == 13);
            if i < n - 1 {
                assert(style::holds(before, 13 * i, row));
                assert(now.subrange(13 * i, 13 * i + 13) =~= before.subrange(13 * i, 13 * i + 13));
            } else {
                assert(now.subrange(13 * i, 13 * i + 13) =~= row);
            }
        }
    }
}

/// The pieces from `at` on are those of the row of a category.
pub open spec fn shows_category(
    t: Seq<style::Piece>,
    at: int,
    s: CategoryStats,
    cell: SavingsCell,
) -> bool {
    &&& t[at + 1].0 == text::left_aligned(s.category@, 20)
    &&& ends_cell(
        t[at + 3].0,
        number::decimal(s.used as nat) + " / "@ + number::decimal(s.available as nat),
    )
    &&& ends_cell(t[at + 5].0, number::decimal(s.count as nat))
    &&& s.saved > 0 ==> ends_cell(t[at + 7].0, cell.saved@)
    &&& s.saved == 0 ==> ends_cell(t[at + 7].0, "0"@)
    &&& s.count > 0 ==> t[at + 9].0 == cell.savings.text@
    &&& t[at + 11].0 == unused_text(text::literals(s.unused@))
    &&& t[at + 12].0 == "\n"@
}

proof fn lemma_category_shown(
    t: Seq<style::Piece>,
    at: int,
    s: CategoryStats,
    cell: SavingsCell,
)
    requires
        style::holds(t, at, category_row(s, cell)),
    ensures
        shows_category(t, at, s, cell),
{
    let row = category_row(s, cell);
    assert(row.len() == 13);
    let cut = t.subrange(at, at + 13);
    assert(cut == row);
    assert(cut[1] == t[at + 1] && cut[3] == t[at + 3] && cut[5] == t[at + 5] && cut[7] == t[at + 7]
        && cut[9] == t[at + 9] && cut[11] == t[at + 11] && cut[12] == t[at + 12]);
    lemma_ends_cell(ratio(s.used as nat, s.available as nat), 10);
    lemma_ends_cell(number::decimal(s.count as nat), 5);
    lemma_ends_cell(cell.saved@, 8);
    lemma_ends_cell("0"@, 8);
}

/// The table of categories has a row for each category, from the one that saved most to the one
/// that saved least, and the sums over all below them. At position `k` stands the category
/// `at[k]`.
pub proof fn lemma_coverage_table(
    stats: Seq<CategoryStats>,
    cells: Seq<SavingsCell>,
    t: Totals,
    all: SavingsCell,
) -> (at: Seq<int>)
    requires
        cells.len() == stats.len(),
        stats.len() <= usize::MAX,
    ensures
        ({
            let p = coverage_table(stats, cells, t, all);
            let n = stats.len() as int;
            let end = 17 + 13 * n;
            &&& at.len() == n
            &&& at.no_duplicates()
            &&& forall|i: int| 0 <= i < n ==> 0 <= #[trigger] at[i] < n
            &&& forall|i: int, j: int|
                0 <= i < j < n ==> stats[#[trigger] at[i]].saved >= stats[#[trigger] at[j]].saved
            &&& forall|i: int|
                #![trigger at[i]]
                0 <= i < n ==> shows_category(p, 17 + 13 * i, stats[at[i]], cells[at[i]])
            &&& p[end + 5].0 == text::right_aligned(
                number::decimal(t.used as nat) + " / "@ + number::decimal(t.available as nat)
                    + " used"@,
                10,
            )
            &&& ends_cell(p[end + 7].0, number::decimal(t.count as nat))
            &&& ends_cell(p[end + 9].0, all.saved@)
            &&& p[end + 11].0 == all.savings.text@
        }),
{
    let n = stats.len() as int;
    let by = coverage::saved_counts(stats);
    let r = order::ranking(by, n);
    let at = Seq::new(r.len(), |i: int| r[i] as int);
    let top = coverage_heading(t);
    let rows = category_rows(stats, cells, n);
    let below = coverage_end(t, all);
    let p = coverage_table(stats, cells, t, all);
    order::lemma_ranking(by, n);
    lemma_category_rows(stats, cells, n);
    assert(top.len() == 17);
    assert forall|i: int|
        #![trigger at[i]]
        0 <= i < n implies shows_category(p, 17 + 13 * i, stats[at[i]], cells[at[i]]) by {
        assert(at[i] == r[i] as int);
        let row = category_row(stats[at[i]], cells[at[i]]);
        style::lemma_holds_around(top, rows, below, 13 * i, row);
        lemma_category_shown(p, 17 + 13 * i, stats[at[i]], cells[at[i]]);
    }
    assert forall|i: int, j: int| 0 <= i < j < n implies stats[#[trigger] at[i]].saved
        >= stats[#[trigger] at[j]].saved by {
        assert(by[r[i] as int] >= by[r[j] as int]);
    }
    assert forall|i: int, j: int| 0 <= i < n && 0 <= j < n && i != j implies at[i] != at[j] by {
        if i < j {
            assert(r[i] != r[j]);
        } else {
            assert(r[j] != r[i]);
        }
    }
    let end = 17 + 13 * n;
    assert(p[end + 5] == below[5] && p[end + 7] == below[7] && p[end + 9] == below[9] && p[end + 11]
        == below[11]);
    lemma_ends_cell(number::decimal(t.count as nat), 5);
    lemma_ends_cell(all.saved@, 8);
    at
}

/// The unused commands of a category are all named, or the first two of them with how many
/// there are besides.
pub proof fn lemma_unused(unused: Seq<Seq<char>>)
    ensures
        unused.len() == 1 ==> unused_text(unused) == unused[0],
        unused.len() == 2 ==> unused_text(unused) == unused[0] + ", "@ + unused[1],
        unused.len() == 3 ==> unused_text(unused) == unused[0] + ", "@ + unused[1] + ", "@
            + unused[2],
        unused.len() > 3 ==> unused_text(unused) == unused[0] + ", "@ + unused[1] + ", "@
            + number::decimal((unused.len() - 2) as nat) + "..."@,
{
    let sep = ", "@;
    if unused.len() >= 1 {
        let one = seq![unused[0]];
        text::lemma_join_adds(one, one, unused[0], sep);
        assert(unused.take(1) =~= one);
        if unused.len() >= 2 {
            text::lemma_join_adds(one, seq![unused[1]], unused[1], sep);
            assert(unused.take(2) =~= one + seq![unused[1]]);
            if unused.len() >= 3 {
                text::lemma_join_adds(unused.take(2), seq![unused[2]], unused[2], sep);
                assert(unused.take(3) =~= unused.take(2) + seq![unused[2]]);
            }
        }
    }
    if unused.len() <= 3 {
        assert(unused.take(unused.len() as int) =~= unused);
    }
}

/// The routes are all counted, the cache and the rest only where there is something to count.
pub proof fn lemma_routing_table(dedicated: nat, proxy: nat, other: nat, cache_hits: nat)
    ensures
        ({
            let t = routing_table(dedicated, proxy, other, cache_hits);
            let cached: int = if cache_hits > 0 {
                3
            } else {
                0
            };
            let rest: int = if other > 0 {
                3
            } else {
                0
            };
            &&& t.len() == 10 + cached + rest + 3
            &&& ends_cell(t[5].0, number::decimal(dedicated))
            &&& ends_cell(t[8].0, number::decimal(proxy))
            &&& cache_hits > 0 ==> ends_cell(t[11].0, number::decimal(cache_hits))
            &&& other > 0 ==> ends_cell(t[11 + cached].0, number::decimal(other))
        }),
{
    lemma_ends_cell(number::decimal(dedicated), 6);
    lemma_ends_cell(number::decimal(proxy), 6);
    lemma_ends_cell(number::decimal(cache_hits), 6);
    lemma_ends_cell(number::decimal(other), 6);
}

/// The sums over all commands each stand behind their label, the saved tokens and the time with
/// their average, and the meter has as many full characters as it is given, of 24.
pub proof fn lemma_overview(o: Overview)
    requires
        o.meter <= 24,
    ensures
        ({
            let t = overview(o);
            &&& t.len() == 26
            &&& t[2].0 == number::decimal(o.total_commands as nat)
            &&& t[6].0 == o.input_tokens@
            &&& t[10].0 == o.output_tokens@
            &&& t[14].0 == o.saved_tokens@ + " ("@ + o.savings.text@ + ")"@
            &&& t[18].0 == o.total_time@ + " (avg "@ + o.average_time@ + ")"@
            &&& t[21].0.len() == 24
            &&& forall|i: int|
                0 <= i < 24 ==> #[trigger] t[21].0[i] == if i < o.meter {
                    '\u{2588}'
                } else {
                    '\u{2591}'
                }
            &&& t[23].0 == o.savings.text@
        }),
{
}

/// The savings are shown by what they are, and only if there were any hits.
pub proof fn lemma_cache_table(hits: nat, tokens: Seq<char>, rate: Seq<char>)
    ensures
        cache_table(hits, tokens, rate).len() > 0 <==> hits > 0,
        hits > 0 ==> {
            let t = cache_table(hits, tokens, rate);
            &&& t[6].0 == number::decimal(hits)
            &&& t[10].0 == tokens
            &&& t[14].0 == rate
        },
{
}

/// The quota names the subscription, its estimated tokens, what was saved, and the share that was
/// preserved, in this order.
pub proof fn lemma_quota_table(
    name: Seq<char>,
    quota: Seq<char>,
    saved: Seq<char>,
    preserved: Seq<char>,
)
    ensures
        ({
            let t = quota_table(name, quota, saved, preserved);
            &&& t[6].0 == name
            &&& t[10].0 == quota
            &&& t[14].0 == saved
            &&& t[18].0 == preserved
        }),
{
}

/// A percentage has the same paint wherever it is shown, more never has a lower paint than less,
/// and high savings have the sign of high savings.
pub proof fn lemma_percent_paint(floor: i64, more: i64)
    requires
        0 <= floor <= more,
    ensures
        percent_paint(floor) == style::tier(floor as nat),
        percent_paint(floor) == Paint::High ==> percent_paint(more) == Paint::High,
        percent_paint(more) == Paint::Low ==> percent_paint(floor) == Paint::Low,
        percent_paint(floor) == Paint::High <==> savings_sign(floor) == "\u{25b2}"@,
{
    reveal_strlit("\u{25b2}");
    reveal_strlit("\u{25a0}");
    reveal_strlit("\u{2022}");
    assert("\u{25b2}"@[0] != "\u{25a0}"@[0] && "\u{25b2}"@[0] != "\u{2022}"@[0]);
}

/// The title tells whether the report is on one project, and names its path.
pub proof fn lemma_title(path: Seq<char>)
    ensures
        title(None).len() == 5,
        title(None)[0].0 == "RTK Token Savings (Global Scope)"@,
        title(Some(path)).len() == 8,
        title(Some(path))[0].0 == "RTK Token Savings (Project Scope)"@,
        title(Some(path))[4].0 == "Scope: "@,
        title(Some(path))[5].0 == path,
{
}

/// Savings have the lowest sign if and only if they are below thirty percent.
pub proof fn lemma_savings_sign(floor: i64)
    ensures
        savings_sign(floor) == "\u{2022}"@ <==> floor < 30,
{
    reveal_strlit("\u{25b2}");
    reveal_strlit("\u{25a0}");
    reveal_strlit("\u{2022}");
    assert("\u{2022}"@[0] != "\u{25a0}"@[0] && "\u{25b2}"@[0] != "\u{2022}"@[0]);
}

}
