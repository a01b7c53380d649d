//! The report on missed savings.

use vstd::prelude::*;

use crate::number;
use crate::number::{decimal_of, decimal_wide, one_decimal_of, to_double};
use crate::style;
use crate::style::{render, say, say_plain, Paint, Span};
use crate::text;
use crate::text::{
    align_left, align_right, chars_of, copy, count_before, count_bytes, extend, extend_str, joined,
    repeated, slice, string_of, texts_of,
};

verus! {

/// How well a command is supported.
#[derive(Clone, Copy, Debug, PartialEq, Eq, Structural)]
pub enum RtkStatus {
    /// Dedicated handler with filtering.
    Existing,
    /// Handed through without filtering.
    Passthrough,
    /// Not handled at all.
    NotSupported,
}

/// The name of a status in reports.
pub open spec fn status_name(status: RtkStatus) -> Seq<char> {
    match status {
        RtkStatus::Existing => "existing"@,
        RtkStatus::Passthrough => "passthrough"@,
        RtkStatus::NotSupported => "not-supported"@,
    }
}

impl RtkStatus {
    /// The name of the status in reports.
    pub fn as_str(&self) -> (r: &'static str)
        ensures
            r@ == status_name(*self),
    {
        match self {
            RtkStatus::Existing => "existing",
            RtkStatus::Passthrough => "passthrough",
            RtkStatus::NotSupported => "not-supported",
        }
    }
}

/// A supported command that was run without the filter.
#[derive(Debug)]
pub struct SupportedEntry {
    pub command: String,
    pub count: usize,
    pub rtk_equivalent: &'static str,
    pub category: &'static str,
    pub estimated_savings_tokens: usize,
    /// The estimated savings in percent, as the bits of a double.
    pub estimated_savings_pct_bits: u64,
    pub rtk_status: RtkStatus,
}

/// A command that is not supported.
#[derive(Debug)]
pub struct UnsupportedEntry {
    pub base_command: String,
    pub count: usize,
    pub example: String,
}

/// How the output of a command is handled.
#[derive(Clone, Copy, Debug, PartialEq, Eq, Structural)]
pub enum RtkHandling {
    /// Dedicated filter with token savings.
    Filtered,
    /// Handed through without filtering.
    Passthrough,
    /// Not handled at all.
    Unhandled,
}

/// A command ranked by the output tokens that it consumed.
#[derive(Debug)]
pub struct TokenConsumer {
    pub command: String,
    pub count: usize,
    pub total_tokens: usize,
    pub avg_tokens: usize,
    pub rtk_handling: RtkHandling,
}

/// Full report.
#[derive(Debug)]
pub struct DiscoverReport {
    pub sessions_scanned: usize,
    pub total_commands: usize,
    pub already_rtk: usize,
    pub since_days: u64,
    pub supported: Vec<SupportedEntry>,
    pub unsupported: Vec<UnsupportedEntry>,
    pub consumers: Vec<TokenConsumer>,
    pub parse_errors: usize,
    pub rtk_disabled_count: usize,
    pub rtk_disabled_examples: Vec<String>,
}

/// The estimated savings of each entry.
pub open spec fn savings(s: Seq<SupportedEntry>) -> Seq<usize> {
    Seq::new(s.len(), |i: int| s[i].estimated_savings_tokens)
}

/// The count of each supported entry.
pub open spec fn supported_counts(s: Seq<SupportedEntry>) -> Seq<usize> {
    Seq::new(s.len(), |i: int| s[i].count)
}

/// The count of each unsupported entry.
pub open spec fn unsupported_counts(s: Seq<UnsupportedEntry>) -> Seq<usize> {
    Seq::new(s.len(), |i: int| s[i].count)
}

impl DiscoverReport {
    /// The estimated savings of all supported entries.
    pub open spec fn saveable(&self) -> nat {
        number::total(savings(self.supported@))
    }

    /// The number of runs of all supported commands.
    pub open spec fn supported_runs(&self) -> nat {
        number::total(supported_counts(self.supported@))
    }

    /// The number of runs of all unsupported commands.
    pub open spec fn unsupported_runs(&self) -> nat {
        number::total(unsupported_counts(self.unsupported@))
    }

    fn savings_list(&self) -> (r: Vec<usize>)
        ensures
            r@ == savings(self.supported@),
    {
        let mut r: Vec<usize> = Vec::new();
        let mut i: usize = 0;
        while i < self.supported.len()
            invariant
                i <= self.supported.len(),
                r@ =~= savings(self.supported@).take(i as int),
            decreases self.supported.len() - i,
        {
            r.push(self.supported[i].estimated_savings_tokens);
            i += 1;
        }
        assert(r@ =~= savings(self.supported@));
        r
    }

    fn supported_count_list(&self) -> (r: Vec<usize>)
        ensures
            r@ == supported_counts(self.supported@),
    {
        let mut r: Vec<usize> = Vec::new();
        let mut i: usize = 0;
        while i < self.supported.len()
            invariant
                i <= self.supported.len(),
                r@ =~= supported_counts(self.supported@).take(i as int),
            decreases self.supported.len() - i,
        {
            r.push(self.supported[i].count);
            i += 1;
        }
        assert(r@ =~= supported_counts(self.supported@));
        r
    }

    fn unsupported_count_list(&self) -> (r: Vec<usize>)
        ensures
            r@ == unsupported_counts(self.unsupported@),
    {
        let mut r: Vec<usize> = Vec::new();
        let mut i: usize = 0;
        while i < self.unsupported.len()
            invariant
                i <= self.unsupported.len(),
                r@ =~= unsupported_counts(self.unsupported@).take(i as int),
            decreases self.unsupported.len() - i,
        {
            r.push(self.unsupported[i].count);
            i += 1;
        }
        assert(r@ =~= unsupported_counts(self.unsupported@));
        r
    }

    /// The estimated savings of all supported entries.
    pub fn total_saveable_tokens(&self) -> (r: usize)
        requires
            self.saveable() <= usize::MAX,
        ensures
            r == self.saveable(),
    {
        number::add_up(&self.savings_list()).unwrap()
    }

    /// The number of runs of all supported commands.
    pub fn total_supported_count(&self) -> (r: usize)
        requires
            self.supported_runs() <= usize::MAX,
        ensures
            r == self.supported_runs(),
    {
        number::add_up(&self.supported_count_list()).unwrap()
    }

    /// Total saveable tokens across all supported commands.
    pub fn grand_total_tokens(&self) -> (r: usize)
        requires
            self.saveable() <= usize::MAX,
        ensures
            r == self.saveable(),
    {
        self.total_saveable_tokens()
    }
}

/// A number of tokens, in thousands or millions with one decimal place where it is large.
pub open spec fn token_text(tokens: nat) -> Seq<char> {
    if tokens >= 1_000_000 {
        number::one_decimal(tokens, 1_000_000) + "M tokens"@
    } else if tokens >= 1_000 {
        number::one_decimal(tokens, 1_000) + "K tokens"@
    } else {
        number::decimal(tokens) + " tokens"@
    }
}

fn tokens_of(tokens: usize) -> (r: Vec<char>)
    ensures
        r@ == token_text(tokens as nat),
        r.len() <= 100,
{
    proof {
        reveal_strlit("M tokens");
        reveal_strlit("K tokens");
        reveal_strlit(" tokens");
        assert("M tokens"@.len() == 8 && "K tokens"@.len() == 8 && " tokens"@.len() == 7);
    }
    if tokens >= 1_000_000 {
        let mut r = one_decimal_of(tokens as u64, 1_000_000);
        extend_str(&mut r, "M tokens");
        r
    } else if tokens >= 1_000 {
        let mut r = one_decimal_of(tokens as u64, 1_000);
        extend_str(&mut r, "K tokens");
        r
    } else {
        let mut r = decimal_of(tokens);
        extend_str(&mut r, " tokens");
        r
    }
}

/// Formats a number of tokens.
pub fn format_tokens(tokens: usize) -> (r: String)
    ensures
        r@ == token_text(tokens as nat),
{
    string_of(&tokens_of(tokens))
}

/// `s`, or if it has more than `max` bytes, its beginning and two dots.
pub open spec fn truncated(s: Seq<char>, max: nat) -> Seq<char> {
    if text::byte_len(s) <= max {
        s
    } else {
        s.take(
            text::cut(
                s,
                if max >= 2 {
                    (max - 2) as nat
                } else {
                    0
                },
            ),
        ) + ".."@
    }
}

fn truncate_text(s: &Vec<char>, max: usize) -> (r: Vec<char>)
    ensures
        r@ == truncated(s@, max as nat),
{
    if count_bytes(s) <= max as u128 {
        return copy(s);
    }
    let limit: usize = if max >= 2 {
        max - 2
    } else {
        0
    };
    let k = count_before(s, limit);
    let mut r = slice(s, 0, k);
    assert(s@.subrange(0, k as int) =~= s@.take(k as int));
    extend_str(&mut r, "..");
    r
}

/// Truncates a string to about `max` bytes, never inside a character.
pub fn truncate_str(s: &str, max: usize) -> (r: String)
    ensures
        r@ == truncated(s@, max as nat),
{
    string_of(&truncate_text(&chars_of(s), max))
}

/// The number of characters of `s` that get a style in a column of `width`: all of them, or
/// as many as fill `width` bytes.
pub open spec fn styled_len(s: Seq<char>, width: nat) -> int {
    if text::byte_len(s) <= width {
        s.len() as int
    } else {
        text::cut(s, width)
    }
}

/// A character of `s` ends where the column of `width` bytes does, or `s` is shorter.
pub open spec fn splits(s: Seq<char>, width: nat) -> bool {
    text::byte_len(s) <= width || text::byte_len(s.take(text::cut(s, width))) == width
}

/// What gets a style in a left-aligned column.
pub open spec fn styled_part(s: Seq<char>, width: nat) -> Seq<char> {
    s.take(styled_len(s, width))
}

/// What follows it in the column.
pub open spec fn trailing_part(s: Seq<char>, width: nat) -> Seq<char> {
    text::left_aligned(s, width).skip(styled_len(s, width))
}

/// The spaces before a right-aligned text.
pub open spec fn leading_part(s: Seq<char>, width: nat) -> Seq<char> {
    if text::byte_len(s) < width {
        text::repeat(' ', (width - text::byte_len(s)) as nat)
    } else {
        Seq::empty()
    }
}

/// Tells whether a text can be split at the end of its column.
fn can_split(s: &Vec<char>, width: usize) -> (r: bool)
    ensures
        r == splits(s@, width as nat),
{
    if count_bytes(s) <= width as u128 {
        return true;
    }
    let k = count_before(s, width);
    let start = slice(s, 0, k);
    assert(s@.subrange(0, k as int) =~= s@.take(k as int));
    count_bytes(&start) == width as u128
}

/// Splits a left-aligned text into what gets a style and what follows.
fn split_column(s: &Vec<char>, width: usize) -> (r: (Vec<char>, Vec<char>))
    ensures
        r.0@ == styled_part(s@, width as nat),
        r.1@ == trailing_part(s@, width as nat),
{
    let k: usize = if count_bytes(s) <= width as u128 {
        s.len()
    } else {
        count_before(s, width)
    };
    let padded = align_left(s, width);
    assert(s@.subrange(0, k as int) =~= s@.take(k as int));
    assert(padded@.subrange(k as int, padded@.len() as int) =~= padded@.skip(k as int));
    (slice(s, 0, k), slice(&padded, k, padded.len()))
}

fn padding(s: &Vec<char>, width: usize) -> (r: Vec<char>)
    ensures
        r@ == leading_part(s@, width as nat),
{
    let n = count_bytes(s);
    if n < width as u128 {
        repeated(' ', (width as u128 - n) as usize)
    } else {
        Vec::new()
    }
}

/// Pads a text to `width` on the right, and styles only the text itself, so that the columns
/// align whatever escape sequences the style adds.
pub fn pad_right<F: Fn(&str) -> String>(s: &str, width: usize, styler: F) -> (r: String)
    requires
        splits(s@, width as nat),
        forall|part: &str|
            part@ == styled_part(s@, width as nat) ==> #[trigger] styler.requires((part,)),
    ensures
        exists|part: &str, styled: String|
            part@ == styled_part(s@, width as nat) && #[trigger] styler.ensures((part,), styled)
                && r@ == styled@ + trailing_part(s@, width as nat),
{
    let (visible, trailing) = split_column(&chars_of(s), width);
    let part = string_of(&visible);
    let part_str = part.as_str();
    let styled = styler(part_str);
    let mut out = chars_of(styled.as_str());
    extend(&mut out, &trailing);
    assert(styler.ensures((part_str,), styled));
    string_of(&out)
}

/// Pads a text to `width` on the left, and styles only the text itself.
pub fn pad_left<F: Fn(&str) -> String>(s: &str, width: usize, styler: F) -> (r: String)
    requires
        styler.requires((s,)),
    ensures
        exists|styled: String|
            #[trigger] styler.ensures((s,), styled) && r@ == leading_part(s@, width as nat)
                + styled@,
{
    let mut out = padding(&chars_of(s), width);
    let styled = styler(s);
    extend_str(&mut out, styled.as_str());
    assert(styler.ensures((s,), styled));
    string_of(&out)
}

/// The share of the commands that went through the filter, in whole percent.
pub open spec fn adoption(report: DiscoverReport) -> nat {
    if report.total_commands > 0 {
        (report.already_rtk as nat * 100) / report.total_commands as nat
    } else {
        0
    }
}

/// A text of `n` characters `c`, as a heading.
pub open spec fn rule(c: char, n: nat) -> style::Piece {
    (text::repeat(c, n), Paint::Heading)
}

/// A text as it is.
pub open spec fn plainly(s: Seq<char>) -> style::Piece {
    (s, Paint::Plain)
}

/// A number in the paint of token counts.
pub open spec fn number_cell(n: nat) -> style::Piece {
    (number::decimal(n), Paint::Tokens)
}

/// The head of the report.
pub open spec fn head(report: DiscoverReport) -> Seq<style::Piece> {
    seq![
        ("RTK Discover -- Savings Opportunities"@, Paint::Heading),
        plainly("\n"@),
        rule('=', 52),
        plainly("\n"@),
        plainly("Scanned: "@),
        number_cell(report.sessions_scanned as nat),
        plainly(" sessions (last "@),
        plainly(number::decimal(report.since_days as nat)),
        plainly(" days), "@),
        number_cell(report.total_commands as nat),
        plainly(" Bash commands\n"@),
        plainly("Already using RTK: "@),
        number_cell(report.already_rtk as nat),
        plainly(" commands ("@),
        (
            number::decimal(number::nearest_double(adoption(report))) + "%"@,
            style::tier(adoption(report)),
        ),
        plainly(")\n"@),
    ]
}

/// How many of `n` entries are shown.
pub open spec fn shown(n: nat, limit: nat) -> int {
    if n < limit {
        n as int
    } else {
        limit as int
    }
}

/// The row of a supported command.
pub open spec fn missed_row(e: SupportedEntry) -> Seq<style::Piece> {
    let command = truncated(e.command@, 23);
    let tokens = token_text(e.estimated_savings_tokens as nat);
    seq![
        (styled_part(command, 24), Paint::Command),
        plainly(trailing_part(command, 24)),
        plainly(" "@),
        plainly(text::right_aligned(number::decimal(e.count as nat), 5)),
        plainly("    "@),
        (styled_part(e.rtk_equivalent@, 18), Paint::Command),
        plainly(trailing_part(e.rtk_equivalent@, 18)),
        plainly(" "@),
        plainly(text::left_aligned(status_name(e.rtk_status), 13)),
        plainly(" ~"@),
        plainly(leading_part(tokens, 12)),
        (tokens, Paint::Tokens),
        plainly("\n"@),
    ]
}

/// The rows of the first `n` supported commands.
pub open spec fn missed_rows(entries: Seq<SupportedEntry>, n: int) -> Seq<style::Piece>
    decreases n,
{
    if n <= 0 {
        Seq::empty()
    } else {
        missed_rows(entries, n - 1) + missed_row(entries[n - 1])
    }
}

/// The heading of the table of missed savings.
pub open spec fn missed_heading() -> Seq<style::Piece> {
    seq![
        plainly("\n"@),
        ("MISSED SAVINGS -- Commands RTK already handles"@, Paint::Heading),
        plainly("\n"@),
        rule('-', 72),
        plainly("\n"@),
        plainly(text::left_aligned("Command"@, 24)),
        plainly(" "@),
        plainly(text::right_aligned("Count"@, 5)),
        plainly("    "@),
        plainly(text::left_aligned("RTK Equivalent"@, 18)),
        plainly(" "@),
        plainly(text::left_aligned("Status"@, 13)),
        plainly(" "@),
        plainly(text::right_aligned("Est. Savings"@, 12)),
        plainly("\n"@),
    ]
}

/// The end of the table of missed savings.
pub open spec fn missed_total(runs: nat, tokens: nat) -> Seq<style::Piece> {
    seq![
        rule('-', 72),
        plainly("\n"@),
        plainly("Total: "@),
        number_cell(runs),
        plainly(" commands -> ~"@),
        (token_text(tokens), Paint::Tokens),
        plainly(" saveable\n"@),
    ]
}

/// The table of missed savings, if there are any.
pub open spec fn missed_section(report: DiscoverReport, limit: nat) -> Seq<style::Piece> {
    if report.supported@.len() == 0 {
        Seq::empty()
    } else {
        missed_heading() + missed_rows(
            report.supported@,
            shown(report.supported@.len(), limit),
        ) + missed_total(report.supported_runs(), report.saveable())
    }
}

/// What all supported commands could save, if that is anything.
pub open spec fn saveable_section(tokens: nat) -> Seq<style::Piece> {
    if tokens > 0 {
        seq![
            plainly("\n"@),
            ("TOTAL SAVEABLE"@, Paint::Heading),
            plainly(": ~"@),
            (token_text(tokens), Paint::Tokens),
            plainly("\n"@),
        ]
    } else {
        Seq::empty()
    }
}

/// The widths of the columns of the table of consumers: count, total and average.
pub open spec fn consumer_widths(c: Seq<TokenConsumer>, n: int) -> (nat, nat, nat) {
    (
        number::widest(Seq::new(c.len(), |i: int| number::decimal(c[i].count as nat).len()), n, 5),
        number::widest(Seq::new(c.len(), |i: int| token_text(c[i].total_tokens as nat).len()), n, 5),
        number::widest(Seq::new(c.len(), |i: int| token_text(c[i].avg_tokens as nat).len()), n, 3),
    )
}

/// What the table says of how a command is handled.
pub open spec fn handling_label(h: RtkHandling) -> style::Piece {
    match h {
        RtkHandling::Filtered => ("Yes"@, Paint::Heading),
        RtkHandling::Passthrough => ("Pass"@, Paint::Neutral),
        RtkHandling::Unhandled => ("No"@, Paint::Low),
    }
}

/// The row of the consumer at position `i`.
pub open spec fn consumer_row(c: TokenConsumer, i: nat, w: (nat, nat, nat)) -> Seq<style::Piece> {
    let command = truncated(c.command@, 22);
    let total = token_text(c.total_tokens as nat);
    let average = token_text(c.avg_tokens as nat);
    seq![
        plainly(" "@),
        plainly(text::right_aligned(number::decimal(i + 1), 2)),
        plainly(".  "@),
        (styled_part(command, 22), Paint::Command),
        plainly(trailing_part(command, 22)),
        plainly(" "@),
        plainly(text::right_aligned(number::decimal(c.count as nat), w.0)),
        plainly("  "@),
        plainly(leading_part(total, w.1)),
        (total, Paint::Tokens),
        plainly("  "@),
        plainly(leading_part(average, w.2)),
        (average, Paint::Tokens),
        plainly("   "@),
        handling_label(c.rtk_handling),
        plainly("\n"@),
    ]
}

/// The rows of the first `n` consumers.
pub open spec fn consumer_rows(c: Seq<TokenConsumer>, n: int, w: (nat, nat, nat)) -> Seq<
    style::Piece,
>
    decreases n,
{
    if n <= 0 {
        Seq::empty()
    } else {
        consumer_rows(c, n - 1, w) + consumer_row(c[n - 1], (n - 1) as nat, w)
    }
}

/// The width of the table of consumers.
pub open spec fn consumer_table_width(w: (nat, nat, nat)) -> nat {
    4 + 22 + 2 + w.0 + 2 + w.1 + 2 + w.2 + 3 + 4
}

/// The heading of the table of consumers.
pub open spec fn consumer_heading(w: (nat, nat, nat)) -> Seq<style::Piece> {
    seq![
        plainly("\n"@),
        ("TOP TOKEN CONSUMERS (by output size)"@, Paint::Heading),
        plainly("\n"@),
        rule('\u{2500}', consumer_table_width(w)),
        plainly("\n"@),
        plainly("  "@),
        plainly(text::left_aligned("#"@, 3)),
        plainly(" "@),
        plainly(text::left_aligned("Command"@, 22)),
        plainly(" "@),
        plainly(text::right_aligned("Count"@, w.0)),
        plainly("  "@),
        plainly(text::right_aligned("Total"@, w.1)),
        plainly("  "@),
        plainly(text::right_aligned("Avg"@, w.2)),
        plainly("   "@),
        plainly("RTK?"@),
        plainly("\n"@),
        rule('\u{2500}', consumer_table_width(w)),
        plainly("\n"@),
    ]
}

/// The end of the table of consumers.
pub open spec fn consumer_end(unhandled: bool, w: (nat, nat, nat)) -> Seq<style::Piece> {
    let end = seq![rule('\u{2500}', consumer_table_width(w)), plainly("\n"@)];
    if unhandled {
        end.push(
            plainly(
                "  RTK?=No: not yet filtered. Request support:\n  -> github.com/rtk-ai/rtk/issues\n"@,
            ),
        )
    } else {
        end
    }
}

/// One of the first `n` consumers is not handled at all.
pub open spec fn any_unhandled(c: Seq<TokenConsumer>, n: int) -> bool {
    exists|i: int| 0 <= i < n && #[trigger] c[i].rtk_handling == RtkHandling::Unhandled
}

/// The table of consumers, if there are any.
pub open spec fn consumer_section(c: Seq<TokenConsumer>, limit: nat) -> Seq<style::Piece> {
    if c.len() == 0 {
        Seq::empty()
    } else {
        let n = shown(c.len(), limit);
        let w = consumer_widths(c, n);
        consumer_heading(w) + consumer_rows(c, n, w) + consumer_end(any_unhandled(c, n), w)
    }
}

/// The row of an unsupported command.
pub open spec fn unhandled_row(e: UnsupportedEntry) -> Seq<style::Piece> {
    let command = truncated(e.base_command@, 23);
    seq![
        (styled_part(command, 24), Paint::Command),
        plainly(trailing_part(command, 24)),
        plainly(" "@),
        plainly(text::right_aligned(number::decimal(e.count as nat), 5)),
        plainly("    "@),
        plainly(truncated(e.example@, 40)),
        plainly("\n"@),
    ]
}

/// The rows of the first `n` unsupported commands.
pub open spec fn unhandled_rows(entries: Seq<UnsupportedEntry>, n: int) -> Seq<style::Piece>
    decreases n,
{
    if n <= 0 {
        Seq::empty()
    } else {
        unhandled_rows(entries, n - 1) + unhandled_row(entries[n - 1])
    }
}

/// The heading of the table of unsupported commands.
pub open spec fn unhandled_heading() -> Seq<style::Piece> {
    seq![
        plainly("\n"@),
        ("TOP UNHANDLED COMMANDS -- open an issue?"@, Paint::Heading),
        plainly("\n"@),
        rule('-', 52),
        plainly("\n"@),
        plainly(text::left_aligned("Command"@, 24)),
        plainly(" "@),
        plainly(text::right_aligned("Count"@, 5)),
        plainly("    "@),
        plainly("Example"@),
        plainly("\n"@),
    ]
}

/// The end of the table of unsupported commands.
pub open spec fn unhandled_total(unique: nat, runs: nat) -> Seq<style::Piece> {
    seq![
        rule('-', 52),
        plainly("\n"@),
        plainly("Total: "@),
        number_cell(unique),
        plainly(" unique commands, "@),
        number_cell(runs),
        plainly(" occurrences\n"@),
        plainly("-> github.com/rtk-ai/rtk/issues\n"@),
    ]
}

/// The table of unsupported commands, if there are any.
pub open spec fn unhandled_section(report: DiscoverReport, limit: nat) -> Seq<style::Piece> {
    if report.unsupported@.len() == 0 {
        Seq::empty()
    } else {
        unhandled_heading() + unhandled_rows(
            report.unsupported@,
            shown(report.unsupported@.len(), limit),
        ) + unhandled_total(report.unsupported@.len(), report.unsupported_runs())
    }
}

/// The warning about commands that bypassed the filter, if there are any.
pub open spec fn bypass_section(count: nat, examples: Seq<Seq<char>>) -> Seq<style::Piece> {
    if count == 0 {
        Seq::empty()
    } else {
        seq![
            plainly("\nRTK_DISABLED BYPASS -- "@),
            plainly(number::decimal(count)),
            plainly(" commands ran without filtering\n"@),
            plainly(text::repeat('-', 72)),
            plainly("\n"@),
            plainly("These commands used RTK_DISABLED=1 unnecessarily:\n"@),
        ] + (if examples.len() == 0 {
            Seq::empty()
        } else {
            seq![plainly("  "@), plainly(text::join(examples, ", "@)), plainly("\n"@)]
        }) + seq![plainly("-> Remove RTK_DISABLED=1 to recover token savings\n"@)]
    }
}

/// The end of the report.
pub open spec fn foot(parse_errors: nat, verbose: bool) -> Seq<style::Piece> {
    let note = seq![plainly("\n~estimated from tool_result output sizes\n"@)];
    if verbose && parse_errors > 0 {
        note + seq![
            plainly("\nParse errors skipped: "@),
            plainly(number::decimal(parse_errors)),
            plainly("\n"@),
        ]
    } else {
        note
    }
}

/// Nothing was missed.
pub open spec fn is_clean(report: DiscoverReport) -> bool {
    report.supported@.len() == 0 && report.unsupported@.len() == 0
}

/// The whole report.
pub open spec fn sections(report: DiscoverReport, limit: nat, verbose: bool) -> Seq<style::Piece> {
    if is_clean(report) {
        head(report) + seq![plainly("\nNo missed savings found. RTK usage looks good!\n"@)]
    } else {
        head(report) + missed_section(report, limit) + saveable_section(report.saveable())
            + consumer_section(report.consumers@, limit) + unhandled_section(report, limit)
            + bypass_section(
            report.rtk_disabled_count as nat,
            text::strings(report.rtk_disabled_examples@),
        ) + foot(report.parse_errors as nat, verbose)
    }
}

/// The first `n` supported commands have equivalents that end with their column.
pub open spec fn equivalents_split(entries: Seq<SupportedEntry>, n: int) -> bool {
    forall|i: int| 0 <= i < n ==> splits((#[trigger] entries[i]).rtk_equivalent@, 18)
}

/// The first `n` consumers have names that end with their column.
pub open spec fn consumers_split(entries: Seq<TokenConsumer>, n: int) -> bool {
    forall|i: int| 0 <= i < n ==> splits(truncated((#[trigger] entries[i]).command@, 22), 22)
}

/// The report can be written: its sums fit, and no character straddles the end of a column
/// that it overflows.
pub open spec fn is_writable(report: DiscoverReport, limit: nat) -> bool {
    &&& report.total_commands > 0 ==> report.already_rtk * 100 <= usize::MAX
    &&& !is_clean(report) ==> {
        &&& report.saveable() <= usize::MAX
        &&& report.supported_runs() <= usize::MAX
        &&& report.unsupported_runs() <= usize::MAX
        &&& equivalents_split(report.supported@, shown(report.supported@.len(), limit))
        &&& consumers_split(report.consumers@, shown(report.consumers@.len(), limit))
    }
}

/// Appends a number in the paint of token counts.
fn say_number(out: &mut Vec<Span>, n: usize)
    ensures
        style::pieces(final(out)@) == style::pieces(old(out)@).push(number_cell(n as nat)),
{
    say(out, decimal_of(n), Paint::Tokens);
}

/// Appends a text in a left-aligned column, in the paint of commands.
fn say_command(out: &mut Vec<Span>, s: &Vec<char>, width: usize)
    ensures
        style::pieces(final(out)@) == style::pieces(old(out)@).push(
            (styled_part(s@, width as nat), Paint::Command),
        ).push(plainly(trailing_part(s@, width as nat))),
{
    let (visible, trailing) = split_column(s, width);
    say(out, visible, Paint::Command);
    say(out, trailing, Paint::Plain);
}

/// Appends a number of tokens in a right-aligned column.
fn say_tokens(out: &mut Vec<Span>, tokens: usize, width: usize)
    ensures
        style::pieces(final(out)@) == style::pieces(old(out)@).push(
            plainly(leading_part(token_text(tokens as nat), width as nat)),
        ).push((token_text(tokens as nat), Paint::Tokens)),
{
    let text = tokens_of(tokens);
    say(out, padding(&text, width), Paint::Plain);
    say(out, text, Paint::Tokens);
}

/// Appends a heading of `n` characters `c`, and a line break.
fn say_rule(out: &mut Vec<Span>, c: char, n: usize)
    ensures
        style::pieces(final(out)@) == style::pieces(old(out)@).push(rule(c, n as nat)).push(
            plainly("\n"@),
        ),
{
    say(out, repeated(c, n), Paint::Heading);
    say_plain(out, "\n");
}

/// Appends a label in a left-aligned column.
fn say_left(out: &mut Vec<Span>, s: &str, width: usize)
    ensures
        style::pieces(final(out)@) == style::pieces(old(out)@).push(
            plainly(text::left_aligned(s@, width as nat)),
        ),
{
    say(out, align_left(&chars_of(s), width), Paint::Plain);
}

/// Appends a label in a right-aligned column.
fn say_right(out: &mut Vec<Span>, s: &str, width: usize)
    ensures
        style::pieces(final(out)@) == style::pieces(old(out)@).push(
            plainly(text::right_aligned(s@, width as nat)),
        ),
{
    say(out, align_right(&chars_of(s), width), Paint::Plain);
}

/// Appends a number in a right-aligned column.
fn say_count(out: &mut Vec<Span>, n: usize, width: usize)
    ensures
        style::pieces(final(out)@) == style::pieces(old(out)@).push(
            plainly(text::right_aligned(number::decimal(n as nat), width as nat)),
        ),
{
    say(out, align_right(&decimal_of(n), width), Paint::Plain);
}

fn say_head(out: &mut Vec<Span>, report: &DiscoverReport)
    requires
        report.total_commands > 0 ==> report.already_rtk * 100 <= usize::MAX,
    ensures
        style::pieces(final(out)@) == style::pieces(old(out)@) + head(*report),
{
    let ghost before = style::pieces(out@);
    let pct: usize = if report.total_commands > 0 {
        report.already_rtk * 100 / report.total_commands
    } else {
        0
    };
    assert(pct == adoption(*report));
    let paint = if pct >= 70 {
        Paint::High
    } else if pct >= 40 {
        Paint::Middling
    } else {
        Paint::Low
    };
    let mut pct_text = decimal_wide(to_double(pct as u64));
    extend_str(&mut pct_text, "%");
    say(out, chars_of("RTK Discover -- Savings Opportunities"), Paint::Heading);
    say_plain(out, "\n");
    say_rule(out, '=', 52);
    say_plain(out, "Scanned: ");
    say_number(out, report.sessions_scanned);
    say_plain(out, " sessions (last ");
    say(out, decimal_wide(report.since_days as u128), Paint::Plain);
    say_plain(out, " days), ");
    say_number(out, report.total_commands);
    say_plain(out, " Bash commands\n");
    say_plain(out, "Already using RTK: ");
    say_number(out, report.already_rtk);
    say_plain(out, " commands (");
    say(out, pct_text, paint);
    say_plain(out, ")\n");
    assert(style::pieces(out@) =~= before + head(*report));
}

fn say_missed_row(out: &mut Vec<Span>, e: &SupportedEntry)
    ensures
        style::pieces(final(out)@) == style::pieces(old(out)@) + missed_row(*e),
{
    let ghost before = style::pieces(out@);
    say_command(out, &truncate_text(&chars_of(e.command.as_str()), 23), 24);
    say_plain(out, " ");
    say_count(out, e.count, 5);
    say_plain(out, "    ");
    say_command(out, &chars_of(e.rtk_equivalent), 18);
    say_plain(out, " ");
    say_left(out, e.rtk_status.as_str(), 13);
    say_plain(out, " ~");
    say_tokens(out, e.estimated_savings_tokens, 12);
    say_plain(out, "\n");
    assert(style::pieces(out@) =~= before + missed_row(*e));
}

fn say_missed(out: &mut Vec<Span>, report: &DiscoverReport, limit: usize)
    requires
        report.saveable() <= usize::MAX,
        report.supported_runs() <= usize::MAX,
    ensures
        style::pieces(final(out)@) == style::pieces(old(out)@) + missed_section(
            *report,
            limit as nat,
        ),
{
    let ghost before = style::pieces(out@);
    if report.supported.len() == 0 {
        assert(before =~= before + missed_section(*report, limit as nat));
        return;
    }
    say_plain(out, "\n");
    say(out, chars_of("MISSED SAVINGS -- Commands RTK already handles"), Paint::Heading);
    say_plain(out, "\n");
    say_rule(out, '-', 72);
    say_left(out, "Command", 24);
    say_plain(out, " ");
    say_right(out, "Count", 5);
    say_plain(out, "    ");
    say_left(out, "RTK Equivalent", 18);
    say_plain(out, " ");
    say_left(out, "Status", 13);
    say_plain(out, " ");
    say_right(out, "Est. Savings", 12);
    say_plain(out, "\n");
    let ghost heading = before + missed_heading();
    assert(style::pieces(out@) =~= heading);
    let n: usize = if report.supported.len() < limit {
        report.supported.len()
    } else {
        limit
    };
    let mut i: usize = 0;
    assert(heading =~= heading + missed_rows(report.supported@, 0));
    while i < n
        invariant
            i <= n <= report.supported.len(),
            style::pieces(out@) == heading + missed_rows(report.supported@, i as int),
        decreases n - i,
    {
        say_missed_row(out, &report.supported[i]);
        i += 1;
        assert(heading + missed_rows(report.supported@, i - 1) + missed_row(
            report.supported@[i - 1],
        ) =~= heading + missed_rows(report.supported@, i as int));
    }
    let ghost rows = style::pieces(out@);
    say_rule(out, '-', 72);
    say_plain(out, "Total: ");
    say_number(out, report.total_supported_count());
    say_plain(out, " commands -> ~");
    say(out, tokens_of(report.total_saveable_tokens()), Paint::Tokens);
    say_plain(out, " saveable\n");
    assert(style::pieces(out@) =~= rows + missed_total(
        report.supported_runs(),
        report.saveable(),
    ));
    assert(style::pieces(out@) =~= before + missed_section(*report, limit as nat));
}

fn say_saveable(out: &mut Vec<Span>, tokens: usize)
    ensures
        style::pieces(final(out)@) == style::pieces(old(out)@) + saveable_section(tokens as nat),
{
    let ghost before = style::pieces(out@);
    if tokens > 0 {
        say_plain(out, "\n");
        say(out, chars_of("TOTAL SAVEABLE"), Paint::Heading);
        say_plain(out, ": ~");
        say(out, tokens_of(tokens), Paint::Tokens);
        say_plain(out, "\n");
    }
    assert(style::pieces(out@) =~= before + saveable_section(tokens as nat));
}

fn measure_consumers(c: &Vec<TokenConsumer>, n: usize) -> (r: (usize, usize, usize))
    requires
        n <= c.len(),
    ensures
        (r.0 as nat, r.1 as nat, r.2 as nat) == consumer_widths(c@, n as int),
        r.0 <= 100,
        r.1 <= 100,
        r.2 <= 100,
{
    let mut count_w: usize = 5;
    let mut total_w: usize = 5;
    let mut avg_w: usize = 3;
    let mut i: usize = 0;
    while i < n
        invariant
            i <= n <= c.len(),
            (count_w as nat, total_w as nat, avg_w as nat) == consumer_widths(c@, i as int),
            count_w <= 100,
            total_w <= 100,
            avg_w <= 100,
        decreases n - i,
    {
        let count_len = decimal_of(c[i].count).len();
        let total_len = tokens_of(c[i].total_tokens).len();
        let avg_len = tokens_of(c[i].avg_tokens).len();
        if count_len > count_w {
            count_w = count_len;
        }
        if total_len > total_w {
            total_w = total_len;
        }
        if avg_len > avg_w {
            avg_w = avg_len;
        }
        i += 1;
    }
    (count_w, total_w, avg_w)
}

fn say_consumer_row(out: &mut Vec<Span>, c: &TokenConsumer, i: usize, w: (usize, usize, usize))
    requires
        i < usize::MAX,
    ensures
        style::pieces(final(out)@) == style::pieces(old(out)@) + consumer_row(
            *c,
            i as nat,
            (w.0 as nat, w.1 as nat, w.2 as nat),
        ),
{
    let ghost before = style::pieces(out@);
    say_plain(out, " ");
    say_count(out, i + 1, 2);
    say_plain(out, ".  ");
    say_command(out, &truncate_text(&chars_of(c.command.as_str()), 22), 22);
    say_plain(out, " ");
    say_count(out, c.count, w.0);
    say_plain(out, "  ");
    say_tokens(out, c.total_tokens, w.1);
    say_plain(out, "  ");
    say_tokens(out, c.avg_tokens, w.2);
    say_plain(out, "   ");
    match c.rtk_handling {
        RtkHandling::Filtered => {
            say(out, chars_of("Yes"), Paint::Heading);
        },
        RtkHandling::Passthrough => {
            say(out, chars_of("Pass"), Paint::Neutral);
        },
        RtkHandling::Unhandled => {
            say(out, chars_of("No"), Paint::Low);
        },
    }
    say_plain(out, "\n");
    assert(style::pieces(out@) =~= before + consumer_row(
        *c,
        i as nat,
        (w.0 as nat, w.1 as nat, w.2 as nat),
    ));
}

fn say_consumer_heading(out: &mut Vec<Span>, table_w: usize, w: (usize, usize, usize))
    requires
        table_w == consumer_table_width((w.0 as nat, w.1 as nat, w.2 as nat)),
    ensures
        style::pieces(final(out)@) == style::pieces(old(out)@) + consumer_heading(
            (w.0 as nat, w.1 as nat, w.2 as nat),
        ),
{
    let ghost before = style::pieces(out@);
    say_plain(out, "\n");
    say(out, chars_of("TOP TOKEN CONSUMERS (by output size)"), Paint::Heading);
    say_plain(out, "\n");
    say_rule(out, '\u{2500}', table_w);
    say_plain(out, "  ");
    say_left(out, "#", 3);
    say_plain(out, " ");
    say_left(out, "Command", 22);
    say_plain(out, " ");
    say_right(out, "Count", w.0);
    say_plain(out, "  ");
    say_right(out, "Total", w.1);
    say_plain(out, "  ");
    say_right(out, "Avg", w.2);
    say_plain(out, "   ");
    say_plain(out, "RTK?");
    say_plain(out, "\n");
    say_rule(out, '\u{2500}', table_w);
    assert(style::pieces(out@) =~= before + consumer_heading(
        (w.0 as nat, w.1 as nat, w.2 as nat),
    ));
}

fn say_consumers(out: &mut Vec<Span>, c: &Vec<TokenConsumer>, limit: usize)
    ensures
        style::pieces(final(out)@) == style::pieces(old(out)@) + consumer_section(
            c@,
            limit as nat,
        ),
{
    let ghost before = style::pieces(out@);
    if c.len() == 0 {
        assert(before =~= before + consumer_section(c@, limit as nat));
        return;
    }
    let n: usize = if c.len() < limit {
        c.len()
    } else {
        limit
    };
    let w = measure_consumers(c, n);
    let ghost widths = (w.0 as nat, w.1 as nat, w.2 as nat);
    let table_w: usize = 4 + 22 + 2 + w.0 + 2 + w.1 + 2 + w.2 + 3 + 4;
    say_consumer_heading(out, table_w, w);
    let ghost heading = before + consumer_heading(widths);
    let mut unhandled = false;
    let mut i: usize = 0;
    assert(heading =~= heading + consumer_rows(c@, 0, widths));
    while i < n
        invariant
            i <= n <= c.len(),
            widths == (w.0 as nat, w.1 as nat, w.2 as nat),
            style::pieces(out@) == heading + consumer_rows(c@, i as int, widths),
            unhandled == any_unhandled(c@, i as int),
        decreases n - i,
    {
        say_consumer_row(out, &c[i], i, w);
        if c[i].rtk_handling == RtkHandling::Unhandled {
            unhandled = true;
        }
        i += 1;
        assert(unhandled == any_unhandled(c@, i as int)) by {
            if any_unhandled(c@, i - 1) {
                let j = choose|j: int|
                    0 <= j < i - 1 && #[trigger] c@[j].rtk_handling == RtkHandling::Unhandled;
                assert(c@[j].rtk_handling == RtkHandling::Unhandled);
            }
            assert(c@[i - 1].rtk_handling == c@[i - 1].rtk_handling);
        }
        assert(heading + consumer_rows(c@, i - 1, widths) + consumer_row(
            c@[i - 1],
            (i - 1) as nat,
            widths,
        ) =~= heading + consumer_rows(c@, i as int, widths));
    }
    let ghost rows = style::pieces(out@);
    say_rule(out, '\u{2500}', table_w);
    if unhandled {
        say_plain(
            out,
            "  RTK?=No: not yet filtered. Request support:\n  -> github.com/rtk-ai/rtk/issues\n",
        );
    }
    assert(style::pieces(out@) =~= rows + consumer_end(unhandled, widths));
    assert(style::pieces(out@) =~= before + consumer_section(c@, limit as nat));
}

fn say_unhandled_row(out: &mut Vec<Span>, e: &UnsupportedEntry)
    ensures
        style::pieces(final(out)@) == style::pieces(old(out)@) + unhandled_row(*e),
{
    let ghost before = style::pieces(out@);
    say_command(out, &truncate_text(&chars_of(e.base_command.as_str()), 23), 24);
    say_plain(out, " ");
    say_count(out, e.count, 5);
    say_plain(out, "    ");
    say(out, truncate_text(&chars_of(e.example.as_str()), 40), Paint::Plain);
    say_plain(out, "\n");
    assert(style::pieces(out@) =~= before + unhandled_row(*e));
}

fn say_unhandled(out: &mut Vec<Span>, report: &DiscoverReport, limit: usize)
    requires
        report.unsupported_runs() <= usize::MAX,
    ensures
        style::pieces(final(out)@) == style::pieces(old(out)@) + unhandled_section(
            *report,
            limit as nat,
        ),
{
    let ghost before = style::pieces(out@);
    if report.unsupported.len() == 0 {
        assert(before =~= before + unhandled_section(*report, limit as nat));
        return;
    }
    say_plain(out, "\n");
    say(out, chars_of("TOP UNHANDLED COMMANDS -- open an issue?"), Paint::Heading);
    say_plain(out, "\n");
    say_rule(out, '-', 52);
    say_left(out, "Command", 24);
    say_plain(out, " ");
    say_right(out, "Count", 5);
    say_plain(out, "    ");
    say_plain(out, "Example");
    say_plain(out, "\n");
    let ghost heading = before + unhandled_heading();
    assert(style::pieces(out@) =~= heading);
    let n: usize = if report.unsupported.len() < limit {
        report.unsupported.len()
    } else {
        limit
    };
    let mut i: usize = 0;
    assert(heading =~= heading + unhandled_rows(report.unsupported@, 0));
    while i < n
        invariant
            i <= n <= report.unsupported.len(),
            style::pieces(out@) == heading + unhandled_rows(report.unsupported@, i as int),
        decreases n - i,
    {
        say_unhandled_row(out, &report.unsupported[i]);
        i += 1;
        assert(heading + unhandled_rows(report.unsupported@, i - 1) + unhandled_row(
            report.unsupported@[i - 1],
        ) =~= heading + unhandled_rows(report.unsupported@, i as int));
    }
    let ghost rows = style::pieces(out@);
    let runs = number::add_up(&report.unsupported_count_list()).unwrap();
    say_rule(out, '-', 52);
    say_plain(out, "Total: ");
    say_number(out, report.unsupported.len());
    say_plain(out, " unique commands, ");
    say_number(out, runs);
    say_plain(out, " occurrences\n");
    say_plain(out, "-> github.com/rtk-ai/rtk/issues\n");
    assert(style::pieces(out@) =~= rows + unhandled_total(
        report.unsupported@.len(),
        report.unsupported_runs(),
    ));
    assert(style::pieces(out@) =~= before + unhandled_section(*report, limit as nat));
}

fn say_bypass(out: &mut Vec<Span>, count: usize, examples: &Vec<String>)
    ensures
        style::pieces(final(out)@) == style::pieces(old(out)@) + bypass_section(
            count as nat,
            text::strings(examples@),
        ),
{
    let ghost before = style::pieces(out@);
    if count > 0 {
        say_plain(out, "\nRTK_DISABLED BYPASS -- ");
        say(out, decimal_of(count), Paint::Plain);
        say_plain(out, " commands ran without filtering\n");
        say(out, repeated('-', 72), Paint::Plain);
        say_plain(out, "\n");
        say_plain(out, "These commands used RTK_DISABLED=1 unnecessarily:\n");
        if examples.len() > 0 {
            say_plain(out, "  ");
            say(out, joined(&texts_of(examples), ", "), Paint::Plain);
            say_plain(out, "\n");
        }
        say_plain(out, "-> Remove RTK_DISABLED=1 to recover token savings\n");
    }
    assert(style::pieces(out@) =~= before + bypass_section(
        count as nat,
        text::strings(examples@),
    ));
}

fn say_foot(out: &mut Vec<Span>, parse_errors: usize, verbose: bool)
    ensures
        style::pieces(final(out)@) == style::pieces(old(out)@) + foot(
            parse_errors as nat,
            verbose,
        ),
{
    let ghost before = style::pieces(out@);
    say_plain(out, "\n~estimated from tool_result output sizes\n");
    if verbose && parse_errors > 0 {
        say_plain(out, "\nParse errors skipped: ");
        say(out, decimal_of(parse_errors), Paint::Plain);
        say_plain(out, "\n");
    }
    assert(style::pieces(out@) =~= before + foot(parse_errors as nat, verbose));
}

/// Formats a report as styled text.
pub fn format_sections(report: &DiscoverReport, limit: usize, verbose: bool) -> (r: Vec<Span>)
    requires
        is_writable(*report, limit as nat),
    ensures
        style::pieces(r@) == sections(*report, limit as nat, verbose),
{
    let mut out: Vec<Span> = Vec::new();
    assert(style::pieces(out@) =~= Seq::<style::Piece>::empty());
    say_head(&mut out, report);
    assert(style::pieces(out@) =~= head(*report));
    if report.supported.len() == 0 && report.unsupported.len() == 0 {
        say_plain(&mut out, "\nNo missed savings found. RTK usage looks good!\n");
        assert(style::pieces(out@) =~= sections(*report, limit as nat, verbose));
        return out;
    }
    say_missed(&mut out, report, limit);
    say_saveable(&mut out, report.grand_total_tokens());
    say_consumers(&mut out, &report.consumers, limit);
    say_unhandled(&mut out, report, limit);
    say_bypass(&mut out, report.rtk_disabled_count, &report.rtk_disabled_examples);
    say_foot(&mut out, report.parse_errors, verbose);
    out
}

/// Formats a report as text for a terminal (`tty`) or for anything else.
pub fn format_text_for(report: &DiscoverReport, limit: usize, verbose: bool, tty: bool) -> (r:
    String)
    requires
        is_writable(*report, limit as nat),
    ensures
        style::is_rendering(sections(*report, limit as nat, verbose), tty, r@),
{
    render(&format_sections(report, limit, verbose), tty)
}

/// Formats a report as text for the standard output: in colour, if that is a terminal that
/// shows any.
pub fn format_text(report: &DiscoverReport, limit: usize, verbose: bool) -> (r: String)
    requires
        is_writable(*report, limit as nat),
    ensures
        style::is_rendering(sections(*report, limit as nat, verbose), true, r@),
{
    proof {
        style::lemma_plain_rendering(sections(*report, limit as nat, verbose));
    }
    format_text_for(report, limit, verbose, style::on_terminal())
}

/// Tells whether a report can be written with at most `limit` rows in each table.
pub fn can_write(report: &DiscoverReport, limit: usize) -> (r: bool)
    ensures
        r == is_writable(*report, limit as nat),
{
    if report.total_commands > 0 && report.already_rtk.checked_mul(100).is_none() {
        return false;
    }
    if report.supported.len() == 0 && report.unsupported.len() == 0 {
        return true;
    }
    if number::add_up(&report.savings_list()).is_none() || number::add_up(
        &report.supported_count_list(),
    ).is_none() || number::add_up(&report.unsupported_count_list()).is_none() {
        return false;
    }
    let n: usize = if report.supported.len() < limit {
        report.supported.len()
    } else {
        limit
    };
    let mut i: usize = 0;
    while i < n
        invariant
            i <= n <= report.supported.len(),
            n == shown(report.supported@.len(), limit as nat),
            !is_clean(*report),
            equivalents_split(report.supported@, i as int),
        decreases n - i,
    {
        if !can_split(&chars_of(report.supported[i].rtk_equivalent), 18) {
            assert(!splits(report.supported@[i as int].rtk_equivalent@, 18));
            return false;
        }
        i += 1;
    }
    let m: usize = if report.consumers.len() < limit {
        report.consumers.len()
    } else {
        limit
    };
    let mut j: usize = 0;
    while j < m
        invariant
            j <= m <= report.consumers.len(),
            m == shown(report.consumers@.len(), limit as nat),
            !is_clean(*report),
            consumers_split(report.consumers@, j as int),
        decreases m - j,
    {
        let command = truncate_text(&chars_of(report.consumers[j].command.as_str()), 22);
        if !can_split(&command, 22) {
            assert(!splits(truncated(report.consumers@[j as int].command@, 22), 22));
            return false;
        }
        j += 1;
    }
    true
}

/// A left-aligned text stays the same whatever part of it is styled: the style adds nothing
/// to the width of the column.
pub proof fn lemma_column_text(s: Seq<char>, width: nat)
    ensures
        styled_part(s, width) + trailing_part(s, width) == text::left_aligned(s, width),
        text::left_aligned(s, width).len() >= width,
{
    text::lemma_cut(s, 0, width);
    assert(styled_part(s, width) + trailing_part(s, width) =~= text::left_aligned(s, width));
}

/// A right-aligned text takes `width` bytes, or as many as it has.
pub proof fn lemma_right_column(s: Seq<char>, width: nat)
    ensures
        text::byte_len(leading_part(s, width) + s) == (if text::byte_len(s) < width {
            width
        } else {
            text::byte_len(s)
        }),
{
    text::lemma_byte_len_joined(leading_part(s, width), s);
    if text::byte_len(s) < width {
        text::lemma_byte_len_spaces((width - text::byte_len(s)) as nat);
    }
}

/// A command that is cut to 23 bytes never has a character across the end of its column of
/// 24.
pub proof fn lemma_command_column(s: Seq<char>)
    ensures
        splits(truncated(s, 23), 24),
{
    let t = truncated(s, 23);
    if text::byte_len(s) > 23 {
        reveal_strlit("..");
        let k = text::cut(s, 21);
        text::lemma_cut(s, 0, 21);
        let b = text::byte_len(s.take(k));
        if k > 0 {
            text::lemma_byte_len_grows(s, k - 1, k);
            assert(text::byte_len(s.take(k - 1)) < 21);
        }
        assert(t.take(k) =~= s.take(k));
        assert(t.take(k + 1) =~= s.take(k).push('.'));
        assert(t.take(k + 1).drop_last() =~= s.take(k));
        assert(t =~= s.take(k).push('.').push('.'));
        assert(t.drop_last() =~= s.take(k).push('.'));
        assert(text::byte_len(t.take(k + 1)) == b + 1);
        assert(t.drop_last() =~= t.take(k + 1));
        assert(t.last() == '.');
        assert(text::byte_len(t) == b + 2);
        if b + 2 > 24 {
            let c = text::cut(t, 24);
            text::lemma_cut(t, 0, 24);
            let end = if b == 24 {
                k
            } else {
                k + 1
            };
            assert(text::byte_len(t.take(end)) == 24);
            assert(c <= end);
            text::lemma_byte_len_grows(t, c, end);
        }
    }
}

/// A text that is cut to `max` bytes has at most `max` characters.
pub proof fn lemma_truncated_len(s: Seq<char>, max: nat)
    requires
        max >= 2,
    ensures
        truncated(s, max).len() <= max,
{
    text::lemma_len_at_most_bytes(s);
    if text::byte_len(s) > max {
        reveal_strlit("..");
        assert(".."@.len() == 2);
        let limit = (max - 2) as nat;
        let k = text::cut(s, limit);
        text::lemma_cut(s, 0, limit);
        if k > 0 {
            assert(text::byte_len(s.take(k - 1)) < limit);
            text::lemma_len_at_most_bytes(s.take(k - 1));
        }
    }
}

/// A number of tokens takes one byte for each character.
pub proof fn lemma_token_bytes(tokens: nat)
    ensures
        text::byte_len(token_text(tokens)) == token_text(tokens).len(),
{
    reveal_strlit("M tokens");
    reveal_strlit("K tokens");
    reveal_strlit(" tokens");
    reveal_strlit(".");
    lemma_ascii_bytes("M tokens"@);
    lemma_ascii_bytes("K tokens"@);
    lemma_ascii_bytes(" tokens"@);
    lemma_ascii_bytes("."@);
    if tokens >= 1_000 {
        let unit: nat = if tokens >= 1_000_000 {
            1_000_000
        } else {
            1_000
        };
        let a = number::decimal(number::tenths(tokens, unit) / 10);
        let b = number::decimal(number::tenths(tokens, unit) % 10);
        let end = if tokens >= 1_000_000 {
            "M tokens"@
        } else {
            "K tokens"@
        };
        number::lemma_decimal_bytes(number::tenths(tokens, unit) / 10);
        number::lemma_decimal_bytes(number::tenths(tokens, unit) % 10);
        text::lemma_byte_len_joined(a, "."@);
        text::lemma_byte_len_joined(a + "."@, b);
        text::lemma_byte_len_joined(a + "."@ + b, end);
    } else {
        number::lemma_decimal_bytes(tokens);
        text::lemma_byte_len_joined(number::decimal(tokens), " tokens"@);
    }
}

proof fn lemma_ascii_char(c: char)
    requires
        c <= '\x7f',
    ensures
        text::char_bytes(c) == 1,
{
}

proof fn lemma_ascii_bytes(s: Seq<char>)
    requires
        forall|i: int| 0 <= i < s.len() ==> #[trigger] s[i] <= '\x7f',
    ensures
        text::byte_len(s) == s.len(),
    decreases s.len(),
{
    if s.len() > 0 {
        lemma_ascii_bytes(s.drop_last());
        assert(s[s.len() - 1] <= '\x7f');
        lemma_ascii_char(s.last());
    }
}

proof fn lemma_token_column(tokens: nat, width: nat)
    requires
        token_text(tokens).len() <= width,
    ensures
        leading_part(token_text(tokens), width).len() + token_text(tokens).len() == width,
{
    lemma_token_bytes(tokens);
}

/// The columns of the table of missed savings begin where their headings do: the filter in
/// column 34 and the status in column 53, as long as counts have at most five digits and
/// filters at most eighteen characters.
pub proof fn lemma_missed_columns(e: SupportedEntry)
    requires
        number::decimal(e.count as nat).len() <= 5,
        e.rtk_equivalent@.len() <= 18,
    ensures
        style::plain(missed_row(e).take(5)).len() == 34,
        style::plain(missed_row(e).take(8)).len() == 53,
        style::plain(missed_heading().subrange(5, 9)).len() == 34,
        style::plain(missed_heading().subrange(5, 11)).len() == 53,
{
    let command = truncated(e.command@, 23);
    lemma_truncated_len(e.command@, 23);
    lemma_column_text(command, 24);
    lemma_column_text(e.rtk_equivalent@, 18);
    reveal_strlit(" ");
    reveal_strlit("    ");
    reveal_strlit("Command");
    reveal_strlit("Count");
    reveal_strlit("RTK Equivalent");
    assert(" "@.len() == 1 && "    "@.len() == 4);
    assert("Command"@.len() == 7 && "Count"@.len() == 5 && "RTK Equivalent"@.len() == 14);
    let r = missed_row(e);
    style::lemma_plain_empty();
    let r0 = Seq::<style::Piece>::empty();
    let r1 = r0.push(r[0]);
    let r2 = r1.push(r[1]);
    let r3 = r2.push(r[2]);
    let r4 = r3.push(r[3]);
    let r5 = r4.push(r[4]);
    let r6 = r5.push(r[5]);
    let r7 = r6.push(r[6]);
    let r8 = r7.push(r[7]);
    style::lemma_plain_push(r0, r[0]);
    style::lemma_plain_push(r1, r[1]);
    style::lemma_plain_push(r2, r[2]);
    style::lemma_plain_push(r3, r[3]);
    style::lemma_plain_push(r4, r[4]);
    style::lemma_plain_push(r5, r[5]);
    style::lemma_plain_push(r6, r[6]);
    style::lemma_plain_push(r7, r[7]);
    assert(r.take(5) =~= r5);
    assert(r.take(8) =~= r8);
    let h = missed_heading();
    let h1 = r0.push(h[5]);
    let h2 = h1.push(h[6]);
    let h3 = h2.push(h[7]);
    let h4 = h3.push(h[8]);
    let h5 = h4.push(h[9]);
    let h6 = h5.push(h[10]);
    style::lemma_plain_push(r0, h[5]);
    style::lemma_plain_push(h1, h[6]);
    style::lemma_plain_push(h2, h[7]);
    style::lemma_plain_push(h3, h[8]);
    style::lemma_plain_push(h4, h[9]);
    style::lemma_plain_push(h5, h[10]);
    assert(h.subrange(5, 9) =~= h4);
    assert(h.subrange(5, 11) =~= h6);
}

/// Where the last column of the table of consumers begins.
pub open spec fn handling_column(w: (nat, nat, nat)) -> nat {
    36 + w.0 + w.1 + w.2
}

proof fn lemma_consumer_heading_column(w: (nat, nat, nat))
    requires
        w.0 >= 5,
        w.1 >= 5,
        w.2 >= 3,
    ensures
        style::plain(consumer_heading(w).subrange(5, 16)).len() == handling_column(w),
{
    reveal_strlit("  ");
    reveal_strlit("   ");
    reveal_strlit(" ");
    reveal_strlit("#");
    reveal_strlit("Command");
    reveal_strlit("Count");
    reveal_strlit("Total");
    reveal_strlit("Avg");
    assert("  "@.len() == 2 && "   "@.len() == 3 && " "@.len() == 1 && "#"@.len() == 1);
    assert("Command"@.len() == 7 && "Count"@.len() == 5 && "Total"@.len() == 5 && "Avg"@.len()
        == 3);
    let h = consumer_heading(w);
    style::lemma_plain_empty();
    let h0 = Seq::<style::Piece>::empty();
    let h1 = h0.push(h[5]);
    let h2 = h1.push(h[6]);
    let h3 = h2.push(h[7]);
    let h4 = h3.push(h[8]);
    let h5 = h4.push(h[9]);
    let h6 = h5.push(h[10]);
    let h7 = h6.push(h[11]);
    let h8 = h7.push(h[12]);
    let h9 = h8.push(h[13]);
    let h10 = h9.push(h[14]);
    let h11 = h10.push(h[15]);
    style::lemma_plain_push(h0, h[5]);
    style::lemma_plain_push(h1, h[6]);
    style::lemma_plain_push(h2, h[7]);
    style::lemma_plain_push(h3, h[8]);
    style::lemma_plain_push(h4, h[9]);
    style::lemma_plain_push(h5, h[10]);
    style::lemma_plain_push(h6, h[11]);
    style::lemma_plain_push(h7, h[12]);
    style::lemma_plain_push(h8, h[13]);
    style::lemma_plain_push(h9, h[14]);
    style::lemma_plain_push(h10, h[15]);
    assert(h.subrange(5, 16) =~= h11);
}

proof fn lemma_consumer_row_column(c: TokenConsumer, i: nat, w: (nat, nat, nat))
    requires
        i < 99,
        number::decimal(c.count as nat).len() <= w.0,
        token_text(c.total_tokens as nat).len() <= w.1,
        token_text(c.avg_tokens as nat).len() <= w.2,
    ensures
        style::plain(consumer_row(c, i, w).take(14)).len() == handling_column(w),
{
    let command = truncated(c.command@, 22);
    lemma_truncated_len(c.command@, 22);
    lemma_column_text(command, 22);
    lemma_token_column(c.total_tokens as nat, w.1);
    lemma_token_column(c.avg_tokens as nat, w.2);
    assert(number::power_of_ten(2) == 100) by {
        reveal_with_fuel(number::power_of_ten, 3);
    }
    number::lemma_decimal_len(i + 1, 2);
    reveal_strlit(" ");
    reveal_strlit(".  ");
    reveal_strlit("  ");
    reveal_strlit("   ");
    assert(" "@.len() == 1 && ".  "@.len() == 3 && "  "@.len() == 2 && "   "@.len() == 3);
    let r = consumer_row(c, i, w);
    style::lemma_plain_empty();
    let r0 = Seq::<style::Piece>::empty();
    let r1 = r0.push(r[0]);
    let r2 = r1.push(r[1]);
    let r3 = r2.push(r[2]);
    let r4 = r3.push(r[3]);
    let r5 = r4.push(r[4]);
    let r6 = r5.push(r[5]);
    let r7 = r6.push(r[6]);
    let r8 = r7.push(r[7]);
    let r9 = r8.push(r[8]);
    let r10 = r9.push(r[9]);
    let r11 = r10.push(r[10]);
    let r12 = r11.push(r[11]);
    let r13 = r12.push(r[12]);
    let r14 = r13.push(r[13]);
    style::lemma_plain_push(r0, r[0]);
    style::lemma_plain_push(r1, r[1]);
    style::lemma_plain_push(r2, r[2]);
    style::lemma_plain_push(r3, r[3]);
    style::lemma_plain_push(r4, r[4]);
    style::lemma_plain_push(r5, r[5]);
    style::lemma_plain_push(r6, r[6]);
    style::lemma_plain_push(r7, r[7]);
    style::lemma_plain_push(r8, r[8]);
    style::lemma_plain_push(r9, r[9]);
    style::lemma_plain_push(r10, r[10]);
    style::lemma_plain_push(r11, r[11]);
    style::lemma_plain_push(r12, r[12]);
    style::lemma_plain_push(r13, r[13]);
    assert(r.take(14) =~= r14);
}

/// The last column of the table of consumers begins in every row where its heading does.
pub proof fn lemma_consumer_columns(c: Seq<TokenConsumer>, n: int, i: int)
    requires
        0 <= i < n <= c.len(),
        i < 99,
    ensures
        style::plain(consumer_row(c[i], i as nat, consumer_widths(c, n)).take(14)).len()
            == style::plain(consumer_heading(consumer_widths(c, n)).subrange(5, 16)).len(),
{
    let w = consumer_widths(c, n);
    let counts = Seq::new(c.len(), |i: int| number::decimal(c[i].count as nat).len());
    let sums = Seq::new(c.len(), |i: int| token_text(c[i].total_tokens as nat).len());
    let averages = Seq::new(c.len(), |i: int| token_text(c[i].avg_tokens as nat).len());
    number::lemma_widest(counts, n, 5);
    number::lemma_widest(sums, n, 5);
    number::lemma_widest(averages, n, 3);
    assert(counts[i] <= w.0);
    assert(sums[i] <= w.1);
    assert(averages[i] <= w.2);
    lemma_consumer_heading_column(w);
    lemma_consumer_row_column(c[i], i as nat, w);
}

proof fn lemma_missed_rows(entries: Seq<SupportedEntry>, n: int)
    requires
        0 <= n <= entries.len(),
    ensures
        missed_rows(entries, n).len() == 13 * n,
        forall|i: int|
            0 <= i < n ==> style::holds(
                missed_rows(entries, n),
                13 * i,
                missed_row(#[trigger] entries[i]),
            ),
    decreases n,
{
    if n > 0 {
        lemma_missed_rows(entries, n - 1);
        let before = missed_rows(entries, n - 1);
        let now = missed_rows(entries, n);
        assert forall|i: int| 0 <= i < n implies style::holds(
            now,
            13 * i,
            missed_row(#[trigger] entries[i]),
        ) by {
            let row = missed_row(entries[i]);
            if i < n - 1 {
                assert(style::holds(before, 13 * i, row));
                assert(now.subrange(13 * i, 13 * i + 13) =~= before.subrange(13 * i, 13 * i + 13));
            } else {
                assert(now.subrange(13 * i, 13 * i + 13) =~= row);
            }
        }
    }
}

/// The pieces of a table from `at` on are those of the row of `e`.
pub open spec fn shows_missed(t: Seq<style::Piece>, at: int, e: SupportedEntry) -> bool {
    &&& t[at].0 + t[at + 1].0 == text::left_aligned(truncated(e.command@, 23), 24)
    &&& t[at + 3].0 == text::right_aligned(number::decimal(e.count as nat), 5)
    &&& t[at + 5].0 + t[at + 6].0 == text::left_aligned(e.rtk_equivalent@, 18)
    &&& t[at + 8].0 == text::left_aligned(status_name(e.rtk_status), 13)
    &&& t[at + 11].0 == token_text(e.estimated_savings_tokens as nat)
    &&& t[at + 12].0 == "\n"@
}

proof fn lemma_missed_shown(t: Seq<style::Piece>, at: int, e: SupportedEntry)
    requires
        style::holds(t, at, missed_row(e)),
    ensures
        shows_missed(t, at, e),
{
    let row = missed_row(e);
    assert(row.len() == 13);
    let cut = t.subrange(at, at + 13);
    assert(cut == row);
    assert(cut[0] == t[at] && cut[1] == t[at + 1] && cut[3] == t[at + 3] && cut[5] == t[at + 5]
        && cut[6] == t[at + 6] && cut[8] == t[at + 8] && cut[11] == t[at + 11] && cut[12] == t[at
        + 12]);
    lemma_column_text(truncated(e.command@, 23), 24);
    lemma_column_text(e.rtk_equivalent@, 18);
}

/// The table of missed savings has a row for each of the first commands, in their order: its
/// name, how often it ran, its filter, its status and what it would have saved. Below stands
/// how often all commands ran and what all would have saved, also those that are not shown.
pub proof fn lemma_missed_table(report: DiscoverReport, limit: nat)
    requires
        report.supported@.len() > 0,
    ensures
        ({
            let t = missed_section(report, limit);
            let n: int = if report.supported@.len() < limit {
                report.supported@.len() as int
            } else {
                limit as int
            };
            let end = 15 + 13 * n;
            &&& t.len() == end + 7
            &&& forall|i: int|
                0 <= i < n ==> shows_missed(t, 15 + 13 * i, #[trigger] report.supported@[i])
            &&& t[end + 3].0 == number::decimal(
                number::total(report.supported@.map_values(|e: SupportedEntry| e.count)),
            )
            &&& t[end + 5].0 == token_text(
                number::total(
                    report.supported@.map_values(|e: SupportedEntry| e.estimated_savings_tokens),
                ),
            )
        }),
{
    let t = missed_section(report, limit);
    let n = shown(report.supported@.len(), limit);
    let rows = missed_rows(report.supported@, n);
    let below = missed_total(report.supported_runs(), report.saveable());
    lemma_missed_rows(report.supported@, n);
    assert(missed_heading().len() == 15);
    assert forall|i: int| 0 <= i < n implies shows_missed(
        t,
        15 + 13 * i,
        #[trigger] report.supported@[i],
    ) by {
        let e = report.supported@[i];
        style::lemma_holds_around(missed_heading(), rows, below, 13 * i, missed_row(e));
        lemma_missed_shown(t, 15 + 13 * i, e);
    }
    let end = 15 + 13 * n;
    assert(below.len() == 7);
    assert(t[end + 3] == below[3] && t[end + 5] == below[5]);
    assert(supported_counts(report.supported@) =~= report.supported@.map_values(
        |e: SupportedEntry| e.count,
    ));
    assert(savings(report.supported@) =~= report.supported@.map_values(
        |e: SupportedEntry| e.estimated_savings_tokens,
    ));
}

proof fn lemma_unhandled_rows(entries: Seq<UnsupportedEntry>, n: int)
    requires
        0 <= n <= entries.len(),
    ensures
        unhandled_rows(entries, n).len() == 7 * n,
        forall|i: int|
            0 <= i < n ==> style::holds(
                unhandled_rows(entries, n),
                7 * i,
                unhandled_row(#[trigger] entries[i]),
            ),
    decreases n,
{
    if n > 0 {
        lemma_unhandled_rows(entries, n - 1);
        let before = unhandled_rows(entries, n - 1);
        let now = unhandled_rows(entries, n);
        assert forall|i: int| 0 <= i < n implies style::holds(
            now,
            7 * i,
            unhandled_row(#[trigger] entries[i]),
        ) by {
            let row = unhandled_row(entries[i]);
            if i < n - 1 {
                assert(style::holds(before, 7 * i, row));
                assert(now.subrange(7 * i, 7 * i + 7) =~= before.subrange(7 * i, 7 * i + 7));
            } else {
                assert(now.subrange(7 * i, 7 * i + 7) =~= row);
            }
        }
    }
}

/// The pieces of a table from `at` on are those of the row of `e`.
pub open spec fn shows_unhandled(t: Seq<style::Piece>, at: int, e: UnsupportedEntry) -> bool {
    &&& t[at].0 + t[at + 1].0 == text::left_aligned(truncated(e.base_command@, 23), 24)
    &&& t[at + 3].0 == text::right_aligned(number::decimal(e.count as nat), 5)
    &&& t[at + 5].0 == truncated(e.example@, 40)
    &&& t[at + 6].0 == "\n"@
}

proof fn lemma_unhandled_shown(t: Seq<style::Piece>, at: int, e: UnsupportedEntry)
    requires
        style::holds(t, at, unhandled_row(e)),
    ensures
        shows_unhandled(t, at, e),
{
    let row = unhandled_row(e);
    assert(row.len() == 7);
    let cut = t.subrange(at, at + 7);
    assert(cut == row);
    assert(cut[0] == t[at] && cut[1] == t[at + 1] && cut[3] == t[at + 3] && cut[5] == t[at + 5]
        && cut[6] == t[at + 6]);
    lemma_column_text(truncated(e.base_command@, 23), 24);
}

/// The table of unsupported commands has a row for each of the first, in their order: its
/// name, how often it ran and an example. Below stands how many there are and how often all
/// ran, also those that are not shown.
pub proof fn lemma_unhandled_table(report: DiscoverReport, limit: nat)
    requires
        report.unsupported@.len() > 0,
    ensures
        ({
            let t = unhandled_section(report, limit);
            let n: int = if report.unsupported@.len() < limit {
                report.unsupported@.len() as int
            } else {
                limit as int
            };
            let end = 11 + 7 * n;
            &&& t.len() == end + 8
            &&& forall|i: int|
                0 <= i < n ==> shows_unhandled(t, 11 + 7 * i, #[trigger] report.unsupported@[i])
            &&& t[end + 3].0 == number::decimal(report.unsupported@.len())
            &&& t[end + 5].0 == number::decimal(
                number::total(report.unsupported@.map_values(|e: UnsupportedEntry| e.count)),
            )
        }),
{
    let t = unhandled_section(report, limit);
    let n = shown(report.unsupported@.len(), limit);
    let rows = unhandled_rows(report.unsupported@, n);
    let below = unhandled_total(report.unsupported@.len(), report.unsupported_runs());
    lemma_unhandled_rows(report.unsupported@, n);
    assert(unhandled_heading().len() == 11);
    assert(t == unhandled_heading() + rows + below);
    assert forall|i: int| 0 <= i < n implies shows_unhandled(
        t,
        11 + 7 * i,
        #[trigger] report.unsupported@[i],
    ) by {
        let e = report.unsupported@[i];
        style::lemma_holds_around(unhandled_heading(), rows, below, 7 * i, unhandled_row(e));
        lemma_unhandled_shown(t, 11 + 7 * i, e);
    }
    let end = 11 + 7 * n;
    assert(below.len() == 8);
    assert(t[end + 3] == below[3] && t[end + 5] == below[5]);
    assert(unsupported_counts(report.unsupported@) =~= report.unsupported@.map_values(
        |e: UnsupportedEntry| e.count,
    ));
}

proof fn lemma_consumer_rows(c: Seq<TokenConsumer>, n: int, w: (nat, nat, nat))
    requires
        0 <= n <= c.len(),
    ensures
        consumer_rows(c, n, w).len() == 16 * n,
        forall|i: int|
            0 <= i < n ==> style::holds(
                consumer_rows(c, n, w),
                16 * i,
                consumer_row(#[trigger] c[i], i as nat, w),
            ),
    decreases n,
{
    if n > 0 {
        lemma_consumer_rows(c, n - 1, w);
        let before = consumer_rows(c, n - 1, w);
        let now = consumer_rows(c, n, w);
        assert forall|i: int| 0 <= i < n implies style::holds(
            now,
            16 * i,
            consumer_row(#[trigger] c[i], i as nat, w),
        ) by {
            let row = consumer_row(c[i], i as nat, w);
            if i < n - 1 {
                assert(style::holds(before, 16 * i, row));
                assert(now.subrange(16 * i, 16 * i + 16) =~= before.subrange(16 * i, 16 * i + 16));
            } else {
                assert(now.subrange(16 * i, 16 * i + 16) =~= row);
            }
        }
    }
}

/// The pieces of a table from `at` on are those of the row of `e`, the one with this number.
pub open spec fn shows_consumer(
    t: Seq<style::Piece>,
    at: int,
    e: TokenConsumer,
    number: nat,
) -> bool {
    &&& t[at + 1].0 == text::right_aligned(number::decimal(number), 2)
    &&& t[at + 3].0 + t[at + 4].0 == text::left_aligned(truncated(e.command@, 22), 22)
    &&& text::ends_with(t[at + 6].0, number::decimal(e.count as nat))
    &&& t[at + 9].0 == token_text(e.total_tokens as nat)
    &&& t[at + 12].0 == token_text(e.avg_tokens as nat)
    &&& t[at + 14].0 == match e.rtk_handling {
        RtkHandling::Filtered => "Yes"@,
        RtkHandling::Passthrough => "Pass"@,
        RtkHandling::Unhandled => "No"@,
    }
    &&& t[at + 15].0 == "\n"@
}

proof fn lemma_consumer_shown(
    t: Seq<style::Piece>,
    at: int,
    e: TokenConsumer,
    i: nat,
    w: (nat, nat, nat),
)
    requires
        style::holds(t, at, consumer_row(e, i, w)),
    ensures
        shows_consumer(t, at, e, i + 1),
{
    let row = consumer_row(e, i, w);
    assert(row.len() == 16);
    let cut = t.subrange(at, at + 16);
    assert(cut == row);
    assert(cut[1] == t[at + 1] && cut[3] == t[at + 3] && cut[4] == t[at + 4] && cut[6] == t[at + 6]
        && cut[9] == t[at + 9] && cut[12] == t[at + 12] && cut[14] == t[at + 14] && cut[15] == t[at
        + 15]);
    lemma_column_text(truncated(e.command@, 22), 22);
    let d = number::decimal(e.count as nat);
    let r = text::right_aligned(d, w.0);
    text::lemma_aligned(d, w.0);
    assert(r.subrange(r.len() - d.len(), r.len() as int) =~= r.skip(r.len() - d.len()));
    assert(row[6].0 == r);
    assert(row[14] == handling_label(e.rtk_handling));
}

proof fn lemma_consumer_parts(c: Seq<TokenConsumer>, limit: nat)
    requires
        c.len() > 0,
    ensures
        ({
            let n = shown(c.len(), limit);
            let w = consumer_widths(c, n);
            let rows = consumer_rows(c, n, w);
            let below = consumer_end(any_unhandled(c, n), w);
            &&& consumer_section(c, limit) == consumer_heading(w) + rows + below
            &&& consumer_heading(w).len() == 20
            &&& rows.len() == 16 * n
            &&& any_unhandled(c, n) ==> below.len() == 3
            &&& !any_unhandled(c, n) ==> below.len() == 2
        }),
{
    let n = shown(c.len(), limit);
    lemma_consumer_rows(c, n, consumer_widths(c, n));
}

proof fn lemma_consumer_at(c: Seq<TokenConsumer>, limit: nat, i: int)
    requires
        0 <= i < shown(c.len(), limit),
        c.len() > 0,
    ensures
        shows_consumer(consumer_section(c, limit), 20 + 16 * i, c[i], (i + 1) as nat),
{
    let n = shown(c.len(), limit);
    let w = consumer_widths(c, n);
    let rows = consumer_rows(c, n, w);
    let below = consumer_end(any_unhandled(c, n), w);
    let row = consumer_row(c[i], i as nat, w);
    lemma_consumer_parts(c, limit);
    assert(style::holds(rows, 16 * i, row)) by {
        lemma_consumer_rows(c, n, w);
    }
    style::lemma_holds_around(consumer_heading(w), rows, below, 16 * i, row);
    lemma_consumer_shown(consumer_section(c, limit), 20 + 16 * i, c[i], i as nat, w);
}

/// The table of consumers has a row for each of the first, in their order and numbered from 1:
/// its name, how often it ran, its tokens, their average, and how it is handled. Below stands a
/// note if and only if one of them is not handled at all.
pub proof fn lemma_consumer_table(c: Seq<TokenConsumer>, limit: nat)
    requires
        c.len() > 0,
    ensures
        ({
            let t = consumer_section(c, limit);
            let n: int = if c.len() < limit {
                c.len() as int
            } else {
                limit as int
            };
            &&& t.len() == 20 + 16 * n + 2 || t.len() == 20 + 16 * n + 3
            &&& t.len() == 20 + 16 * n + 3 <==> exists|i: int|
                0 <= i < n && (#[trigger] c[i]).rtk_handling == RtkHandling::Unhandled
            &&& forall|i: int|
                #![trigger c[i]]
                0 <= i < n ==> shows_consumer(t, 20 + 16 * i, c[i], (i + 1) as nat)
        }),
{
    lemma_consumer_parts(c, limit);
    let t = consumer_section(c, limit);
    let n = shown(c.len(), limit);
    assert forall|i: int|
        #![trigger c[i]]
        0 <= i < n implies shows_consumer(t, 20 + 16 * i, c[i], (i + 1) as nat) by {
        lemma_consumer_at(c, limit, i);
    }
}

proof fn lemma_seven(p: Seq<Seq<style::Piece>>)
    requires
        p.len() == 7,
    ensures
        ({
            let t = p[0] + p[1] + p[2] + p[3] + p[4] + p[5] + p[6];
            let i1 = p[0].len() as int;
            let i2 = i1 + p[1].len();
            let i3 = i2 + p[2].len();
            let i4 = i3 + p[3].len();
            let i5 = i4 + p[4].len();
            let i6 = i5 + p[5].len();
            &&& t.len() == i6 + p[6].len()
            &&& style::holds(t, 0, p[0])
            &&& style::holds(t, i1, p[1])
            &&& style::holds(t, i2, p[2])
            &&& style::holds(t, i3, p[3])
            &&& style::holds(t, i4, p[4])
            &&& style::holds(t, i5, p[5])
            &&& style::holds(t, i6, p[6])
        }),
{
    let t = p[0] + p[1] + p[2] + p[3] + p[4] + p[5] + p[6];
    let i1 = p[0].len() as int;
    let i2 = i1 + p[1].len();
    let i3 = i2 + p[2].len();
    let i4 = i3 + p[3].len();
    let i5 = i4 + p[4].len();
    let i6 = i5 + p[5].len();
    assert(t.subrange(0, i1) =~= p[0]);
    assert(t.subrange(i1, i2) =~= p[1]);
    assert(t.subrange(i2, i3) =~= p[2]);
    assert(t.subrange(i3, i4) =~= p[3]);
    assert(t.subrange(i4, i5) =~= p[4]);
    assert(t.subrange(i5, i6) =~= p[5]);
    assert(t.subrange(i6, i6 + p[6].len()) =~= p[6]);
}

/// A report on which nothing was missed says so below its head. Any other has, below its head
/// and in this order, the table of missed savings, what they add up to, the table of consumers,
/// the table of unsupported commands, the bypasses and the notes, and nothing else.
pub proof fn lemma_sections_in_order(report: DiscoverReport, limit: nat, verbose: bool)
    ensures
        report.supported@.len() == 0 && report.unsupported@.len() == 0 ==> sections(
            report,
            limit,
            verbose,
        ) == head(report) + seq![plainly("\nNo missed savings found. RTK usage looks good!\n"@)],
        report.supported@.len() > 0 || report.unsupported@.len() > 0 ==> {
            let t = sections(report, limit, verbose);
            let a = head(report).len() as int;
            let b = a + missed_section(report, limit).len();
            let c = b + saveable_section(report.saveable()).len();
            let d = c + consumer_section(report.consumers@, limit).len();
            let e = d + unhandled_section(report, limit).len();
            let bypasses = bypass_section(
                report.rtk_disabled_count as nat,
                text::strings(report.rtk_disabled_examples@),
            );
            let f = e + bypasses.len();
            &&& style::holds(t, 0, head(report))
            &&& style::holds(t, a, missed_section(report, limit))
            &&& style::holds(t, b, saveable_section(report.saveable()))
            &&& style::holds(t, c, consumer_section(report.consumers@, limit))
            &&& style::holds(t, d, unhandled_section(report, limit))
            &&& style::holds(t, e, bypasses)
            &&& style::holds(t, f, foot(report.parse_errors as nat, verbose))
            &&& t.len() == f + foot(report.parse_errors as nat, verbose).len()
        },
{
    let p = seq![
        head(report),
        missed_section(report, limit),
        saveable_section(report.saveable()),
        consumer_section(report.consumers@, limit),
        unhandled_section(report, limit),
        bypass_section(
            report.rtk_disabled_count as nat,
            text::strings(report.rtk_disabled_examples@),
        ),
        foot(report.parse_errors as nat, verbose),
    ];
    lemma_seven(p);
}

/// The head counts the sessions, the commands and those that used a filter, and the sum below
/// the table of missed savings stands there if and only if it is more than zero.
pub proof fn lemma_head(report: DiscoverReport)
    ensures
        head(report)[5].0 == number::decimal(report.sessions_scanned as nat),
        head(report)[7].0 == number::decimal(report.since_days as nat),
        head(report)[9].0 == number::decimal(report.total_commands as nat),
        head(report)[12].0 == number::decimal(report.already_rtk as nat),
        report.saveable() > 0 <==> saveable_section(report.saveable()).len() > 0,
        report.saveable() > 0 ==> saveable_section(report.saveable())[3].0 == token_text(
            report.saveable(),
        ),
{
}

/// The warning about bypasses counts all of them and names the examples, all in their order.
pub proof fn lemma_bypasses(count: nat, examples: Seq<Seq<char>>)
    ensures
        bypass_section(count, examples).len() > 0 <==> count > 0,
        count > 0 ==> bypass_section(count, examples)[1].0 == number::decimal(count),
        count > 0 && examples.len() > 0 ==> bypass_section(count, examples)[7].0 == text::join(
            examples,
            ", "@,
        ),
{
}

/// A text that fits is not cut. Another keeps its longest beginning that starts every character
/// before the limit, with two dots behind it.
pub proof fn lemma_truncated(s: Seq<char>, max: nat)
    requires
        max >= 2,
    ensures
        text::byte_len(s) <= max ==> truncated(s, max) == s,
        text::byte_len(s) > max ==> exists|k: int|
            {
                &&& 0 <= k <= s.len()
                &&& truncated(s, max) == #[trigger] s.take(k) + ".."@
                &&& forall|j: int| 0 <= j < k ==> text::byte_len(#[trigger] s.take(j)) < max - 2
                &&& k < s.len() ==> text::byte_len(s.take(k)) >= max - 2
            },
{
    text::lemma_cut(s, 0, (max - 2) as nat);
    if text::byte_len(s) > max {
        let k = text::cut(s, (max - 2) as nat);
        assert(truncated(s, max) == s.take(k) + ".."@);
    }
}

/// A small number of tokens is written out. A larger one is written in thousands or millions, as
/// near as one decimal place allows.
pub proof fn lemma_token_text(tokens: nat)
    requires
        tokens < 0x1_0000_0000_0000,
    ensures
        tokens < 1_000 ==> token_text(tokens) == number::decimal(tokens) + " tokens"@,
        1_000 <= tokens < 1_000_000 ==> exists|t: nat|
            {
                &&& token_text(tokens) == number::decimal(t / 10) + "."@ + #[trigger]
                    number::decimal(t % 10) + "K tokens"@
                &&& -1_000 <= 2 * (t * 1_000 - 10 * tokens) <= 1_000
            },
        1_000_000 <= tokens ==> exists|t: nat|
            {
                &&& token_text(tokens) == number::decimal(t / 10) + "."@ + #[trigger]
                    number::decimal(t % 10) + "M tokens"@
                &&& -1_000_000 <= 2 * (t * 1_000_000 - 10 * tokens) <= 1_000_000
            },
{
    if tokens >= 1_000_000 {
        number::lemma_tenths(tokens, 1_000_000);
        let t = number::tenths(tokens, 1_000_000);
        assert(token_text(tokens) == number::decimal(t / 10) + "."@ + number::decimal(t % 10)
            + "M tokens"@);
    } else if tokens >= 1_000 {
        number::lemma_tenths(tokens, 1_000);
        let t = number::tenths(tokens, 1_000);
        assert(token_text(tokens) == number::decimal(t / 10) + "."@ + number::decimal(t % 10)
            + "K tokens"@);
    }
}

/// The share of the commands that went through the filter is rounded down.
pub proof fn lemma_adoption(report: DiscoverReport)
    ensures
        report.total_commands > 0 ==> adoption(report) * report.total_commands <= 100
            * report.already_rtk < (adoption(report) + 1) * report.total_commands,
        report.total_commands == 0 ==> adoption(report) == 0,
{
    if report.total_commands > 0 {
        let a = (report.already_rtk as nat * 100) as int;
        let b = report.total_commands as int;
        vstd::arithmetic::div_mod::lemma_fundamental_div_mod(a, b);
        assert((a / b) * b == b * (a / b)) by (nonlinear_arith);
        assert((a / b + 1) * b == b * (a / b) + b) by (nonlinear_arith);
    }
}

/// Errors of a scan are counted at the end of the report if and only if there are any and they
/// are asked for.
pub proof fn lemma_foot(parse_errors: nat, verbose: bool)
    ensures
        foot(parse_errors, verbose).len() == 4 <==> verbose && parse_errors > 0,
        !(verbose && parse_errors > 0) ==> foot(parse_errors, verbose) == foot(0, false),
        verbose && parse_errors > 0 ==> foot(parse_errors, verbose)[2].0 == number::decimal(
            parse_errors,
        ),
{
}

}
