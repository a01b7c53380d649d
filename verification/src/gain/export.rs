//! The export as comma-separated values.

use vstd::prelude::*;

use crate::number;
use crate::number::{decimal_of, decimal_wide};
use crate::text;
use crate::text::{chars_of, copy, extend, extend_str, joined, string_of, texts_of};

verus! {

/// The length of a period.
#[derive(Clone, Copy, Debug, PartialEq, Eq, Structural)]
pub enum Period {
    Daily,
    Weekly,
    Monthly,
}

/// The savings of a period.
#[derive(Debug)]
pub struct PeriodStats {
    /// The date, the first and last day of the week, or the month.
    pub labels: Vec<String>,
    pub commands: usize,
    pub input_tokens: usize,
    pub output_tokens: usize,
    pub saved_tokens: usize,
    /// The savings in percent, with two decimal places.
    pub savings_pct: String,
    pub total_time_ms: u64,
    pub avg_time_ms: u64,
}

/// The fields of a row.
pub open spec fn fields(p: PeriodStats) -> Seq<Seq<char>> {
    text::strings(p.labels@) + seq![
        number::decimal(p.commands as nat),
        number::decimal(p.input_tokens as nat),
        number::decimal(p.output_tokens as nat),
        number::decimal(p.saved_tokens as nat),
        p.savings_pct@,
        number::decimal(p.total_time_ms as nat),
        number::decimal(p.avg_time_ms as nat),
    ]
}

/// A row.
pub open spec fn row(p: PeriodStats) -> Seq<char> {
    text::join(fields(p), ","@) + "\n"@
}

/// The first `n` rows.
pub open spec fn rows(v: Seq<PeriodStats>, n: int) -> Seq<char>
    decreases n,
{
    if n <= 0 {
        Seq::empty()
    } else {
        rows(v, n - 1) + row(v[n - 1])
    }
}

/// The title and the names of the columns.
pub open spec fn head(period: Period) -> Seq<char> {
    match period {
        Period::Daily =>
            "# Daily Data\ndate,commands,input_tokens,output_tokens,saved_tokens,savings_pct,total_time_ms,avg_time_ms\n"@,
        Period::Weekly =>
            "# Weekly Data\nweek_start,week_end,commands,input_tokens,output_tokens,saved_tokens,savings_pct,total_time_ms,avg_time_ms\n"@,
        Period::Monthly =>
            "# Monthly Data\nmonth,commands,input_tokens,output_tokens,saved_tokens,savings_pct,total_time_ms,avg_time_ms\n"@,
    }
}

/// The table of the savings by period. All but the last kind of table end with an empty line.
pub open spec fn table(period: Period, v: Seq<PeriodStats>) -> Seq<char> {
    head(period) + rows(v, v.len() as int) + (if period == Period::Monthly {
        Seq::empty()
    } else {
        "\n"@
    })
}

fn row_of(p: &PeriodStats) -> (r: Vec<char>)
    ensures
        r@ == row(*p),
{
    let mut f = texts_of(&p.labels);
    f.push(decimal_of(p.commands));
    f.push(decimal_of(p.input_tokens));
    f.push(decimal_of(p.output_tokens));
    f.push(decimal_of(p.saved_tokens));
    f.push(chars_of(p.savings_pct.as_str()));
    f.push(decimal_wide(p.total_time_ms as u128));
    f.push(decimal_wide(p.avg_time_ms as u128));
    assert(text::views(f@) =~= fields(*p));
    let mut r = joined(&f, ",");
    extend_str(&mut r, "\n");
    r
}

/// Writes the table of the savings by period.
pub fn csv_table(period: Period, v: &Vec<PeriodStats>) -> (r: String)
    ensures
        r@ == table(period, v@),
{
    let start = match period {
        Period::Daily => chars_of(
            "# Daily Data\ndate,commands,input_tokens,output_tokens,saved_tokens,savings_pct,total_time_ms,avg_time_ms\n",
        ),
        Period::Weekly => chars_of(
            "# Weekly Data\nweek_start,week_end,commands,input_tokens,output_tokens,saved_tokens,savings_pct,total_time_ms,avg_time_ms\n",
        ),
        Period::Monthly => chars_of(
            "# Monthly Data\nmonth,commands,input_tokens,output_tokens,saved_tokens,savings_pct,total_time_ms,avg_time_ms\n",
        ),
    };
    let mut out = copy(&start);
    let mut i: usize = 0;
    assert(start@ =~= start@ + rows(v@, 0));
    while i < v.len()
        invariant
            i <= v.len(),
            out@ == start@ + rows(v@, i as int),
        decreases v.len() - i,
    {
        extend(&mut out, &row_of(&v[i]));
        i += 1;
        assert(start@ + rows(v@, i - 1) + row(v@[i - 1]) =~= start@ + rows(v@, i as int));
    }
    if period != Period::Monthly {
        extend_str(&mut out, "\n");
    }
    assert(out@ =~= table(period, v@));
    string_of(&out)
}

proof fn lemma_rows(v: Seq<PeriodStats>, n: int, all: Seq<Seq<char>>)
    requires
        0 <= n <= v.len(),
        all.len() == v.len(),
        forall|i: int| 0 <= i < v.len() ==> #[trigger] all[i] == row(v[i]),
    ensures
        rows(v, n) == all.take(n).flatten(),
    decreases n,
{
    if n > 0 {
        lemma_rows(v, n - 1, all);
        assert(all.take(n) =~= all.take(n - 1).push(all[n - 1]));
        all.take(n - 1).lemma_flatten_push(all[n - 1]);
    } else {
        assert(all.take(n) =~= Seq::<Seq<char>>::empty());
    }
}

/// The table is its head, a row for each period in their order, and an empty line but for the
/// last kind. A row has what the period is called, and then its commands, its tokens before and
/// after, its savings, and its times, with commas between them.
pub proof fn lemma_table(period: Period, v: Seq<PeriodStats>)
    ensures
        table(period, v) == head(period) + v.map_values(
            |p: PeriodStats|
                text::join(
                    text::strings(p.labels@) + seq![
                        number::decimal(p.commands as nat),
                        number::decimal(p.input_tokens as nat),
                        number::decimal(p.output_tokens as nat),
                        number::decimal(p.saved_tokens as nat),
                        p.savings_pct@,
                        number::decimal(p.total_time_ms as nat),
                        number::decimal(p.avg_time_ms as nat),
                    ],
                    ","@,
                ) + "\n"@,
        ).flatten() + (match period {
            Period::Daily => "\n"@,
            Period::Weekly => "\n"@,
            Period::Monthly => Seq::<char>::empty(),
        }),
{
    let all = v.map_values(
        |p: PeriodStats|
            text::join(
                text::strings(p.labels@) + seq![
                    number::decimal(p.commands as nat),
                    number::decimal(p.input_tokens as nat),
                    number::decimal(p.output_tokens as nat),
                    number::decimal(p.saved_tokens as nat),
                    p.savings_pct@,
                    number::decimal(p.total_time_ms as nat),
                    number::decimal(p.avg_time_ms as nat),
                ],
                ","@,
            ) + "\n"@,
    );
    lemma_rows(v, v.len() as int, all);
    assert(all.take(all.len() as int) =~= all);
}

}
