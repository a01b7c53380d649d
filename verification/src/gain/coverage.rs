//! Which commands are used, category by category, and by which route commands run.

use vstd::prelude::*;

use super::{command_registry, find_category};
use crate::number;
use crate::order;
use crate::text;
use crate::text::{chars_of, copy, equals, words_of};

verus! {

/// How often a command ran, and how many tokens that saved.
#[derive(Debug)]
pub struct Usage {
    pub command: String,
    pub count: usize,
    pub saved: usize,
}

/// The categories in the order in which they are listed.
pub open spec fn categories() -> Seq<Seq<char>> {
    seq![
        "Git & VCS"@,
        "Build & Compile"@,
        "Test"@,
        "Languages"@,
        "Package Managers"@,
        "Files & Search"@,
        "Analysis & Debug"@,
        "Infrastructure"@,
        "Meta Commands"@,
    ]
}

/// Lists the categories.
pub fn category_order() -> (r: Vec<&'static str>)
    ensures
        text::literals(r@) == categories(),
{
    let r: Vec<&'static str> = vec![
        "Git & VCS",
        "Build & Compile",
        "Test",
        "Languages",
        "Package Managers",
        "Files & Search",
        "Analysis & Debug",
        "Infrastructure",
        "Meta Commands",
    ];
    assert(text::literals(r@) =~= categories());
    r
}

/// One of the rows is about the command `name`.
pub open spec fn is_used(usage: Seq<Usage>, name: Seq<char>) -> bool {
    exists|i: int|
        0 <= i < usage.len() && super::command_name((#[trigger] usage[i]).command@) == Some(name)
}

/// The commands among the first `n` of the registry that belong to a category and are used,
/// or are not.
pub open spec fn members(usage: Seq<Usage>, category: Seq<char>, used: bool, n: int) -> Seq<
    Seq<char>,
>
    decreases n,
{
    if n <= 0 {
        Seq::empty()
    } else {
        let (name, its) = super::registry()[n - 1];
        let before = members(usage, category, used, n - 1);
        if its == category && is_used(usage, name) == used {
            before.push(name)
        } else {
            before
        }
    }
}

/// How many of the first `n` commands of the registry belong to a category.
pub open spec fn listed(category: Seq<char>, n: int) -> nat
    decreases n,
{
    if n <= 0 {
        0
    } else if super::registry()[n - 1].1 == category {
        listed(category, n - 1) + 1
    } else {
        listed(category, n - 1)
    }
}

/// The commands of a category that are used.
pub open spec fn used_commands(usage: Seq<Usage>, category: Seq<char>) -> Seq<Seq<char>> {
    members(usage, category, true, super::registry().len() as int)
}

/// The commands of a category that are not used.
pub open spec fn unused_commands(usage: Seq<Usage>, category: Seq<char>) -> Seq<Seq<char>> {
    members(usage, category, false, super::registry().len() as int)
}

/// The positions of the first `n` rows that belong to a category.
pub open spec fn rows_of(usage: Seq<Usage>, category: Seq<char>, n: int) -> Seq<usize>
    decreases n,
{
    if n <= 0 {
        Seq::empty()
    } else if super::category_name(usage[n - 1].command@) == Some(category) {
        rows_of(usage, category, n - 1).push((n - 1) as usize)
    } else {
        rows_of(usage, category, n - 1)
    }
}

/// How often the commands of a category ran, in the first `n` rows.
pub open spec fn runs_of(usage: Seq<Usage>, category: Seq<char>, n: int) -> nat
    decreases n,
{
    if n <= 0 {
        0
    } else if super::category_name(usage[n - 1].command@) == Some(category) {
        runs_of(usage, category, n - 1) + usage[n - 1].count as nat
    } else {
        runs_of(usage, category, n - 1)
    }
}

/// How many tokens the commands of a category saved, in the first `n` rows.
pub open spec fn saved_of(usage: Seq<Usage>, category: Seq<char>, n: int) -> nat
    decreases n,
{
    if n <= 0 {
        0
    } else if super::category_name(usage[n - 1].command@) == Some(category) {
        saved_of(usage, category, n - 1) + usage[n - 1].saved as nat
    } else {
        saved_of(usage, category, n - 1)
    }
}

/// What is known of a category.
#[derive(Debug)]
pub struct CategoryStats {
    pub category: &'static str,
    /// How many of its commands are used.
    pub used: usize,
    /// How many commands it has.
    pub available: usize,
    /// The commands that are not used.
    pub unused: Vec<&'static str>,
    /// How often its commands ran.
    pub count: usize,
    /// How many tokens they saved.
    pub saved: usize,
    /// The positions of its rows.
    pub rows: Vec<usize>,
}

/// `s` says of a category what the rows do.
pub open spec fn is_stats(s: CategoryStats, usage: Seq<Usage>, category: Seq<char>) -> bool {
    &&& s.category@ == category
    &&& s.used == used_commands(usage, category).len()
    &&& s.available == listed(category, super::registry().len() as int)
    &&& text::literals(s.unused@) == unused_commands(usage, category)
    &&& s.count == runs_of(usage, category, usage.len() as int)
    &&& s.saved == saved_of(usage, category, usage.len() as int)
    &&& s.rows@ == rows_of(usage, category, usage.len() as int)
}

/// What adds up in a category fits.
pub open spec fn category_fits(usage: Seq<Usage>, category: Seq<char>) -> bool {
    &&& runs_of(usage, category, usage.len() as int) <= usize::MAX
    &&& saved_of(usage, category, usage.len() as int) <= usize::MAX
}

proof fn lemma_runs_grow(usage: Seq<Usage>, category: Seq<char>, n: int, m: int)
    requires
        0 <= n <= m <= usage.len(),
    ensures
        runs_of(usage, category, n) <= runs_of(usage, category, m),
        saved_of(usage, category, n) <= saved_of(usage, category, m),
    decreases m - n,
{
    if n < m {
        lemma_runs_grow(usage, category, n, m - 1);
    }
}

/// The names of the commands of all rows that have one.
pub open spec fn names_in(usage: Seq<Usage>, n: int) -> Seq<Seq<char>>
    decreases n,
{
    if n <= 0 {
        Seq::empty()
    } else {
        match super::command_name(usage[n - 1].command@) {
            Some(name) => names_in(usage, n - 1).push(name),
            None => names_in(usage, n - 1),
        }
    }
}

fn list_names(usage: &Vec<Usage>) -> (r: Vec<Vec<char>>)
    ensures
        text::views(r@) == names_in(usage@, usage@.len() as int),
{
    let mut r: Vec<Vec<char>> = Vec::new();
    let mut n: usize = 0;
    assert(text::views(r@) =~= Seq::<Seq<char>>::empty());
    while n < usage.len()
        invariant
            n <= usage.len(),
            text::views(r@) == names_in(usage@, n as int),
        decreases usage.len() - n,
    {
        let words = words_of(usage[n].command.as_str());
        if words.len() >= 2 {
            let name = copy(&words[1]);
            assert(text::views(words@)[1] == name@);
            let ghost before = r@;
            r.push(name);
            proof {
                text::lemma_views_push(before, name);
            }
        }
        n += 1;
    }
    r
}

proof fn lemma_names(usage: Seq<Usage>, name: Seq<char>, n: int)
    requires
        0 <= n <= usage.len(),
    ensures
        names_in(usage, n).contains(name) <==> exists|i: int|
            0 <= i < n && super::command_name((#[trigger] usage[i]).command@) == Some(name),
    decreases n,
{
    if n > 0 {
        lemma_names(usage, name, n - 1);
        let before = names_in(usage, n - 1);
        let now = names_in(usage, n);
        if now.contains(name) {
            let i = choose|i: int| 0 <= i < now.len() && now[i] == name;
            if i < before.len() {
                assert(before[i] == name);
                assert(before.contains(name));
                let j = choose|j: int|
                    0 <= j < n - 1 && super::command_name((#[trigger] usage[j]).command@) == Some(
                        name,
                    );
                assert(super::command_name(usage[j].command@) == Some(name));
            } else {
                assert(super::command_name(usage[n - 1].command@) == Some(name));
            }
        }
        if exists|i: int|
            0 <= i < n && super::command_name((#[trigger] usage[i]).command@) == Some(name) {
            let i = choose|i: int|
                0 <= i < n && super::command_name((#[trigger] usage[i]).command@) == Some(name);
            if i < n - 1 {
                assert(before.contains(name));
                let j = choose|j: int| 0 <= j < before.len() && before[j] == name;
                assert(now[j] == name);
            } else {
                assert(now[before.len() as int] == name);
            }
        }
    }
}

fn list_members(usage: &Vec<Usage>, names: &Vec<Vec<char>>, category: &str, used: bool) -> (r: Vec<
    &'static str,
>)
    requires
        text::views(names@) == names_in(usage@, usage@.len() as int),
    ensures
        text::literals(r@) == members(usage@, category@, used, super::registry().len() as int),
{
    let list = command_registry();
    let c = chars_of(category);
    let ghost all = super::registry();
    assert(list.len() == all.len()) by {
        assert(super::literal_pairs(list@).len() == all.len());
    }
    let mut r: Vec<&'static str> = Vec::new();
    let mut n: usize = 0;
    assert(text::literals(r@) =~= Seq::<Seq<char>>::empty());
    while n < list.len()
        invariant
            n <= list.len(),
            list.len() == all.len(),
            all == super::registry(),
            super::literal_pairs(list@) == all,
            c@ == category@,
            text::views(names@) == names_in(usage@, usage@.len() as int),
            text::literals(r@) == members(usage@, category@, used, n as int),
        decreases list.len() - n,
    {
        assert(all[n as int] == (list@[n as int].0@, list@[n as int].1@));
        let name = chars_of(list[n].0);
        proof {
            lemma_names(usage@, name@, usage@.len() as int);
        }
        if equals(&c, list[n].1) && text::is_among(&name, names) == used {
            let ghost before = r@;
            r.push(list[n].0);
            assert(text::literals(r@) =~= text::literals(before).push(name@));
        }
        n += 1;
    }
    r
}

/// Sums up what is known of a category, if its sums fit.
fn category_stats(usage: &Vec<Usage>, category: &'static str) -> (r: Option<CategoryStats>)
    ensures
        r is Some <==> category_fits(usage@, category@),
        r matches Some(s) ==> is_stats(s, usage@, category@),
{
    let c = chars_of(category);
    let mut count: usize = 0;
    let mut saved: usize = 0;
    let mut rows: Vec<usize> = Vec::new();
    let mut n: usize = 0;
    while n < usage.len()
        invariant
            n <= usage.len(),
            c@ == category@,
            count == runs_of(usage@, category@, n as int),
            saved == saved_of(usage@, category@, n as int),
            rows@ == rows_of(usage@, category@, n as int),
        decreases usage.len() - n,
    {
        proof {
            lemma_runs_grow(usage@, category@, n + 1, usage@.len() as int);
        }
        let words = words_of(usage[n].command.as_str());
        let its = if words.len() >= 2 {
            assert(text::views(words@)[1] == words@[1]@);
            find_category(&words[1])
        } else {
            None
        };
        let belongs = match its {
            Some(name) => equals(&c, name),
            None => false,
        };
        if belongs {
            match (count.checked_add(usage[n].count), saved.checked_add(usage[n].saved)) {
                (Some(more), Some(tokens)) => {
                    count = more;
                    saved = tokens;
                    rows.push(n);
                },
                _ => {
                    return None;
                },
            }
        }
        n += 1;
    }
    let names = list_names(usage);
    let used = list_members(usage, &names, category, true);
    let unused = list_members(usage, &names, category, false);
    assert(used.len() == used_commands(usage@, category@).len()) by {
        assert(text::literals(used@).len() == used_commands(usage@, category@).len());
    }
    assert(unused.len() == unused_commands(usage@, category@).len()) by {
        assert(text::literals(unused@).len() == unused_commands(usage@, category@).len());
    }
    proof {
        lemma_member_count(usage@, category@, super::registry().len() as int);
    }
    Some(
        CategoryStats {
            category,
            used: used.len(),
            available: used.len() + unused.len(),
            unused,
            count,
            saved,
            rows,
        },
    )
}

/// Every command of a category is used or unused.
pub proof fn lemma_member_count(usage: Seq<Usage>, category: Seq<char>, n: int)
    requires
        0 <= n <= super::registry().len(),
    ensures
        members(usage, category, true, n).len() + members(usage, category, false, n).len()
            == listed(category, n),
        listed(category, n) <= n,
    decreases n,
{
    if n > 0 {
        lemma_member_count(usage, category, n - 1);
    }
}

/// Every category's sums fit.
pub open spec fn coverage_fits(usage: Seq<Usage>) -> bool {
    forall|i: int|
        0 <= i < categories().len() ==> category_fits(usage, #[trigger] categories()[i])
}

/// `stats` says of every category what the rows do.
pub open spec fn is_coverage(stats: Seq<CategoryStats>, usage: Seq<Usage>) -> bool {
    &&& stats.len() == categories().len()
    &&& forall|i: int|
        0 <= i < stats.len() ==> is_stats(#[trigger] stats[i], usage, categories()[i])
}

/// Sums up which commands are used, category by category. There is no result where a sum does
/// not fit.
pub fn coverage(usage: &Vec<Usage>) -> (r: Option<Vec<CategoryStats>>)
    ensures
        r is Some <==> coverage_fits(usage@),
        r matches Some(stats) ==> is_coverage(stats@, usage@),
{
    let list = category_order();
    let ghost all = categories();
    assert(list.len() == all.len()) by {
        assert(text::literals(list@).len() == all.len());
    }
    let mut r: Vec<CategoryStats> = Vec::new();
    let mut i: usize = 0;
    while i < list.len()
        invariant
            i <= list.len(),
            list.len() == all.len(),
            all == categories(),
            text::literals(list@) == all,
            r.len() == i,
            forall|j: int| 0 <= j < i ==> category_fits(usage@, #[trigger] all[j]),
            forall|j: int| 0 <= j < i ==> is_stats(#[trigger] r@[j], usage@, all[j]),
        decreases list.len() - i,
    {
        assert(all[i as int] == list@[i as int]@);
        match category_stats(usage, list[i]) {
            Some(stats) => {
                r.push(stats);
            },
            None => {
                assert(!category_fits(usage@, categories()[i as int]));
                return None;
            },
        }
        i += 1;
    }
    Some(r)
}

/// How many commands of each category are used.
pub open spec fn used_counts(s: Seq<CategoryStats>) -> Seq<usize> {
    Seq::new(s.len(), |i: int| s[i].used)
}

/// How many commands each category has.
pub open spec fn available_counts(s: Seq<CategoryStats>) -> Seq<usize> {
    Seq::new(s.len(), |i: int| s[i].available)
}

/// How often the commands of each category ran.
pub open spec fn run_counts(s: Seq<CategoryStats>) -> Seq<usize> {
    Seq::new(s.len(), |i: int| s[i].count)
}

/// How many tokens each category saved.
pub open spec fn saved_counts(s: Seq<CategoryStats>) -> Seq<usize> {
    Seq::new(s.len(), |i: int| s[i].saved)
}

/// The sums over all categories.
#[derive(Clone, Copy, Debug)]
pub struct Totals {
    pub used: usize,
    pub available: usize,
    pub count: usize,
    pub saved: usize,
}

/// `t` are the sums over the categories `s`.
pub open spec fn are_totals(t: Totals, s: Seq<CategoryStats>) -> bool {
    &&& t.used == number::total(used_counts(s))
    &&& t.available == number::total(available_counts(s))
    &&& t.count == number::total(run_counts(s))
    &&& t.saved == number::total(saved_counts(s))
}

/// The sums over the categories `s` fit.
pub open spec fn totals_fit(s: Seq<CategoryStats>) -> bool {
    &&& number::total(used_counts(s)) <= usize::MAX
    &&& number::total(available_counts(s)) <= usize::MAX
    &&& number::total(run_counts(s)) <= usize::MAX
    &&& number::total(saved_counts(s)) <= usize::MAX
}

/// Adds up all categories, if the sums fit.
pub fn totals(s: &Vec<CategoryStats>) -> (r: Option<Totals>)
    ensures
        r is Some <==> totals_fit(s@),
        r matches Some(t) ==> are_totals(t, s@),
{
    let mut used: Vec<usize> = Vec::new();
    let mut available: Vec<usize> = Vec::new();
    let mut count: Vec<usize> = Vec::new();
    let mut saved: Vec<usize> = Vec::new();
    let mut i: usize = 0;
    while i < s.len()
        invariant
            i <= s.len(),
            used@ =~= used_counts(s@).take(i as int),
            available@ =~= available_counts(s@).take(i as int),
            count@ =~= run_counts(s@).take(i as int),
            saved@ =~= saved_counts(s@).take(i as int),
        decreases s.len() - i,
    {
        used.push(s[i].used);
        available.push(s[i].available);
        count.push(s[i].count);
        saved.push(s[i].saved);
        i += 1;
    }
    assert(used@ =~= used_counts(s@));
    assert(available@ =~= available_counts(s@));
    assert(count@ =~= run_counts(s@));
    assert(saved@ =~= saved_counts(s@));
    match (
        number::add_up(&used),
        number::add_up(&available),
        number::add_up(&count),
        number::add_up(&saved),
    ) {
        (Some(used), Some(available), Some(count), Some(saved)) => Some(
            Totals { used, available, count, saved },
        ),
        _ => None,
    }
}

/// The categories from the largest savings to the smallest; of equal ones the first in order.
pub fn by_savings(s: &Vec<CategoryStats>) -> (r: Vec<usize>)
    ensures
        r@ == order::ranking(saved_counts(s@), s@.len() as int),
        r.len() == s.len(),
        forall|i: int| 0 <= i < r.len() ==> #[trigger] r@[i] < s.len(),
{
    let mut saved: Vec<usize> = Vec::new();
    let mut i: usize = 0;
    while i < s.len()
        invariant
            i <= s.len(),
            saved@ =~= saved_counts(s@).take(i as int),
        decreases s.len() - i,
    {
        saved.push(s[i].saved);
        i += 1;
    }
    assert(saved@ =~= saved_counts(s@));
    order::rank(&saved)
}

/// The route by which a command ran.
#[derive(Clone, Copy, Debug, PartialEq, Eq, Structural)]
pub enum Route {
    /// Through a filter of its own.
    Dedicated,
    /// Through the general filter.
    Proxy,
    /// Neither.
    Other,
}

/// The route of a command as it was run.
pub open spec fn route(cmd: Seq<char>) -> Route {
    match super::command_name(cmd) {
        None => Route::Other,
        Some(name) => if name == "proxy"@ {
            Route::Proxy
        } else if super::category(name) is Some {
            Route::Dedicated
        } else {
            Route::Other
        },
    }
}

/// Decides by which route a command ran.
pub fn route_of(cmd: &str) -> (r: Route)
    ensures
        r == route(cmd@),
{
    let words = words_of(cmd);
    if words.len() < 2 {
        return Route::Other;
    }
    assert(text::views(words@)[1] == words@[1]@);
    if equals(&words[1], "proxy") {
        Route::Proxy
    } else if find_category(&words[1]).is_some() {
        Route::Dedicated
    } else {
        Route::Other
    }
}

/// How many commands ran by a route, in the first `n` rows.
pub open spec fn routed(usage: Seq<Usage>, by: Route, n: int) -> nat
    decreases n,
{
    if n <= 0 {
        0
    } else if route(usage[n - 1].command@) == by {
        routed(usage, by, n - 1) + usage[n - 1].count as nat
    } else {
        routed(usage, by, n - 1)
    }
}

proof fn lemma_routed_grows(usage: Seq<Usage>, by: Route, n: int, m: int)
    requires
        0 <= n <= m <= usage.len(),
    ensures
        routed(usage, by, n) <= routed(usage, by, m),
    decreases m - n,
{
    if n < m {
        lemma_routed_grows(usage, by, n, m - 1);
    }
}

/// Counts the commands that ran by a route, if their number fits.
pub fn count_routed(usage: &Vec<Usage>, by: Route) -> (r: Option<usize>)
    ensures
        r is Some <==> routed(usage@, by, usage@.len() as int) <= usize::MAX,
        r matches Some(n) ==> n == routed(usage@, by, usage@.len() as int),
{
    let mut r: usize = 0;
    let mut n: usize = 0;
    while n < usage.len()
        invariant
            n <= usage.len(),
            r == routed(usage@, by, n as int),
        decreases usage.len() - n,
    {
        proof {
            lemma_routed_grows(usage@, by, n + 1, usage@.len() as int);
        }
        if route_of(usage[n].command.as_str()) == by {
            match r.checked_add(usage[n].count) {
                Some(more) => {
                    r = more;
                },
                None => {
                    return None;
                },
            }
        }
        n += 1;
    }
    Some(r)
}

/// How often all commands ran, in the first `n` rows.
pub open spec fn runs(usage: Seq<Usage>, n: int) -> nat
    decreases n,
{
    if n <= 0 {
        0
    } else {
        runs(usage, n - 1) + usage[n - 1].count as nat
    }
}

/// Every run is counted under exactly one route.
pub proof fn lemma_routes_complete(usage: Seq<Usage>, n: int)
    requires
        0 <= n <= usage.len(),
    ensures
        routed(usage, Route::Dedicated, n) + routed(usage, Route::Proxy, n) + routed(
            usage,
            Route::Other,
            n,
        ) == runs(usage, n),
    decreases n,
{
    if n > 0 {
        lemma_routes_complete(usage, n - 1);
    }
}

/// Rows that follow change nothing in what the rows before them add up to.
proof fn lemma_rows_before(a: Seq<Usage>, b: Seq<Usage>, category: Seq<char>, n: int)
    requires
        0 <= n <= a.len(),
    ensures
        runs_of(a + b, category, n) == runs_of(a, category, n),
        saved_of(a + b, category, n) == saved_of(a, category, n),
    decreases n,
{
    if n > 0 {
        lemma_rows_before(a, b, category, n - 1);
        assert((a + b)[n - 1] == a[n - 1]);
    }
}

proof fn lemma_rows_after(a: Seq<Usage>, b: Seq<Usage>, category: Seq<char>, n: int)
    requires
        0 <= n <= b.len(),
    ensures
        runs_of(a + b, category, a.len() + n) == runs_of(a, category, a.len() as int) + runs_of(
            b,
            category,
            n,
        ),
        saved_of(a + b, category, a.len() + n) == saved_of(a, category, a.len() as int) + saved_of(
            b,
            category,
            n,
        ),
    decreases n,
{
    if n > 0 {
        lemma_rows_after(a, b, category, n - 1);
        assert((a + b)[a.len() + n - 1] == b[n - 1]);
    } else {
        lemma_rows_before(a, b, category, a.len() as int);
    }
}

/// Runs and saved tokens add up: what is known of a category over two lists of rows together
/// is the sum of what is known over each.
pub proof fn lemma_coverage_adds(
    a: Seq<Usage>,
    b: Seq<Usage>,
    category: Seq<char>,
    of_a: CategoryStats,
    of_b: CategoryStats,
    of_both: CategoryStats,
)
    requires
        is_stats(of_a, a, category),
        is_stats(of_b, b, category),
        is_stats(of_both, a + b, category),
    ensures
        of_both.count == of_a.count + of_b.count,
        of_both.saved == of_a.saved + of_b.saved,
{
    lemma_rows_after(a, b, category, b.len() as int);
}

/// One row counts in its own category, with all its runs and all its saved tokens, and in no
/// other; and no rows count nothing.
pub proof fn lemma_coverage_of_row(row: Usage, category: Seq<char>, s: CategoryStats)
    ensures
        is_stats(s, seq![row], category) && super::category_name(row.command@) == Some(category)
            ==> s.count == row.count && s.saved == row.saved,
        is_stats(s, seq![row], category) && super::category_name(row.command@) != Some(category)
            ==> s.count == 0 && s.saved == 0,
        is_stats(s, Seq::empty(), category) ==> s.count == 0 && s.saved == 0,
{
    reveal_with_fuel(runs_of, 2);
    reveal_with_fuel(saved_of, 2);
}

proof fn lemma_rows(usage: Seq<Usage>, category: Seq<char>, n: int)
    requires
        0 <= n <= usage.len() <= usize::MAX,
    ensures
        forall|j: int|
            0 <= j < rows_of(usage, category, n).len() ==> (#[trigger] rows_of(
                usage,
                category,
                n,
            )[j]) < n && super::category_name(usage[rows_of(usage, category, n)[j] as int].command@)
                == Some(category),
        forall|j: int, k: int|
            0 <= j < k < rows_of(usage, category, n).len() ==> #[trigger] rows_of(
                usage,
                category,
                n,
            )[j] < #[trigger] rows_of(usage, category, n)[k],
        forall|i: int|
            0 <= i < n && super::category_name((#[trigger] usage[i]).command@) == Some(category)
                ==> rows_of(usage, category, n).contains(i as usize),
        rows_of(usage, category, n).fold_left(0int, |t: int, i: usize| t + usage[i as int].saved)
            == saved_of(usage, category, n),
        rows_of(usage, category, n).fold_left(0int, |t: int, i: usize| t + usage[i as int].count)
            == runs_of(usage, category, n),
    decreases n,
{
    reveal(Seq::fold_left);
    if n > 0 {
        lemma_rows(usage, category, n - 1);
        let before = rows_of(usage, category, n - 1);
        let now = rows_of(usage, category, n);
        if super::category_name(usage[n - 1].command@) == Some(category) {
            assert(now.drop_last() =~= before);
            assert forall|i: int|
                0 <= i < n && super::category_name((#[trigger] usage[i]).command@) == Some(
                    category,
                ) implies now.contains(i as usize) by {
                if i == n - 1 {
                    assert(now[before.len() as int] == i as usize);
                } else {
                    assert(before.contains(i as usize));
                    let j = choose|j: int| 0 <= j < before.len() && before[j] == i as usize;
                    assert(now[j] == i as usize);
                }
            }
        }
    }
}

/// The rows of a category are the rows whose command has that category, each once and in
/// their order, and its runs and saved tokens are the sums over them.
pub proof fn lemma_coverage_rows(usage: Seq<Usage>, category: Seq<char>, s: CategoryStats)
    requires
        is_stats(s, usage, category),
        usage.len() <= usize::MAX,
    ensures
        forall|i: int|
            0 <= i < usage.len() ==> (s.rows@.contains(i as usize) <==> super::category_name(
                (#[trigger] usage[i]).command@,
            ) == Some(category)),
        forall|j: int, k: int|
            0 <= j < k < s.rows@.len() ==> #[trigger] s.rows@[j] < #[trigger] s.rows@[k],
        forall|j: int| 0 <= j < s.rows@.len() ==> #[trigger] s.rows@[j] < usage.len(),
        s.saved == s.rows@.fold_left(0int, |t: int, i: usize| t + usage[i as int].saved),
        s.count == s.rows@.fold_left(0int, |t: int, i: usize| t + usage[i as int].count),
{
    lemma_rows(usage, category, usage.len() as int);
    assert forall|i: int| 0 <= i < usage.len() implies (s.rows@.contains(i as usize)
        <==> super::category_name((#[trigger] usage[i]).command@) == Some(category)) by {
        if s.rows@.contains(i as usize) {
            let j = choose|j: int| 0 <= j < s.rows@.len() && s.rows@[j] == i as usize;
            assert(super::category_name(usage[s.rows@[j] as int].command@) == Some(category));
        }
    }
}

proof fn lemma_members(usage: Seq<Usage>, category: Seq<char>, used: bool, n: int)
    requires
        0 <= n <= super::registry().len(),
    ensures
        members(usage, category, used, n) == super::registry().take(n).filter(
            |e: (Seq<char>, Seq<char>)| e.1 == category && is_used(usage, e.0) == used,
        ).map_values(|e: (Seq<char>, Seq<char>)| e.0),
    decreases n,
{
    reveal(Seq::filter);
    let all = super::registry().take(n);
    let p = |e: (Seq<char>, Seq<char>)| e.1 == category && is_used(usage, e.0) == used;
    if n > 0 {
        lemma_members(usage, category, used, n - 1);
        let before = super::registry().take(n - 1);
        assert(all.drop_last() =~= before);
        assert(all.last() == super::registry()[n - 1]);
        let f = |e: (Seq<char>, Seq<char>)| e.0;
        if p(all.last()) {
            assert(all.filter(p) == before.filter(p).push(all.last()));
            assert(all.filter(p).map_values(f) =~= before.filter(p).map_values(f).push(
                all.last().0,
            ));
        }
        assert(members(usage, category, used, n) =~= all.filter(p).map_values(f));
    } else {
        assert(all =~= Seq::<(Seq<char>, Seq<char>)>::empty());
        assert(all.filter(p) =~= Seq::<(Seq<char>, Seq<char>)>::empty());
        assert(members(usage, category, used, n) =~= Seq::<Seq<char>>::empty());
    }
}

/// The unused commands of a category are the commands of the registry that have it and that
/// are the second word of no row, all of them and in their order. The used commands are those
/// of its commands that are the second word of a row, and the available ones are both.
pub proof fn lemma_coverage_commands(usage: Seq<Usage>, category: Seq<char>, s: CategoryStats)
    requires
        is_stats(s, usage, category),
    ensures
        text::literals(s.unused@) == super::registry().filter(
            |e: (Seq<char>, Seq<char>)|
                e.1 == category && !(exists|i: int|
                    0 <= i < usage.len() && text::words((#[trigger] usage[i]).command@).len() >= 2
                        && text::words(usage[i].command@)[1] == e.0),
        ).map_values(|e: (Seq<char>, Seq<char>)| e.0),
        s.used == super::registry().filter(
            |e: (Seq<char>, Seq<char>)|
                e.1 == category && exists|i: int|
                    0 <= i < usage.len() && text::words((#[trigger] usage[i]).command@).len() >= 2
                        && text::words(usage[i].command@)[1] == e.0,
        ).len(),
        s.available == s.used + s.unused@.len(),
{
    let n = super::registry().len() as int;
    assert(super::registry().take(n) =~= super::registry());
    let p = |e: (Seq<char>, Seq<char>)| e.1 == category && is_used(usage, e.0) == true;
    let q = |e: (Seq<char>, Seq<char>)| e.1 == category && is_used(usage, e.0) == false;
    let p1 = |e: (Seq<char>, Seq<char>)|
        e.1 == category && exists|i: int|
            0 <= i < usage.len() && text::words((#[trigger] usage[i]).command@).len() >= 2
                && text::words(usage[i].command@)[1] == e.0;
    let q1 = |e: (Seq<char>, Seq<char>)|
        e.1 == category && !(exists|i: int|
            0 <= i < usage.len() && text::words((#[trigger] usage[i]).command@).len() >= 2
                && text::words(usage[i].command@)[1] == e.0);
    lemma_members(usage, category, true, n);
    lemma_members(usage, category, false, n);
    lemma_member_count(usage, category, n);
    assert forall|e: (Seq<char>, Seq<char>)| #[trigger] p(e) == p1(e) && q(e) == q1(e) by {
        lemma_is_used(usage, e.0);
    }
    assert(p =~= p1);
    assert(q =~= q1) by {
        assert forall|e: (Seq<char>, Seq<char>)| #[trigger] q(e) == q1(e) by {
            assert(p(e) == p1(e));
        }
    }
    assert(text::literals(s.unused@).len() == s.unused@.len());
}

proof fn lemma_is_used(usage: Seq<Usage>, name: Seq<char>)
    ensures
        is_used(usage, name) <==> exists|i: int|
            0 <= i < usage.len() && text::words((#[trigger] usage[i]).command@).len() >= 2
                && text::words(usage[i].command@)[1] == name,
{
    if is_used(usage, name) {
        let i = choose|i: int|
            0 <= i < usage.len() && super::command_name((#[trigger] usage[i]).command@) == Some(
                name,
            );
        assert(text::words(usage[i].command@).len() >= 2);
    }
    if exists|i: int|
        0 <= i < usage.len() && text::words((#[trigger] usage[i]).command@).len() >= 2
            && text::words(usage[i].command@)[1] == name {
        let i = choose|i: int|
            0 <= i < usage.len() && text::words((#[trigger] usage[i]).command@).len() >= 2
                && text::words(usage[i].command@)[1] == name;
        assert(super::command_name(usage[i].command@) == Some(name));
    }
}

/// No two categories have the same name, and every command of the registry has one of them.
proof fn lemma_categories()
    ensures
        categories().len() == 9,
        forall|i: int, j: int|
            0 <= i < j < categories().len() ==> #[trigger] categories()[i]
                != #[trigger] categories()[j],
        forall|i: int|
            0 <= i < super::registry().len() ==> categories().contains(
                (#[trigger] super::registry()[i]).1,
            ),
{
    let c = categories();
    reveal_strlit("Git & VCS");
    reveal_strlit("Build & Compile");
    reveal_strlit("Test");
    reveal_strlit("Languages");
    reveal_strlit("Package Managers");
    reveal_strlit("Files & Search");
    reveal_strlit("Analysis & Debug");
    reveal_strlit("Infrastructure");
    reveal_strlit("Meta Commands");
    assert(c[0].len() == 9 && c[0][0] == 'G');
    assert(c[1].len() == 15 && c[1][0] == 'B');
    assert(c[2].len() == 4 && c[2][0] == 'T');
    assert(c[3].len() == 9 && c[3][0] == 'L');
    assert(c[4].len() == 16 && c[4][0] == 'P');
    assert(c[5].len() == 14 && c[5][0] == 'F');
    assert(c[6].len() == 16 && c[6][0] == 'A');
    assert(c[7].len() == 14 && c[7][0] == 'I');
    assert(c[8].len() == 13 && c[8][0] == 'M');
    assert forall|i: int| 0 <= i < super::registry().len() implies c.contains(
        (#[trigger] super::registry()[i]).1,
    ) by {
        let x = super::registry()[i].1;
        assert(x == c[0] || x == c[1] || x == c[2] || x == c[3] || x == c[4] || x == c[5] || x
            == c[6] || x == c[7] || x == c[8]);
    }
}

/// The sum over the first `m` categories of what they saved in the first `n` rows.
spec fn saved_in(usage: Seq<Usage>, m: int, n: int) -> nat
    decreases m,
{
    if m <= 0 {
        0
    } else {
        saved_in(usage, m - 1, n) + saved_of(usage, categories()[m - 1], n)
    }
}

/// The sum over the first `m` categories of how often their commands ran, in the first `n`
/// rows.
spec fn runs_in(usage: Seq<Usage>, m: int, n: int) -> nat
    decreases m,
{
    if m <= 0 {
        0
    } else {
        runs_in(usage, m - 1, n) + runs_of(usage, categories()[m - 1], n)
    }
}

proof fn lemma_one_more_row(usage: Seq<Usage>, m: int, n: int)
    requires
        0 <= m <= categories().len(),
        0 < n <= usage.len(),
    ensures
        ({
            let hit = exists|i: int|
                0 <= i < m && super::category_name(usage[n - 1].command@) == Some(
                    #[trigger] categories()[i],
                );
            &&& saved_in(usage, m, n) == saved_in(usage, m, n - 1) + if hit {
                usage[n - 1].saved as nat
            } else {
                0
            }
            &&& runs_in(usage, m, n) == runs_in(usage, m, n - 1) + if hit {
                usage[n - 1].count as nat
            } else {
                0
            }
        }),
    decreases m,
{
    lemma_categories();
    let mine = super::category_name(usage[n - 1].command@);
    if m > 0 {
        lemma_one_more_row(usage, m - 1, n);
        if mine == Some(categories()[m - 1]) {
            assert forall|i: int| 0 <= i < m - 1 implies mine != Some(
                #[trigger] categories()[i],
            ) by {
                assert(categories()[i] != categories()[m - 1]);
            }
        }
    }
}

proof fn lemma_saved_up_to(usage: Seq<Usage>, n: int)
    requires
        0 <= n <= usage.len(),
    ensures
        saved_in(usage, 9, n) + number::total(
            usage.take(n).filter(
                |u: Usage| super::category_name(u.command@) is None,
            ).map_values(|u: Usage| u.saved),
        ) == number::total(usage.take(n).map_values(|u: Usage| u.saved)),
        runs_in(usage, 9, n) + number::total(
            usage.take(n).filter(
                |u: Usage| super::category_name(u.command@) is None,
            ).map_values(|u: Usage| u.count),
        ) == number::total(usage.take(n).map_values(|u: Usage| u.count)),
    decreases n,
{
    reveal(Seq::filter);
    lemma_categories();
    let all = usage.take(n);
    let p = |u: Usage| super::category_name(u.command@) is None;
    let saved = |u: Usage| u.saved;
    let count = |u: Usage| u.count;
    if n > 0 {
        let before = usage.take(n - 1);
        let row = usage[n - 1];
        lemma_saved_up_to(usage, n - 1);
        lemma_one_more_row(usage, 9, n);
        assert(all.drop_last() =~= before);
        assert(all.last() == row);
        assert(all.map_values(saved) =~= before.map_values(saved).push(row.saved));
        assert(all.map_values(count) =~= before.map_values(count).push(row.count));
        number::lemma_total_push(before.map_values(saved), row.saved);
        number::lemma_total_push(before.map_values(count), row.count);
        if p(row) {
            assert(all.filter(p) == before.filter(p).push(row));
            assert(all.filter(p).map_values(saved) =~= before.filter(p).map_values(saved).push(
                row.saved,
            ));
            assert(all.filter(p).map_values(count) =~= before.filter(p).map_values(count).push(
                row.count,
            ));
            number::lemma_total_push(before.filter(p).map_values(saved), row.saved);
            number::lemma_total_push(before.filter(p).map_values(count), row.count);
        } else {
            let name = super::command_name(row.command@)->0;
            super::lemma_category(name);
            let c = super::category_name(row.command@)->0;
            let k = choose|k: int|
                0 <= k < super::registry().len() && super::registry()[k] == (name, c);
            assert(categories().contains(super::registry()[k].1));
            let i = choose|i: int| 0 <= i < categories().len() && categories()[i] == c;
            assert(super::category_name(row.command@) == Some(categories()[i]));
        }
    } else {
        assert(all =~= Seq::<Usage>::empty());
        assert(all.filter(p) =~= Seq::<Usage>::empty());
        assert(all.map_values(saved) =~= Seq::<usize>::empty());
        assert(all.map_values(count) =~= Seq::<usize>::empty());
        assert(all.filter(p).map_values(saved) =~= Seq::<usize>::empty());
        assert(all.filter(p).map_values(count) =~= Seq::<usize>::empty());
        reveal_with_fuel(saved_in, 10);
        reveal_with_fuel(runs_in, 10);
    }
}

proof fn lemma_saved_in(stats: Seq<CategoryStats>, usage: Seq<Usage>, m: int)
    requires
        is_coverage(stats, usage),
        0 <= m <= stats.len(),
    ensures
        saved_in(usage, m, usage.len() as int) == number::total(saved_counts(stats).take(m)),
        runs_in(usage, m, usage.len() as int) == number::total(run_counts(stats).take(m)),
    decreases m,
{
    if m > 0 {
        lemma_saved_in(stats, usage, m - 1);
        assert(is_stats(stats[m - 1], usage, categories()[m - 1]));
        assert(saved_counts(stats).take(m) =~= saved_counts(stats).take(m - 1).push(
            stats[m - 1].saved,
        ));
        assert(run_counts(stats).take(m) =~= run_counts(stats).take(m - 1).push(
            stats[m - 1].count,
        ));
        number::lemma_total_push(saved_counts(stats).take(m - 1), stats[m - 1].saved);
        number::lemma_total_push(run_counts(stats).take(m - 1), stats[m - 1].count);
    }
}

/// Nothing is lost and nothing counts twice: what all categories saved and what the rows
/// without a category saved add up to what all rows saved, and so do the runs.
pub proof fn lemma_coverage_complete(stats: Seq<CategoryStats>, usage: Seq<Usage>, t: Totals)
    requires
        is_coverage(stats, usage),
        are_totals(t, stats),
    ensures
        t.saved + number::total(
            usage.filter(|u: Usage| super::category_name(u.command@) is None).map_values(
                |u: Usage| u.saved,
            ),
        ) == number::total(usage.map_values(|u: Usage| u.saved)),
        t.count + number::total(
            usage.filter(|u: Usage| super::category_name(u.command@) is None).map_values(
                |u: Usage| u.count,
            ),
        ) == number::total(usage.map_values(|u: Usage| u.count)),
{
    lemma_categories();
    lemma_saved_up_to(usage, usage.len() as int);
    lemma_saved_in(stats, usage, stats.len() as int);
    assert(usage.take(usage.len() as int) =~= usage);
    assert(saved_counts(stats).take(stats.len() as int) =~= saved_counts(stats));
    assert(run_counts(stats).take(stats.len() as int) =~= run_counts(stats));
}

/// The totals are the sums over the categories: another category adds all its numbers, and
/// without categories they are nothing.
pub proof fn lemma_totals_add(s: Seq<CategoryStats>, x: CategoryStats, t: Totals, more: Totals)
    requires
        are_totals(t, s),
        are_totals(more, s.push(x)),
    ensures
        more.used == t.used + x.used,
        more.available == t.available + x.available,
        more.count == t.count + x.count,
        more.saved == t.saved + x.saved,
        s.len() == 0 ==> t.used == 0 && t.available == 0 && t.count == 0 && t.saved == 0,
{
    assert(used_counts(s.push(x)) =~= used_counts(s).push(x.used));
    assert(available_counts(s.push(x)) =~= available_counts(s).push(x.available));
    assert(run_counts(s.push(x)) =~= run_counts(s).push(x.count));
    assert(saved_counts(s.push(x)) =~= saved_counts(s).push(x.saved));
    number::lemma_total_push(used_counts(s), x.used);
    number::lemma_total_push(available_counts(s), x.available);
    number::lemma_total_push(run_counts(s), x.count);
    number::lemma_total_push(saved_counts(s), x.saved);
}

/// A command runs by the general filter if it is `proxy`, by a filter of its own if it is
/// another command of the registry, else by neither.
pub proof fn lemma_route(cmd: Seq<char>)
    ensures
        route(cmd) == Route::Proxy <==> text::words(cmd).len() >= 2 && text::words(cmd)[1]
            == "proxy"@,
        route(cmd) == Route::Dedicated <==> text::words(cmd).len() >= 2 && text::words(cmd)[1]
            != "proxy"@ && exists|i: int|
            0 <= i < super::registry().len() && (#[trigger] super::registry()[i]).0 == text::words(
                cmd,
            )[1],
{
    if text::words(cmd).len() >= 2 {
        super::lemma_category(text::words(cmd)[1]);
    }
}

proof fn lemma_routed_before(a: Seq<Usage>, b: Seq<Usage>, by: Route, n: int)
    requires
        0 <= n <= a.len(),
    ensures
        routed(a + b, by, n) == routed(a, by, n),
    decreases n,
{
    if n > 0 {
        lemma_routed_before(a, b, by, n - 1);
        assert((a + b)[n - 1] == a[n - 1]);
    }
}

proof fn lemma_routed_after(a: Seq<Usage>, b: Seq<Usage>, by: Route, n: int)
    requires
        0 <= n <= b.len(),
    ensures
        routed(a + b, by, a.len() + n) == routed(a, by, a.len() as int) + routed(b, by, n),
    decreases n,
{
    if n > 0 {
        lemma_routed_after(a, b, by, n - 1);
        assert((a + b)[a.len() + n - 1] == b[n - 1]);
    } else {
        lemma_routed_before(a, b, by, a.len() as int);
    }
}

/// Routed commands add up over two lists of rows, one row counts by its own route with all its
/// runs and by no other, and no rows count nothing.
pub proof fn lemma_routed_adds(a: Seq<Usage>, b: Seq<Usage>, row: Usage, by: Route)
    ensures
        routed(a + b, by, (a + b).len() as int) == routed(a, by, a.len() as int) + routed(
            b,
            by,
            b.len() as int,
        ),
        routed(seq![row], by, 1) == if route(row.command@) == by {
            row.count as nat
        } else {
            0
        },
        routed(Seq::empty(), by, 0) == 0,
{
    reveal_with_fuel(routed, 2);
    lemma_routed_after(a, b, by, b.len() as int);
}

proof fn lemma_within(usage: Seq<Usage>, category: Seq<char>, n: int)
    requires
        0 <= n <= usage.len(),
    ensures
        runs_of(usage, category, n) <= number::sum(usage.map_values(|u: Usage| u.count), n),
        saved_of(usage, category, n) <= number::sum(usage.map_values(|u: Usage| u.saved), n),
    decreases n,
{
    if n > 0 {
        lemma_within(usage, category, n - 1);
    }
}

/// The coverage is there for all rows whose runs and savings add up to numbers that fit.
pub proof fn lemma_coverage_owed(usage: Seq<Usage>)
    requires
        number::total(usage.map_values(|u: Usage| u.count)) <= usize::MAX,
        number::total(usage.map_values(|u: Usage| u.saved)) <= usize::MAX,
    ensures
        coverage_fits(usage),
{
    assert forall|i: int| 0 <= i < categories().len() implies category_fits(
        usage,
        #[trigger] categories()[i],
    ) by {
        lemma_within(usage, categories()[i], usage.len() as int);
    }
}

/// The totals are there for all categories whose numbers add up to numbers that fit.
pub proof fn lemma_totals_owed(s: Seq<CategoryStats>)
    requires
        number::total(s.map_values(|c: CategoryStats| c.used)) <= usize::MAX,
        number::total(s.map_values(|c: CategoryStats| c.available)) <= usize::MAX,
        number::total(s.map_values(|c: CategoryStats| c.count)) <= usize::MAX,
        number::total(s.map_values(|c: CategoryStats| c.saved)) <= usize::MAX,
    ensures
        totals_fit(s),
{
    assert(used_counts(s) =~= s.map_values(|c: CategoryStats| c.used));
    assert(available_counts(s) =~= s.map_values(|c: CategoryStats| c.available));
    assert(run_counts(s) =~= s.map_values(|c: CategoryStats| c.count));
    assert(saved_counts(s) =~= s.map_values(|c: CategoryStats| c.saved));
}

}
