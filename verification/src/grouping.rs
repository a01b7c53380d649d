//! Grouping of equal keys: how often each occurs, and what its amounts add up to.

use vstd::prelude::*;

use crate::text;
use crate::text::same;

verus! {

/// A group of equal keys: the position of the first of them, their number, and the sum of
/// their amounts.
pub struct Group {
    pub first: usize,
    pub count: usize,
    pub total: usize,
}

/// How many of the first `n` keys equal `k`.
pub open spec fn occurrences(keys: Seq<Seq<char>>, k: Seq<char>, n: int) -> nat
    decreases n,
{
    if n <= 0 {
        0
    } else if keys[n - 1] == k {
        occurrences(keys, k, n - 1) + 1
    } else {
        occurrences(keys, k, n - 1)
    }
}

/// What the amounts of the keys that equal `k` add up to, among the first `n`.
pub open spec fn amount(keys: Seq<Seq<char>>, amounts: Seq<usize>, k: Seq<char>, n: int) -> nat
    decreases n,
{
    if n <= 0 {
        0
    } else if keys[n - 1] == k {
        amount(keys, amounts, k, n - 1) + amounts[n - 1] as nat
    } else {
        amount(keys, amounts, k, n - 1)
    }
}

/// No key before position `i` equals the one there.
pub open spec fn is_first(keys: Seq<Seq<char>>, i: int) -> bool {
    forall|j: int| 0 <= j < i ==> #[trigger] keys[j] != keys[i]
}

/// The positions below `n` of keys that did not occur before.
pub open spec fn firsts(keys: Seq<Seq<char>>, n: int) -> Seq<int>
    decreases n,
{
    if n <= 0 {
        Seq::empty()
    } else if is_first(keys, n - 1) {
        firsts(keys, n - 1).push(n - 1)
    } else {
        firsts(keys, n - 1)
    }
}

/// The groups of the first `n` keys, in the order of their first keys.
pub open spec fn grouped(keys: Seq<Seq<char>>, amounts: Seq<usize>, n: int) -> Seq<
    (int, nat, nat),
> {
    let f = firsts(keys, n);
    Seq::new(
        f.len(),
        |g: int| (f[g], occurrences(keys, keys[f[g]], n), amount(keys, amounts, keys[f[g]], n)),
    )
}

/// The values of a list of groups.
pub open spec fn values(v: Seq<Group>) -> Seq<(int, nat, nat)> {
    Seq::new(v.len(), |g: int| (v[g].first as int, v[g].count as nat, v[g].total as nat))
}

/// The sums of the amounts of each key fit.
pub open spec fn amounts_fit(keys: Seq<Seq<char>>, amounts: Seq<usize>) -> bool {
    forall|i: int|
        0 <= i < keys.len() ==> amount(keys, amounts, #[trigger] keys[i], keys.len() as int)
            <= usize::MAX
}

/// One of the groups of the first `n` keys has the key at `i`.
pub open spec fn belongs(keys: Seq<Seq<char>>, n: int, i: int) -> bool {
    exists|g: int| 0 <= g < firsts(keys, n).len() && keys[#[trigger] firsts(keys, n)[g]] == keys[i]
}

/// The groups have different keys, and every key belongs to a group.
pub proof fn lemma_firsts(keys: Seq<Seq<char>>, n: int)
    requires
        0 <= n <= keys.len(),
    ensures
        firsts(keys, n).len() <= n,
        forall|g: int| 0 <= g < firsts(keys, n).len() ==> 0 <= #[trigger] firsts(keys, n)[g] < n,
        forall|g: int, h: int|
            0 <= g < h < firsts(keys, n).len() ==> #[trigger] firsts(keys, n)[g]
                < #[trigger] firsts(keys, n)[h] && keys[firsts(keys, n)[g]] != keys[firsts(
                keys,
                n,
            )[h]],
        forall|i: int| 0 <= i < n ==> #[trigger] belongs(keys, n, i),
    decreases n,
{
    if n > 0 {
        lemma_firsts(keys, n - 1);
        let f = firsts(keys, n - 1);
        let whole = firsts(keys, n);
        assert forall|i: int| 0 <= i < n implies #[trigger] belongs(keys, n, i) by {
            let j = if i < n - 1 {
                i
            } else if is_first(keys, i) {
                i
            } else {
                choose|j: int| 0 <= j < i && #[trigger] keys[j] == keys[i]
            };
            if j == n - 1 {
                assert(keys[whole[f.len() as int]] == keys[i]);
            } else {
                assert(belongs(keys, n - 1, j));
                let g = choose|g: int| 0 <= g < f.len() && keys[#[trigger] f[g]] == keys[j];
                assert(whole[g] == f[g]);
            }
        }
    }
}

/// A key occurs at most as often as there are keys, and never where none equals it.
pub proof fn lemma_occurrences(keys: Seq<Seq<char>>, k: Seq<char>, n: int)
    requires
        0 <= n <= keys.len(),
    ensures
        occurrences(keys, k, n) <= n,
        (forall|i: int| 0 <= i < n ==> #[trigger] keys[i] != k) ==> occurrences(keys, k, n) == 0,
        (exists|i: int| 0 <= i < n && #[trigger] keys[i] == k) ==> occurrences(keys, k, n) > 0,
    decreases n,
{
    if n > 0 {
        lemma_occurrences(keys, k, n - 1);
    }
}

/// Where no key equals `k`, its amounts add up to nothing.
pub proof fn lemma_no_amount(keys: Seq<Seq<char>>, amounts: Seq<usize>, k: Seq<char>, n: int)
    requires
        0 <= n <= keys.len(),
        forall|i: int| 0 <= i < n ==> #[trigger] keys[i] != k,
    ensures
        amount(keys, amounts, k, n) == 0,
    decreases n,
{
    if n > 0 {
        lemma_no_amount(keys, amounts, k, n - 1);
    }
}

proof fn lemma_amount_grows(
    keys: Seq<Seq<char>>,
    amounts: Seq<usize>,
    k: Seq<char>,
    n: int,
    m: int,
)
    requires
        0 <= n <= m <= keys.len(),
    ensures
        amount(keys, amounts, k, n) <= amount(keys, amounts, k, m),
    decreases m - n,
{
    if n < m {
        lemma_amount_grows(keys, amounts, k, n, m - 1);
    }
}

proof fn lemma_known_key(keys: Seq<Seq<char>>, amounts: Seq<usize>, n: int, g: int)
    requires
        0 <= n < keys.len(),
        0 <= g < firsts(keys, n).len(),
        keys[firsts(keys, n)[g]] == keys[n],
    ensures
        grouped(keys, amounts, n + 1) == grouped(keys, amounts, n).update(
            g,
            (
                firsts(keys, n)[g],
                occurrences(keys, keys[n], n) + 1,
                amount(keys, amounts, keys[n], n) + amounts[n] as nat,
            ),
        ),
{
    let f = firsts(keys, n);
    lemma_firsts(keys, n);
    assert(0 <= f[g] < n);
    assert(!is_first(keys, n));
    assert(firsts(keys, n + 1) == f);
    assert forall|h: int| 0 <= h < f.len() && h != g implies keys[#[trigger] f[h]] != keys[n] by {
        if h < g {
            assert(keys[f[h]] != keys[f[g]]);
        } else {
            assert(keys[f[g]] != keys[f[h]]);
        }
    }
    assert(grouped(keys, amounts, n + 1) =~= grouped(keys, amounts, n).update(
        g,
        (
            f[g],
            occurrences(keys, keys[n], n) + 1,
            amount(keys, amounts, keys[n], n) + amounts[n] as nat,
        ),
    ));
}

proof fn lemma_new_key(keys: Seq<Seq<char>>, amounts: Seq<usize>, n: int)
    requires
        0 <= n < keys.len(),
        forall|g: int|
            0 <= g < firsts(keys, n).len() ==> keys[#[trigger] firsts(keys, n)[g]] != keys[n],
    ensures
        grouped(keys, amounts, n + 1) == grouped(keys, amounts, n).push(
            (n, 1, amounts[n] as nat),
        ),
{
    let f = firsts(keys, n);
    lemma_firsts(keys, n);
    assert forall|j: int| 0 <= j < n implies #[trigger] keys[j] != keys[n] by {
        assert(belongs(keys, n, j));
        let h = choose|h: int| 0 <= h < f.len() && keys[#[trigger] f[h]] == keys[j];
        assert(keys[f[h]] != keys[n]);
    }
    assert(firsts(keys, n + 1) == f.push(n));
    lemma_occurrences(keys, keys[n], n);
    lemma_no_amount(keys, amounts, keys[n], n);
    assert forall|h: int| 0 <= h < f.len() implies #[trigger] f.push(n)[h] == f[h] && keys[f[h]]
        != keys[n] by {}
    assert(grouped(keys, amounts, n + 1) =~= grouped(keys, amounts, n).push(
        (n, 1, amounts[n] as nat),
    ));
}

/// The position of the group to which the key at `n` belongs, or the number of groups.
fn find_group(keys: &Vec<Vec<char>>, groups: &Vec<Group>, n: usize) -> (r: usize)
    requires
        n < keys.len(),
        groups.len() == firsts(text::views(keys@), n as int).len(),
        forall|g: int|
            0 <= g < groups@.len() ==> #[trigger] groups@[g].first == firsts(
                text::views(keys@),
                n as int,
            )[g],
    ensures
        r <= groups.len(),
        r < groups.len() ==> text::views(keys@)[firsts(
            text::views(keys@),
            n as int,
        )[r as int]] == text::views(keys@)[n as int],
        r == groups.len() ==> forall|g: int|
            0 <= g < groups@.len() ==> text::views(keys@)[#[trigger] firsts(
                text::views(keys@),
                n as int,
            )[g]] != text::views(keys@)[n as int],
{
    let ghost all = text::views(keys@);
    let ghost f = firsts(all, n as int);
    proof {
        lemma_firsts(all, n as int);
    }
    let mut g: usize = 0;
    while g < groups.len()
        invariant
            g <= groups.len(),
            n < keys.len(),
            groups.len() == f.len(),
            all == text::views(keys@),
            f == firsts(all, n as int),
            forall|h: int| 0 <= h < groups@.len() ==> #[trigger] groups@[h].first == f[h],
            forall|h: int| 0 <= h < f.len() ==> 0 <= #[trigger] f[h] < n,
            forall|h: int| 0 <= h < g ==> all[#[trigger] f[h]] != all[n as int],
        decreases groups.len() - g,
    {
        assert(groups@[g as int].first == f[g as int]);
        if same(&keys[groups[g].first], &keys[n]) {
            return g;
        }
        g += 1;
    }
    g
}

/// Groups equal keys, if the sums of their amounts fit.
pub fn group(keys: &Vec<Vec<char>>, amounts: &Vec<usize>) -> (r: Option<Vec<Group>>)
    requires
        keys.len() == amounts.len(),
    ensures
        r is Some <==> amounts_fit(text::views(keys@), amounts@),
        r matches Some(v) ==> values(v@) == grouped(
            text::views(keys@),
            amounts@,
            keys@.len() as int,
        ),
{
    let ghost all = text::views(keys@);
    let mut r: Vec<Group> = Vec::new();
    let mut i: usize = 0;
    assert(values(r@) =~= grouped(all, amounts@, 0));
    while i < keys.len()
        invariant
            i <= keys.len(),
            keys.len() == amounts.len(),
            all == text::views(keys@),
            values(r@) == grouped(all, amounts@, i as int),
            forall|j: int|
                0 <= j < i ==> amount(all, amounts@, #[trigger] all[j], i as int) <= usize::MAX,
        decreases keys.len() - i,
    {
        let ghost before = values(r@);
        proof {
            assert(before.len() == firsts(all, i as int).len());
            assert forall|g: int| 0 <= g < r@.len() implies #[trigger] r@[g].first == firsts(
                all,
                i as int,
            )[g] by {
                assert(grouped(all, amounts@, i as int)[g].0 == firsts(all, i as int)[g]);
                assert(before[g].0 == r@[g].first);
            }
        }
        let g = find_group(keys, &r, i);
        if g < r.len() {
            let first: usize = r[g].first;
            let count: usize = r[g].count;
            let total: usize = r[g].total;
            proof {
                lemma_known_key(all, amounts@, i as int, g as int);
                lemma_occurrences(all, all[i as int], i as int);
                lemma_amount_grows(all, amounts@, all[i as int], i + 1, all.len() as int);
                assert(before[g as int] == (first as int, count as nat, total as nat));
            }
            match total.checked_add(amounts[i]) {
                Some(sum) => {
                    r.set(g, Group { first, count: count + 1, total: sum });
                    assert(values(r@) =~= before.update(
                        g as int,
                        (first as int, (count + 1) as nat, sum as nat),
                    ));
                },
                None => {
                    return None;
                },
            }
        } else {
            proof {
                lemma_new_key(all, amounts@, i as int);
                assert(grouped(all, amounts@, i + 1)[before.len() as int] == (
                    i as int,
                    1nat,
                    amounts@[i as int] as nat,
                ));
            }
            r.push(Group { first: i, count: 1, total: amounts[i] });
            assert(values(r@) =~= before.push((i as int, 1, amounts@[i as int] as nat)));
        }
        i += 1;
        proof {
            assert forall|j: int| 0 <= j < i implies amount(
                all,
                amounts@,
                #[trigger] all[j],
                i as int,
            ) <= usize::MAX by {
                if all[j] == all[i - 1] {
                    assert(values(r@)[g as int] == grouped(all, amounts@, i as int)[g as int]);
                }
            }
        }
    }
    Some(r)
}

/// What the counts of the first `m` groups add up to.
pub open spec fn count_sum(g: Seq<(int, nat, nat)>, m: int) -> nat
    decreases m,
{
    if m <= 0 {
        0
    } else {
        count_sum(g, m - 1) + g[m - 1].1
    }
}

proof fn lemma_count_sum_update(g: Seq<(int, nat, nat)>, k: int, x: (int, nat, nat), m: int)
    requires
        0 <= k < g.len(),
        0 <= m <= g.len(),
    ensures
        count_sum(g.update(k, x), m) + (if k < m {
            g[k].1
        } else {
            0
        }) == count_sum(g, m) + (if k < m {
            x.1
        } else {
            0
        }),
    decreases m,
{
    if m > 0 {
        lemma_count_sum_update(g, k, x, m - 1);
    }
}

proof fn lemma_count_sum_push(g: Seq<(int, nat, nat)>, x: (int, nat, nat), m: int)
    requires
        0 <= m <= g.len(),
    ensures
        count_sum(g.push(x), m) == count_sum(g, m),
    decreases m,
{
    if m > 0 {
        lemma_count_sum_push(g, x, m - 1);
    }
}

/// Every key is counted in exactly one group: the counts of the groups add up to the number
/// of keys.
pub proof fn lemma_counted_once(keys: Seq<Seq<char>>, amounts: Seq<usize>, n: int)
    requires
        0 <= n <= keys.len(),
    ensures
        count_sum(grouped(keys, amounts, n), grouped(keys, amounts, n).len() as int) == n,
    decreases n,
{
    if n > 0 {
        lemma_counted_once(keys, amounts, n - 1);
        let f = firsts(keys, n - 1);
        let before = grouped(keys, amounts, n - 1);
        if exists|g: int| 0 <= g < f.len() && keys[#[trigger] f[g]] == keys[n - 1] {
            let g = choose|g: int| 0 <= g < f.len() && keys[#[trigger] f[g]] == keys[n - 1];
            lemma_known_key(keys, amounts, n - 1, g);
            lemma_count_sum_update(
                before,
                g,
                (
                    f[g],
                    occurrences(keys, keys[n - 1], n - 1) + 1,
                    amount(keys, amounts, keys[n - 1], n - 1) + amounts[n - 1] as nat,
                ),
                before.len() as int,
            );
            assert(before[g].1 == occurrences(keys, keys[n - 1], n - 1));
        } else {
            lemma_new_key(keys, amounts, n - 1);
            lemma_count_sum_push(
                before,
                (n - 1, 1, amounts[n - 1] as nat),
                before.len() as int,
            );
        }
    }
}

/// How often a key occurs is how many of the keys equal it, its amount is the sum of the amounts
/// that stand at their positions, and the groups stand at the positions whose key did not occur
/// before, in their order.
pub proof fn lemma_groups_exactly(
    keys: Seq<Seq<char>>,
    amounts: Seq<usize>,
    k: Seq<char>,
    n: int,
)
    requires
        0 <= n <= keys.len(),
        amounts.len() == keys.len(),
    ensures
        occurrences(keys, k, n) == keys.take(n).filter(|x: Seq<char>| x == k).len(),
        amount(keys, amounts, k, n) == text::positions(0, n).filter(
            |i: int| keys[i] == k,
        ).fold_left(0int, |t: int, i: int| t + amounts[i]),
        firsts(keys, n) == text::positions(0, n).filter(
            |i: int| forall|j: int| 0 <= j < i ==> #[trigger] keys[j] != keys[i],
        ),
    decreases n,
{
    reveal(Seq::filter);
    reveal(Seq::fold_left);
    let p = |x: Seq<char>| x == k;
    let at = |i: int| keys[i] == k;
    let first = |i: int| forall|j: int| 0 <= j < i ==> #[trigger] keys[j] != keys[i];
    let all = text::positions(0, n);
    if n > 0 {
        let before = text::positions(0, n - 1);
        lemma_groups_exactly(keys, amounts, k, n - 1);
        assert(keys.take(n).drop_last() =~= keys.take(n - 1));
        assert(all.drop_last() =~= before);
        assert(all.last() == n - 1);
        if at(n - 1) {
            assert(all.filter(at) == before.filter(at).push(n - 1));
            assert(all.filter(at).drop_last() =~= before.filter(at));
        }
        assert(first(n - 1) == is_first(keys, n - 1));
    } else {
        assert(all =~= Seq::<int>::empty());
        assert(all.filter(at) =~= Seq::<int>::empty());
        assert(all.filter(first) =~= Seq::<int>::empty());
        assert(firsts(keys, n) =~= Seq::<int>::empty());
    }
}

}
