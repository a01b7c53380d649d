//! Orders: texts from small to large, and positions from the largest key to the smallest.

use vstd::prelude::*;

use crate::number;
use crate::text;

verus! {

/// From position `i` on, `a` comes before `b` or equals it: the first difference decides,
/// and a text comes before its extensions.
pub open spec fn at_most_from(a: Seq<char>, b: Seq<char>, i: int) -> bool
    decreases a.len() - i,
{
    if i < 0 || i >= a.len() {
        true
    } else if i >= b.len() {
        false
    } else if a[i] != b[i] {
        a[i] < b[i]
    } else {
        at_most_from(a, b, i + 1)
    }
}

/// `a` comes before `b` in the order of strings, or equals it.
pub open spec fn at_most(a: Seq<char>, b: Seq<char>) -> bool {
    at_most_from(a, b, 0)
}

/// Tells whether `a` comes before `b` or equals it.
pub fn text_at_most(a: &Vec<char>, b: &Vec<char>) -> (r: bool)
    ensures
        r == at_most(a@, b@),
{
    let mut i: usize = 0;
    while i < a.len()
        invariant
            i <= a.len(),
            at_most(a@, b@) == at_most_from(a@, b@, i as int),
        decreases a.len() - i,
    {
        if i >= b.len() {
            return false;
        }
        if a[i] != b[i] {
            return a[i] < b[i];
        }
        i += 1;
    }
    true
}

proof fn lemma_total_from(a: Seq<char>, b: Seq<char>, i: int)
    requires
        0 <= i,
    ensures
        at_most_from(a, b, i) || at_most_from(b, a, i),
    decreases a.len() - i,
{
    if i < a.len() && i < b.len() && a[i] == b[i] {
        lemma_total_from(a, b, i + 1);
    }
}

proof fn lemma_antisymmetric_from(a: Seq<char>, b: Seq<char>, i: int)
    requires
        0 <= i <= a.len(),
        i <= b.len(),
        at_most_from(a, b, i),
        at_most_from(b, a, i),
        forall|j: int| 0 <= j < i ==> a[j] == b[j],
    ensures
        a == b,
    decreases a.len() - i,
{
    if i < a.len() && i < b.len() {
        lemma_antisymmetric_from(a, b, i + 1);
    } else {
        assert(a =~= b);
    }
}

proof fn lemma_transitive_from(a: Seq<char>, b: Seq<char>, c: Seq<char>, i: int)
    requires
        0 <= i,
        at_most_from(a, b, i),
        at_most_from(b, c, i),
    ensures
        at_most_from(a, c, i),
    decreases a.len() - i,
{
    if i < a.len() && i < b.len() && i < c.len() && a[i] == b[i] && b[i] == c[i] {
        lemma_transitive_from(a, b, c, i + 1);
    }
}

/// The order of texts is total.
pub proof fn lemma_total(a: Seq<char>, b: Seq<char>)
    ensures
        at_most(a, b) || at_most(b, a),
{
    lemma_total_from(a, b, 0);
}

/// The order of texts is antisymmetric.
pub proof fn lemma_antisymmetric(a: Seq<char>, b: Seq<char>)
    requires
        at_most(a, b),
        at_most(b, a),
    ensures
        a == b,
{
    lemma_antisymmetric_from(a, b, 0);
}

/// The order of texts is transitive.
pub proof fn lemma_transitive(a: Seq<char>, b: Seq<char>, c: Seq<char>)
    requires
        at_most(a, b),
        at_most(b, c),
    ensures
        at_most(a, c),
{
    lemma_transitive_from(a, b, c, 0);
}

/// Where `x` belongs among the first `k` texts of the sorted list `l`.
pub open spec fn place(l: Seq<Seq<char>>, x: Seq<char>, k: int) -> int
    decreases k,
{
    if k <= 0 || k > l.len() || at_most(l[k - 1], x) {
        k
    } else {
        place(l, x, k - 1)
    }
}

/// The texts of `l` from small to large.
pub open spec fn sorted(l: Seq<Seq<char>>) -> Seq<Seq<char>>
    decreases l.len(),
{
    if l.len() == 0 {
        Seq::empty()
    } else {
        let s = sorted(l.drop_last());
        s.insert(place(s, l.last(), s.len() as int), l.last())
    }
}

pub open spec fn is_sorted(l: Seq<Seq<char>>) -> bool {
    forall|i: int, j: int| 0 <= i <= j < l.len() ==> at_most(#[trigger] l[i], #[trigger] l[j])
}

proof fn lemma_place(l: Seq<Seq<char>>, x: Seq<char>, k: int)
    requires
        is_sorted(l),
        0 <= k <= l.len(),
        forall|j: int| k <= j < l.len() ==> at_most(x, #[trigger] l[j]),
    ensures
        0 <= place(l, x, k) <= k,
        is_sorted(l.insert(place(l, x, k), x)),
    decreases k,
{
    if k <= 0 || at_most(l[k - 1], x) {
        let s = l.insert(k, x);
        assert forall|i: int, j: int| 0 <= i <= j < s.len() implies at_most(
            #[trigger] s[i],
            #[trigger] s[j],
        ) by {
            lemma_total(x, x);
            if j == k && i < k {
                assert(at_most(l[i], l[k - 1]));
                lemma_transitive(l[i], l[k - 1], x);
            }
        }
    } else {
        lemma_total(l[k - 1], x);
        lemma_place(l, x, k - 1);
    }
}

/// `sorted` sorts: its texts stand in order, and they are those of `l`, each as often.
pub proof fn lemma_sorted(l: Seq<Seq<char>>)
    ensures
        is_sorted(sorted(l)),
        sorted(l).to_multiset() == l.to_multiset(),
        sorted(l).len() == l.len(),
    decreases l.len(),
{
    broadcast use vstd::seq_lib::group_to_multiset_ensures;

    if l.len() > 0 {
        let s = sorted(l.drop_last());
        lemma_sorted(l.drop_last());
        lemma_place(s, l.last(), s.len() as int);
        let k = place(s, l.last(), s.len() as int);
        vstd::seq_lib::to_multiset_insert(s, k, l.last());
        assert(l == l.drop_last().push(l.last()));
    } else {
        assert(l =~= Seq::<Seq<char>>::empty());
    }
}

/// Two sorted lists of the same texts, each as often, are the same list.
pub proof fn lemma_sorted_unique(a: Seq<Seq<char>>, b: Seq<Seq<char>>)
    requires
        is_sorted(a),
        is_sorted(b),
        a.to_multiset() == b.to_multiset(),
    ensures
        a == b,
    decreases a.len(),
{
    broadcast use vstd::seq_lib::group_to_multiset_ensures;

    assert(a.len() == a.to_multiset().len());
    assert(b.len() == b.to_multiset().len());
    if a.len() > 0 {
        assert(a.contains(a[0]));
        assert(b.to_multiset().count(a[0]) > 0);
        assert(b.contains(a[0]));
        assert(b.contains(b[0]));
        assert(a.to_multiset().count(b[0]) > 0);
        assert(a.contains(b[0]));
        let i = choose|i: int| 0 <= i < b.len() && b[i] == a[0];
        let j = choose|j: int| 0 <= j < a.len() && a[j] == b[0];
        assert(at_most(b[0], b[i]));
        assert(at_most(a[0], a[j]));
        lemma_antisymmetric(a[0], b[0]);
        assert(a.remove(0).to_multiset() == b.remove(0).to_multiset());
        assert forall|x: int, y: int| 0 <= x <= y < a.remove(0).len() implies at_most(
            #[trigger] a.remove(0)[x],
            #[trigger] a.remove(0)[y],
        ) by {
            assert(at_most(a[x + 1], a[y + 1]));
        }
        assert forall|x: int, y: int| 0 <= x <= y < b.remove(0).len() implies at_most(
            #[trigger] b.remove(0)[x],
            #[trigger] b.remove(0)[y],
        ) by {
            assert(at_most(b[x + 1], b[y + 1]));
        }
        lemma_sorted_unique(a.remove(0), b.remove(0));
        assert(a =~= seq![a[0]] + a.remove(0));
        assert(b =~= seq![b[0]] + b.remove(0));
    } else {
        assert(a =~= b);
    }
}

/// Sorts texts from small to large.
pub fn sort_texts(l: &Vec<Vec<char>>) -> (r: Vec<Vec<char>>)
    ensures
        text::views(r@) == sorted(text::views(l@)),
{
    let ghost all = text::views(l@);
    let mut r: Vec<Vec<char>> = Vec::new();
    let mut n: usize = 0;
    assert(text::views(r@) =~= sorted(all.take(0)));
    while n < l.len()
        invariant
            n <= l.len(),
            all == text::views(l@),
            r.len() == n,
            text::views(r@) == sorted(all.take(n as int)),
        decreases l.len() - n,
    {
        let ghost s = text::views(r@);
        let mut k: usize = r.len();
        while k > 0 && !text_at_most(&r[k - 1], &l[n])
            invariant
                k <= r.len(),
                n < l.len(),
                s == text::views(r@),
                place(s, l@[n as int]@, s.len() as int) == place(s, l@[n as int]@, k as int),
            decreases k,
        {
            k -= 1;
        }
        let x = text::copy(&l[n]);
        let ghost before = r@;
        r.insert(k, x);
        proof {
            assert(text::views(r@) =~= s.insert(k as int, x@));
            assert(all.take(n + 1).drop_last() =~= all.take(n as int));
            assert(all.take(n + 1).last() == x@);
        }
        n += 1;
    }
    assert(all.take(all.len() as int) =~= all);
    r
}

/// Where position `x` belongs among the first `k` of the ranked positions `r`.
pub open spec fn rank_place(r: Seq<usize>, keys: Seq<usize>, x: int, k: int) -> int
    decreases k,
{
    if k <= 0 || k > r.len() || keys[r[k - 1] as int] >= keys[x] {
        k
    } else {
        rank_place(r, keys, x, k - 1)
    }
}

/// The first `n` positions of `keys`, from the largest key to the smallest; of equal keys
/// the earlier position comes first.
pub open spec fn ranking(keys: Seq<usize>, n: int) -> Seq<usize>
    decreases n,
{
    if n <= 0 {
        Seq::empty()
    } else {
        let r = ranking(keys, n - 1);
        r.insert(rank_place(r, keys, n - 1, r.len() as int), (n - 1) as usize)
    }
}

/// In `r` each position comes before those of smaller keys, and before later positions of
/// the same key.
pub open spec fn is_ranked(r: Seq<usize>, keys: Seq<usize>) -> bool {
    forall|i: int, j: int|
        0 <= i < j < r.len() ==> {
            ||| keys[#[trigger] r[i] as int] > keys[#[trigger] r[j] as int]
            ||| keys[r[i] as int] == keys[r[j] as int] && r[i] < r[j]
        }
}

proof fn lemma_rank_place(r: Seq<usize>, keys: Seq<usize>, x: usize, k: int)
    requires
        is_ranked(r, keys),
        0 <= k <= r.len(),
        forall|i: int| 0 <= i < r.len() ==> #[trigger] r[i] < x,
        forall|i: int| k <= i < r.len() ==> keys[#[trigger] r[i] as int] < keys[x as int],
    ensures
        0 <= rank_place(r, keys, x as int, k) <= k,
        is_ranked(r.insert(rank_place(r, keys, x as int, k), x), keys),
    decreases k,
{
    if k <= 0 || keys[r[k - 1] as int] >= keys[x as int] {
        let s = r.insert(k, x);
        assert forall|i: int, j: int| 0 <= i < j < s.len() implies {
            ||| keys[#[trigger] s[i] as int] > keys[#[trigger] s[j] as int]
            ||| keys[s[i] as int] == keys[s[j] as int] && s[i] < s[j]
        } by {
            if j == k {
                if i < k - 1 {
                    assert(keys[r[i] as int] >= keys[r[k - 1] as int]);
                }
            }
        }
    } else {
        lemma_rank_place(r, keys, x, k - 1);
    }
}

/// `ranking` ranks: it lists each of the first `n` positions once, and in rank order.
pub proof fn lemma_ranking(keys: Seq<usize>, n: int)
    requires
        0 <= n <= keys.len(),
        keys.len() <= usize::MAX,
    ensures
        ranking(keys, n).len() == n,
        forall|i: int| 0 <= i < n ==> #[trigger] ranking(keys, n)[i] < n,
        forall|p: usize| p < n ==> #[trigger] ranking(keys, n).contains(p),
        is_ranked(ranking(keys, n), keys),
    decreases n,
{
    if n > 0 {
        let r = ranking(keys, n - 1);
        lemma_ranking(keys, n - 1);
        lemma_rank_place(r, keys, (n - 1) as usize, r.len() as int);
        let k = rank_place(r, keys, n - 1, r.len() as int);
        let s = r.insert(k, (n - 1) as usize);
        assert forall|p: usize| p < n implies #[trigger] s.contains(p) by {
            if p == n - 1 {
                assert(s[k] == p);
            } else {
                assert(r.contains(p));
                let i = choose|i: int| 0 <= i < r.len() && r[i] == p;
                assert(s[if i < k { i } else { i + 1 }] == p);
            }
        }
    }
}

/// The positions of `keys` from the largest key to the smallest; of equal keys the earlier
/// position comes first.
pub fn rank(keys: &Vec<usize>) -> (r: Vec<usize>)
    ensures
        r@ == ranking(keys@, keys@.len() as int),
        r.len() == keys.len(),
        forall|i: int| 0 <= i < r.len() ==> #[trigger] r@[i] < keys.len(),
{
    let mut r: Vec<usize> = Vec::new();
    let mut n: usize = 0;
    while n < keys.len()
        invariant
            n <= keys.len(),
            r@ == ranking(keys@, n as int),
            r.len() == n,
        decreases keys.len() - n,
    {
        proof {
            lemma_ranking(keys@, n as int);
        }
        let ghost s = r@;
        let mut k: usize = r.len();
        while k > 0 && keys[r[k - 1]] < keys[n]
            invariant
                k <= r.len(),
                n < keys.len(),
                s == r@,
                forall|i: int| 0 <= i < r.len() ==> #[trigger] r@[i] < n,
                rank_place(s, keys@, n as int, s.len() as int) == rank_place(
                    s,
                    keys@,
                    n as int,
                    k as int,
                ),
            decreases k,
        {
            k -= 1;
        }
        r.insert(k, n);
        n += 1;
    }
    proof {
        lemma_ranking(keys@, keys@.len() as int);
    }
    r
}

/// The values at the positions `r`.
pub open spec fn picked(r: Seq<usize>, v: Seq<usize>) -> Seq<usize> {
    Seq::new(r.len(), |i: int| v[r[i] as int])
}

/// A ranking keeps the sum of what it ranks.
pub proof fn lemma_ranked_sum(keys: Seq<usize>, v: Seq<usize>, n: int)
    requires
        0 <= n <= keys.len() <= usize::MAX,
        v.len() == keys.len(),
    ensures
        number::total(picked(ranking(keys, n), v)) == number::sum(v, n),
    decreases n,
{
    if n > 0 {
        let r = ranking(keys, n - 1);
        lemma_ranked_sum(keys, v, n - 1);
        lemma_ranking(keys, n - 1);
        lemma_rank_place(r, keys, (n - 1) as usize, r.len() as int);
        let k = rank_place(r, keys, n - 1, r.len() as int);
        assert(picked(ranking(keys, n), v) =~= picked(r, v).insert(k, v[n - 1]));
        number::lemma_total_insert(picked(r, v), k, v[n - 1]);
    }
}

/// `a` and `b` agree up to position `k`, and there `a` has the smaller character.
pub open spec fn is_smaller_at(a: Seq<char>, b: Seq<char>, k: int) -> bool {
    &&& 0 <= k < a.len() && k < b.len()
    &&& forall|j: int| 0 <= j < k ==> #[trigger] a[j] == b[j]
    &&& a[k] < b[k]
}

/// `b` begins with `a`.
pub open spec fn extends(b: Seq<char>, a: Seq<char>) -> bool {
    a.len() <= b.len() && forall|j: int| 0 <= j < a.len() ==> #[trigger] a[j] == b[j]
}

proof fn lemma_at_most_from(a: Seq<char>, b: Seq<char>, i: int)
    requires
        0 <= i <= a.len(),
        i <= b.len(),
        forall|j: int| 0 <= j < i ==> #[trigger] a[j] == b[j],
    ensures
        at_most_from(a, b, i) ==> extends(b, a) || exists|k: int| #[trigger] is_smaller_at(a, b, k),
        extends(b, a) ==> at_most_from(a, b, i),
        forall|k: int| #[trigger] is_smaller_at(a, b, k) ==> at_most_from(a, b, i),
    decreases a.len() - i,
{
    if i < a.len() && i < b.len() {
        if a[i] != b[i] {
            if a[i] < b[i] {
                assert(is_smaller_at(a, b, i));
            }
            assert forall|k: int| #[trigger] is_smaller_at(a, b, k) implies at_most_from(
                a,
                b,
                i,
            ) by {
                if k < i {
                    assert(a[k] == b[k]);
                } else if k > i {
                    assert(a[i] == b[i]);
                }
            }
        } else {
            lemma_at_most_from(a, b, i + 1);
        }
    } else {
        assert forall|k: int| #[trigger] is_smaller_at(a, b, k) implies at_most_from(a, b, i) by {
            if i < a.len() {
                assert(a[k] == b[k]);
            }
        }
    }
}

/// The order of texts is that of dictionaries: a text comes before its extensions, and else the
/// first difference decides.
pub proof fn lemma_at_most(a: Seq<char>, b: Seq<char>)
    ensures
        at_most(a, b) <==> extends(b, a) || exists|k: int| #[trigger] is_smaller_at(a, b, k),
{
    lemma_at_most_from(a, b, 0);
}

}
