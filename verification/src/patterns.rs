//! Regular expressions, by way of the `regex` crate.

use vstd::prelude::*;

use crate::auto_filter;
use crate::dedup;
use crate::text;

verus! {

/// A compiled list of regular expressions of the `regex` crate.
#[verifier::external_type_specification]
#[verifier::external_body]
pub struct ExRegexSet(regex::RegexSet);

/// The expressions that a set was compiled from, in order, as `RegexSet::patterns` lists
/// them.
pub uninterp spec fn set_patterns(set: regex::RegexSet) -> Seq<Seq<char>>;

/// Whether `RegexSet::matches` finds a match of the expression `pattern` in `text`.
pub uninterp spec fn matches(pattern: Seq<char>, text: Seq<char>) -> bool;

/// The lists of expressions that this library compiles.
pub open spec fn is_known(patterns: Seq<Seq<char>>) -> bool {
    patterns == dedup::noise_patterns() || patterns == auto_filter::decoration_patterns()
}

/// `regex::RegexSet::new` compiles a list of expressions and keeps their order. It fails on
/// a list that holds an invalid expression; the lists of this library hold none, so on them
/// it succeeds.
#[verifier::external_body]
pub(crate) fn compile(patterns: &Vec<&'static str>) -> (set: regex::RegexSet)
    requires
        is_known(text::literals(patterns@)),
    ensures
        set_patterns(set) == text::literals(patterns@),
{
    regex::RegexSet::new(patterns).unwrap()
}

/// `regex::RegexSet::matches` gives the positions, in ascending order, of the expressions of
/// the set that match somewhere in `text`.
#[verifier::external_body]
pub(crate) fn matching(set: &regex::RegexSet, text: &str) -> (r: Vec<usize>)
    ensures
        forall|i: int, j: int| 0 <= i < j < r@.len() ==> r@[i] < r@[j],
        forall|i: int| 0 <= i < r@.len() ==> #[trigger] r@[i] < set_patterns(*set).len(),
        forall|i: int|
            0 <= i < r@.len() ==> matches(set_patterns(*set)[#[trigger] r@[i] as int], text@),
        forall|k: usize|
            k < set_patterns(*set).len() && matches(set_patterns(*set)[k as int], text@)
                ==> #[trigger] r@.contains(k),
{
    set.matches(text).into_iter().collect()
}

/// The position of the first of `patterns`, from `k` on, that matches in `text`.
pub open spec fn first_from(patterns: Seq<Seq<char>>, text: Seq<char>, k: int) -> Option<usize>
    decreases patterns.len() - k,
{
    if k < 0 || k >= patterns.len() {
        None
    } else if matches(patterns[k], text) {
        Some(k as usize)
    } else {
        first_from(patterns, text, k + 1)
    }
}

/// The position of the first of `patterns` that matches in `text`.
pub open spec fn first_match(patterns: Seq<Seq<char>>, text: Seq<char>) -> Option<usize> {
    first_from(patterns, text, 0)
}

proof fn lemma_first_from(patterns: Seq<Seq<char>>, text: Seq<char>, a: int, k: int)
    requires
        0 <= a <= k <= patterns.len(),
        forall|j: int| a <= j < k ==> !matches(patterns[j], text),
    ensures
        first_from(patterns, text, a) == first_from(patterns, text, k),
    decreases k - a,
{
    if a < k {
        lemma_first_from(patterns, text, a + 1, k);
    }
}

/// The position of the first expression of the set that matches in `text`.
pub(crate) fn first_matching(set: &regex::RegexSet, text: &str) -> (r: Option<usize>)
    requires
        set_patterns(*set).len() <= usize::MAX,
    ensures
        r == first_match(set_patterns(*set), text@),
{
    let found = matching(set, text);
    let ghost p = set_patterns(*set);
    if found.len() == 0 {
        proof {
            assert forall|j: int| 0 <= j < p.len() implies !matches(p[j], text@) by {
                if matches(p[j], text@) {
                    assert(found@.contains(j as usize));
                }
            }
            lemma_first_from(p, text@, 0, p.len() as int);
        }
        None
    } else {
        let k = found[0];
        proof {
            assert forall|j: int| 0 <= j < k implies !matches(p[j], text@) by {
                if matches(p[j], text@) {
                    assert(found@.contains(j as usize));
                    let i = choose|i: int| 0 <= i < found@.len() && found@[i] == j as usize;
                    assert(found@[0] <= found@[i]);
                }
            }
            assert(matches(p[found@[0] as int], text@));
            lemma_first_from(p, text@, 0, k as int);
        }
        Some(k)
    }
}

proof fn lemma_first_is(patterns: Seq<Seq<char>>, text: Seq<char>, k: int)
    requires
        0 <= k <= patterns.len() <= usize::MAX,
    ensures
        first_from(patterns, text, k) matches Some(i) ==> k <= i < patterns.len() && matches(
            patterns[i as int],
            text,
        ) && forall|j: int| k <= j < i ==> !matches(#[trigger] patterns[j], text),
        first_from(patterns, text, k) is None ==> forall|j: int|
            k <= j < patterns.len() ==> !matches(#[trigger] patterns[j], text),
    decreases patterns.len() - k,
{
    if k < patterns.len() && !matches(patterns[k], text) {
        lemma_first_is(patterns, text, k + 1);
    }
}

/// The first expression that matches is one that matches, and none before it does. There is
/// none only where no expression matches.
pub proof fn lemma_first_match(patterns: Seq<Seq<char>>, text: Seq<char>)
    requires
        patterns.len() <= usize::MAX,
    ensures
        first_match(patterns, text) matches Some(i) ==> i < patterns.len() && matches(
            patterns[i as int],
            text,
        ) && forall|j: int| 0 <= j < i ==> !matches(#[trigger] patterns[j], text),
        first_match(patterns, text) is None ==> forall|j: int|
            0 <= j < patterns.len() ==> !matches(#[trigger] patterns[j], text),
{
    lemma_first_is(patterns, text, 0);
}

}
