//! Filtering of the output of `bun`.

use vstd::prelude::*;

use crate::deno_cmd;
use crate::deno_cmd::join_or_ok;
use crate::number;
use crate::number::{decimal_of, parse_decimal};
use crate::order;
use crate::order::sort_texts;
use crate::text;
use crate::text::{
    chars_of, extend, extend_str, find_char, has_prefix, has_suffix, joined, keep_visible, lines_of,
    slice, split_words, string_of, trimmed,
};
use crate::utils;

verus! {

/// The longest listing of packages that stays whole, in characters.
pub const MAX_LISTING: usize = 500;

/// `s` writes a number of 32 bits, perhaps with white space around it.
pub open spec fn is_count(s: Seq<char>) -> bool {
    number::parsed(text::trim(s), u32::MAX as nat) is Some
}

/// `s` is two numbers with a slash between them.
pub open spec fn is_ratio(s: Seq<char>) -> bool {
    let k = text::next_where(s, 0, text::exactly('/'));
    &&& k < s.len()
    &&& text::next_where(s, k + 1, text::exactly('/')) == s.len()
    &&& is_count(s.subrange(0, k))
    &&& is_count(s.subrange(k + 1, s.len() as int))
}

/// A progress line such as "[1/5] Resolving packages...".
pub open spec fn is_progress(t: Seq<char>) -> bool {
    let close = text::next_where(t, 0, text::exactly(']'));
    &&& text::starts_with(t, "["@)
    &&& close < t.len()
    &&& text::ends_with(text::trim(t.subrange(close + 1, t.len() as int)), "..."@)
    &&& is_ratio(t.subrange(1, close))
}

/// A version header such as "bun install v1.1.0".
pub open spec fn is_version_header(t: Seq<char>) -> bool {
    &&& text::starts_with(t, "bun install v"@) || text::starts_with(t, "bun add v"@)
    &&& text::words(t).len() <= 4
}

/// Trimmed lines that report on the installation itself.
pub open spec fn install_report() -> spec_fn(Seq<char>) -> bool {
    |t: Seq<char>| t.len() > 0 && !is_progress(t) && !is_version_header(t)
}

/// Each line without the white space at its two ends.
pub open spec fn trimmed_lines(l: Seq<Seq<char>>) -> Seq<Seq<char>> {
    Seq::new(l.len(), |i: int| text::trim(l[i]))
}

fn counts(s: &Vec<char>) -> (r: bool)
    ensures
        r == is_count(s@),
{
    parse_decimal(&trimmed(s), u32::MAX as u64).is_some()
}

fn ratio(s: &Vec<char>) -> (r: bool)
    ensures
        r == is_ratio(s@),
{
    let k = find_char(s, 0, '/');
    k < s.len() && find_char(s, k + 1, '/') == s.len() && counts(&slice(s, 0, k)) && counts(
        &slice(s, k + 1, s.len()),
    )
}

fn progress(t: &Vec<char>) -> (r: bool)
    ensures
        r == is_progress(t@),
{
    if !has_prefix(t, "[") {
        return false;
    }
    let close = find_char(t, 0, ']');
    if close == t.len() {
        return false;
    }
    proof {
        reveal_strlit("[");
        text::lemma_next_where(t@, 0, text::exactly(']'));
        assert(t@[0] == t@.subrange(0, 1)[0]);
    }
    has_suffix(&trimmed(&slice(t, close + 1, t.len())), "...") && ratio(&slice(t, 1, close))
}

fn version_header(t: &Vec<char>) -> (r: bool)
    ensures
        r == is_version_header(t@),
{
    let w = split_words(t);
    assert(text::views(w@).len() == w.len());
    (has_prefix(t, "bun install v") || has_prefix(t, "bun add v")) && w.len() <= 4
}

/// What `filter_bun_install` makes of `s`.
pub open spec fn installed(s: Seq<char>) -> Seq<char> {
    deno_cmd::lines_or_ok(text::keep(trimmed_lines(text::lines(s)), install_report()))
}

/// Filters the output of `bun install` and `bun add`: strips progress lines, version headers
/// and empty lines. Returns "ok" if nothing remains.
pub fn filter_bun_install(output: &str) -> (r: String)
    ensures
        r@ == installed(output@),
{
    let lines = lines_of(output);
    let ghost l = trimmed_lines(text::views(lines@));
    let ghost p = install_report();
    let mut result: Vec<Vec<char>> = Vec::new();
    let mut i: usize = 0;
    assert(text::views(result@) + text::keep(l, p) == text::keep(l, p));
    while i < lines.len()
        invariant
            i <= lines.len(),
            l == trimmed_lines(text::views(lines@)),
            p == install_report(),
            text::views(result@) + text::keep_from(l, i as int, p) == text::keep(l, p),
        decreases lines.len() - i,
    {
        let t = trimmed(&lines[i]);
        assert(l[i as int] == t@);
        if t.len() > 0 && !progress(&t) && !version_header(&t) {
            let ghost before = result@;
            let ghost view = t@;
            result.push(t);
            proof {
                text::lemma_views_push(before, t);
                text::lemma_shift(text::views(before), view, text::keep_from(l, i + 1, p));
            }
        }
        i += 1;
    }
    assert(text::views(result@) + Seq::<Seq<char>>::empty() == text::views(result@));
    join_or_ok(&result)
}

/// A package as a listing shows it.
pub open spec fn entry(package: (String, Option<String>)) -> Seq<char> {
    match package.1 {
        Some(version) => package.0@ + "@"@ + version@,
        None => package.0@,
    }
}

/// The packages as a listing shows them.
pub open spec fn entries(packages: Seq<(String, Option<String>)>) -> Seq<Seq<char>> {
    Seq::new(packages.len(), |i: int| entry(packages[i]))
}

/// A listing: the number of packages, and the packages in order.
pub open spec fn package_listing(l: Seq<Seq<char>>) -> Seq<char> {
    number::decimal(l.len()) + " deps\n"@ + text::join(order::sorted(l), "\n"@)
}

/// Lists the packages that `bun pm ls --json` reported, each with its version if it has one.
/// Returns `None` if there is no package.
pub fn filter_bun_pm_ls_json(packages: &Vec<(String, Option<String>)>) -> (r: Option<String>)
    ensures
        r is None <==> packages@.len() == 0,
        r matches Some(listing) ==> listing@ == package_listing(entries(packages@)),
{
    if packages.len() == 0 {
        return None;
    }
    let mut list: Vec<Vec<char>> = Vec::new();
    let mut i: usize = 0;
    while i < packages.len()
        invariant
            i <= packages.len(),
            text::views(list@) =~= entries(packages@).take(i as int),
        decreases packages.len() - i,
    {
        let ghost before = list@;
        let mut e = chars_of(packages[i].0.as_str());
        if let Some(version) = &packages[i].1 {
            extend_str(&mut e, "@");
            extend_str(&mut e, version.as_str());
        }
        list.push(e);
        proof {
            text::lemma_views_push(before, e);
        }
        i += 1;
    }
    assert(text::views(list@) =~= entries(packages@));
    let sorted = sort_texts(&list);
    let mut result = decimal_of(packages.len());
    extend_str(&mut result, " deps\n");
    extend(&mut result, &joined(&sorted, "\n"));
    Some(string_of(&result))
}

/// What a listing of packages that is plain text is cut to.
pub open spec fn text_listing(l: Seq<Seq<char>>) -> Seq<char> {
    if l.len() == 0 {
        "ok"@
    } else {
        utils::shortened(text::join(l, "\n"@), MAX_LISTING as nat)
    }
}

/// Filters the output of `bun pm ls` that is plain text: strips empty lines and cuts what is
/// too long. Returns "ok" if nothing remains.
pub fn filter_bun_pm_ls_text(raw: &str) -> (r: String)
    ensures
        r@ == text_listing(text::keep(text::lines(raw@), text::not_blank())),
{
    let lines = keep_visible(&lines_of(raw));
    assert(text::views(lines@).len() == lines.len());
    if lines.len() == 0 {
        return string_of(&chars_of("ok"));
    }
    string_of(&utils::truncate(&joined(&lines, "\n"), MAX_LISTING))
}

/// The arguments of `bun` that list the packages as JSON, given the user's.
pub open spec fn listing_args(args: Seq<Seq<char>>) -> Seq<Seq<char>> {
    if args.contains("--json"@) {
        seq!["pm"@, "ls"@] + args
    } else {
        seq!["pm"@, "ls"@, "--json"@] + args
    }
}

/// The arguments of `bun` that list the packages: `--json` is added unless it is there.
pub fn pm_ls_args(args: &Vec<String>) -> (r: Vec<String>)
    ensures
        text::strings(r@) == listing_args(text::strings(args@)),
{
    let ghost a = text::strings(args@);
    let mut r: Vec<String> = Vec::new();
    r.push(string_of(&chars_of("pm")));
    r.push(string_of(&chars_of("ls")));
    let given = text::is_among(&chars_of("--json"), &text::texts_of(args));
    if !given {
        r.push(string_of(&chars_of("--json")));
    }
    let ghost start = text::strings(r@);
    assert(given ==> start =~= seq!["pm"@, "ls"@]);
    assert(!given ==> start =~= seq!["pm"@, "ls"@, "--json"@]);
    let mut i: usize = 0;
    while i < args.len()
        invariant
            i <= args.len(),
            a == text::strings(args@),
            text::strings(r@) =~= start + a.take(i as int),
        decreases args.len() - i,
    {
        let ghost before = r@;
        let arg = args[i].clone();
        r.push(arg);
        proof {
            text::lemma_strings_push(before, arg);
            assert(a.take(i + 1) =~= a.take(i as int).push(arg@));
        }
        i += 1;
    }
    assert(a.take(a.len() as int) =~= a);
    r
}

/// The listing does not depend on the order in which the packages come.
pub proof fn lemma_listing_order(a: Seq<Seq<char>>, b: Seq<Seq<char>>)
    requires
        a.to_multiset() == b.to_multiset(),
    ensures
        package_listing(a) == package_listing(b),
{
    broadcast use vstd::seq_lib::group_to_multiset_ensures;

    order::lemma_sorted(a);
    order::lemma_sorted(b);
    order::lemma_sorted_unique(order::sorted(a), order::sorted(b));
    assert(a.len() == a.to_multiset().len());
    assert(b.len() == b.to_multiset().len());
}

/// A listing that is plain text is cut to its limit.
pub proof fn lemma_listing_len(l: Seq<Seq<char>>)
    ensures
        text_listing(l).len() <= MAX_LISTING,
{
    reveal_strlit("ok");
    assert("ok"@.len() == 2);
    utils::lemma_shortened_len(text::join(l, "\n"@), MAX_LISTING as nat);
}

/// What is shown of an installation is neither empty, nor progress, nor a version header, and
/// no other line is lost.
pub proof fn lemma_install_lines(l: Seq<Seq<char>>)
    ensures
        forall|j: int|
            0 <= j < text::keep(trimmed_lines(l), install_report()).len() ==> install_report()(
                #[trigger] text::keep(trimmed_lines(l), install_report())[j],
            ),
        forall|k: int|
            0 <= k < l.len() && install_report()(text::trim(#[trigger] l[k])) ==> text::keep(
                trimmed_lines(l),
                install_report(),
            ).contains(text::trim(l[k])),
{
    let t = trimmed_lines(l);
    text::lemma_keep(t, 0, install_report());
    assert forall|k: int|
        0 <= k < l.len() && install_report()(text::trim(#[trigger] l[k])) implies text::keep(
        t,
        install_report(),
    ).contains(text::trim(l[k])) by {
        assert(t[k] == text::trim(l[k]));
    }
}

/// A second pass over what is shown of an installation changes nothing.
pub proof fn lemma_install_again(s: Seq<char>)
    ensures
        installed(installed(s)) == installed(s),
{
    let t = trimmed_lines(text::lines(s));
    let kept = text::keep(t, install_report());
    text::lemma_keep(t, 0, install_report());
    text::lemma_lines_lack(s);
    assert forall|j: int| 0 <= j < t.len() implies text::is_line(#[trigger] t[j]) && text::trim(
        t[j],
    ) == t[j] by {
        let line = text::lines(s)[j];
        assert(text::lacks(line, '\n'));
        text::lemma_trim_again(line);
    }
    let shown = if kept.len() == 0 {
        seq!["ok"@]
    } else {
        kept
    };
    assert forall|j: int| 0 <= j < shown.len() implies text::is_line(#[trigger] shown[j])
        && text::trim(shown[j]) == shown[j] && install_report()(shown[j]) by {
        if kept.len() == 0 {
            lemma_ok_is_shown();
        } else {
            assert(install_report()(kept[j]) && t.contains(kept[j]));
            let k = choose|k: int| 0 <= k < t.len() && t[k] == kept[j];
            assert(text::is_line(t[k]));
        }
    }
    assert(install_report()(shown.last()));
    text::lemma_lines_of_join(shown);
    assert(installed(s) == text::join(shown, "\n"@));
    assert(trimmed_lines(shown) =~= shown);
    text::lemma_keep_all(shown, 0, install_report());
    assert(shown.skip(0) =~= shown);
}

/// "ok" is a line that is shown as it is.
proof fn lemma_ok_is_shown()
    ensures
        text::is_line("ok"@),
        text::trim("ok"@) == "ok"@,
        install_report()("ok"@),
{
    let ok = "ok"@;
    reveal_strlit("ok");
    reveal_strlit("[");
    reveal_strlit("bun install v");
    reveal_strlit("bun add v");
    assert(ok =~= seq!['o', 'k']);
    assert(text::visible()(ok[0]));
    assert(text::next_where(ok, 0, text::visible()) == 0);
    assert(text::visible_end(ok, 2) == 2);
    assert(ok.subrange(0, 2) =~= ok);
    if text::starts_with(ok, "["@) {
        assert(ok.subrange(0, 1)[0] == '[');
    }
    assert("bun install v"@.len() == 13 && "bun add v"@.len() == 9);
}

/// A line of an installation is shown, without the white space at its ends, if it shows
/// something that does not begin with a bracket or with `bun `.
pub proof fn lemma_install_keeps(s: Seq<char>)
    ensures
        forall|t: Seq<char>|
            t.len() > 0 && t[0] != '[' && !text::starts_with(t, "bun "@)
                ==> #[trigger] install_report()(t),
        text::keep(trimmed_lines(text::lines(s)), install_report()) == text::lines(s).map_values(
            |line: Seq<char>| text::trim(line),
        ).filter(install_report()),
{
    reveal_strlit("[");
    reveal_strlit("bun ");
    reveal_strlit("bun install v");
    reveal_strlit("bun add v");
    text::lemma_keep_is_filter(trimmed_lines(text::lines(s)), install_report());
    assert(trimmed_lines(text::lines(s)) =~= text::lines(s).map_values(
        |line: Seq<char>| text::trim(line),
    ));
    assert("bun "@ =~= seq!['b', 'u', 'n', ' ']);
    assert("bun install v"@.len() == 13 && "bun add v"@.len() == 9);
    assert forall|t: Seq<char>|
        t.len() > 0 && t[0] != '[' && !text::starts_with(t, "bun "@) implies #[trigger]
    install_report()(t) by {
        if text::starts_with(t, "["@) {
            assert(t.subrange(0, 1)[0] == '[');
        }
        if text::starts_with(t, "bun install v"@) {
            let x = t.subrange(0, 13);
            assert(x[0] == 'b' && x[1] == 'u' && x[2] == 'n' && x[3] == ' ');
            assert(t.subrange(0, 4) =~= "bun "@);
        }
        if text::starts_with(t, "bun add v"@) {
            let x = t.subrange(0, 9);
            assert(x[0] == 'b' && x[1] == 'u' && x[2] == 'n' && x[3] == ' ');
            assert(t.subrange(0, 4) =~= "bun "@);
        }
    }
}

/// The listing of packages that is plain text is all lines that show something, in their order,
/// as far as they fit.
pub proof fn lemma_text_listing(raw: Seq<char>)
    ensures
        ({
            let l = text::lines(raw).filter(|line: Seq<char>| text::trim(line).len() > 0);
            let r = text_listing(text::keep(text::lines(raw), text::not_blank()));
            &&& l.len() == 0 ==> r == "ok"@
            &&& l.len() > 0 && text::join(l, "\n"@).len() <= 500 ==> r == text::join(l, "\n"@)
            &&& l.len() > 0 && text::join(l, "\n"@).len() > 500 ==> r.len() == 500 && r.take(497)
                == text::join(l, "\n"@).take(497) && r.skip(497) == "..."@
        }),
{
    text::lemma_keep_is_filter(text::lines(raw), text::not_blank());
    assert(text::not_blank() =~= (|line: Seq<char>| text::trim(line).len() > 0));
    let l = text::keep(text::lines(raw), text::not_blank());
    utils::lemma_shortened(text::join(l, "\n"@), 500);
}

/// A listing of packages counts them, and shows each of them in the order of their names, with
/// its version behind an at sign if it has one.
pub proof fn lemma_package_listing(packages: Seq<(String, Option<String>)>)
    ensures
        exists|shown: Seq<Seq<char>>|
            {
                &&& package_listing(entries(packages)) == number::decimal(packages.len())
                    + " deps\n"@ + #[trigger] text::join(shown, "\n"@)
                &&& shown.len() == packages.len()
                &&& order::is_sorted(shown)
                &&& shown.to_multiset() == packages.map_values(
                    |p: (String, Option<String>)|
                        if p.1 is Some {
                            p.0@ + "@"@ + p.1->0@
                        } else {
                            p.0@
                        },
                ).to_multiset()
            },
{
    let l = entries(packages);
    broadcast use vstd::seq_lib::group_to_multiset_ensures;

    order::lemma_sorted(l);
    let shown = order::sorted(l);
    assert(l =~= packages.map_values(
        |p: (String, Option<String>)|
            if p.1 is Some {
                p.0@ + "@"@ + p.1->0@
            } else {
                p.0@
            },
    ));
    assert(shown.len() == l.len());
    assert(package_listing(l) == number::decimal(packages.len()) + " deps\n"@ + text::join(
        shown,
        "\n"@,
    ));
}

/// The user's arguments all come after `pm ls`, in their order, and `--json` is among the
/// arguments, added once if it was not there.
pub proof fn lemma_listing_args(args: Seq<Seq<char>>)
    ensures
        listing_args(args).contains("--json"@),
        listing_args(args).take(2) == seq!["pm"@, "ls"@],
        listing_args(args).skip(listing_args(args).len() - args.len()) == args,
        args.contains("--json"@) ==> listing_args(args).len() == args.len() + 2,
        !args.contains("--json"@) ==> listing_args(args).len() == args.len() + 3,
{
    let r = listing_args(args);
    assert(r.take(2) =~= seq!["pm"@, "ls"@]);
    assert(r.skip(r.len() - args.len()) =~= args);
    if args.contains("--json"@) {
        let i = choose|i: int| 0 <= i < args.len() && args[i] == "--json"@;
        assert(r[i + 2] == "--json"@);
    } else {
        assert(r[2] == "--json"@);
    }
}

/// A count of steps in brackets, with dots at the end of the line, is progress and is not shown,
/// whatever the numbers are and whatever stands between.
pub proof fn lemma_progress_stripped(a: nat, b: nat, x: Seq<char>)
    requires
        a <= u32::MAX,
        b <= u32::MAX,
        text::ends_with(text::trim(x), "..."@),
    ensures
        !install_report()(
            seq!['['] + number::decimal(a) + seq!['/'] + number::decimal(b) + seq![']'] + x,
        ),
{
    let da = number::decimal(a);
    let db = number::decimal(b);
    let ratio = da + seq!['/'] + db;
    let t = seq!['['] + da + seq!['/'] + db + seq![']'] + x;
    let close: int = 1int + ratio.len();
    reveal_strlit("[");
    assert(t.subrange(0, 1) =~= "["@);
    number::lemma_decimal_lacks(a, ']');
    number::lemma_decimal_lacks(b, ']');
    number::lemma_decimal_lacks(a, '/');
    number::lemma_decimal_lacks(b, '/');
    text::lemma_next_where(t, 0, text::exactly(']'));
    let found = text::next_where(t, 0, text::exactly(']'));
    assert(t[close] == ']');
    assert(text::exactly(']')(t[close]));
    assert forall|j: int| 0 <= j < close implies !(#[trigger] text::exactly(']')(t[j])) by {
        if j == 0 {
            assert(t[j] == '[');
        } else if j < 1 + da.len() {
            assert(t[j] == da[j - 1]);
        } else if j == 1 + da.len() {
            assert(t[j] == '/');
        } else {
            assert(t[j] == db[j - 2 - da.len()]);
        }
    }
    assert(found == close);
    assert(t.subrange(close + 1, t.len() as int) =~= x);
    assert(t.subrange(1, close) =~= ratio);
    let k = da.len() as int;
    assert(ratio[k] == '/');
    assert(text::exactly('/')(ratio[k]));
    assert forall|j: int| 0 <= j < k implies !(#[trigger] text::exactly('/')(ratio[j])) by {
        assert(ratio[j] == da[j]);
    }
    text::lemma_next_where(ratio, 0, text::exactly('/'));
    assert(text::next_where(ratio, 0, text::exactly('/')) == k);
    text::lemma_next_where(ratio, k + 1, text::exactly('/'));
    let second = text::next_where(ratio, k + 1, text::exactly('/'));
    if second < ratio.len() {
        assert(ratio[second] == db[second - k - 1]);
    }
    assert(ratio.subrange(0, k) =~= da);
    assert(ratio.subrange(k + 1, ratio.len() as int) =~= db);
    lemma_decimal_counts(a);
    lemma_decimal_counts(b);
}

proof fn lemma_decimal_counts(n: nat)
    requires
        n <= u32::MAX,
    ensures
        is_count(number::decimal(n)),
{
    let d = number::decimal(n);
    number::lemma_decimal_value(n);
    number::lemma_parsed_decimal(n, u32::MAX as nat);
    assert(number::is_decimal_digit(d[0]));
    assert(number::is_decimal_digit(d[d.len() - 1]));
    text::lemma_trim_none(d);
}

/// A trimmed line that begins with a bracket is shown, unless it ends with dots. A line that
/// begins like a version header is shown if and only if it has more than four words.
pub proof fn lemma_install_shows(t: Seq<char>)
    requires
        t.len() > 0,
        text::trim(t) == t,
    ensures
        t[0] == '[' && !text::ends_with(t, "..."@) ==> install_report()(t),
        t[0] != '[' && (text::starts_with(t, "bun install v"@) || text::starts_with(
            t,
            "bun add v"@,
        )) ==> (install_report()(t) <==> text::words(t).len() > 4),
{
    reveal_strlit("[");
    reveal_strlit("...");
    reveal_strlit("bun install v");
    reveal_strlit("bun add v");
    assert("..."@.len() == 3);
    assert("bun install v"@.len() == 13 && "bun add v"@.len() == 9);
    text::lemma_trim_again(t);
    if text::starts_with(t, "["@) {
        assert(t.subrange(0, 1)[0] == '[');
    }
    if is_version_header(t) && t[0] == '[' {
        assert(t.subrange(0, 13)[0] == t[0] && t.subrange(0, 9)[0] == t[0]);
    }
    if is_progress(t) && !text::ends_with(t, "..."@) {
        let close = text::next_where(t, 0, text::exactly(']'));
        let rest = t.skip(close + 1);
        text::lemma_next_where(t, 0, text::exactly(']'));
        assert(t.subrange(close + 1, t.len() as int) =~= rest);
        let x = text::trim(rest);
        assert(x.len() >= 3);
        text::lemma_trim_end(t, close + 1);
        assert(x.subrange(x.len() - 3, x.len() as int) =~= t.subrange(
            t.len() - 3,
            t.len() as int,
        ));
    }
}

/// What is shown of an installation are all trimmed lines that report on it, in their order, or
/// "ok" if there is none.
pub proof fn lemma_installed(s: Seq<char>)
    ensures
        ({
            let kept = text::lines(s).map_values(|line: Seq<char>| text::trim(line)).filter(
                |t: Seq<char>| t.len() > 0 && !is_progress(t) && !is_version_header(t),
            );
            &&& kept.len() > 0 ==> installed(s) == text::join(kept, "\n"@)
            &&& kept.len() == 0 ==> installed(s) == "ok"@
        }),
{
    lemma_install_keeps(s);
    assert(install_report() =~= (|t: Seq<char>|
        t.len() > 0 && !is_progress(t) && !is_version_header(t)));
}

}
