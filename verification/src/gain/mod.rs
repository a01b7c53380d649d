//! Token savings: what is shown of them, and how.

use vstd::prelude::*;

use crate::text;
use crate::text::{
    align_left, chars_of, copy, equals, extend, extend_str, slice, string_of, words_of,
};

pub mod coverage;
pub mod export;
pub mod failures;
pub mod pages;

verus! {

/// The commands that have a filter of their own, each with its category.
pub open spec fn registry() -> Seq<(Seq<char>, Seq<char>)> {
    seq![
        ("git"@, "Git & VCS"@),
        ("gh"@, "Git & VCS"@),
        ("gt"@, "Git & VCS"@),
        ("cargo"@, "Build & Compile"@),
        ("tsc"@, "Build & Compile"@),
        ("next"@, "Build & Compile"@),
        ("lint"@, "Build & Compile"@),
        ("prettier"@, "Build & Compile"@),
        ("format"@, "Build & Compile"@),
        ("test"@, "Test"@),
        ("vitest"@, "Test"@),
        ("playwright"@, "Test"@),
        ("pytest"@, "Test"@),
        ("go"@, "Languages"@),
        ("golangci-lint"@, "Languages"@),
        ("ruff"@, "Languages"@),
        ("mypy"@, "Languages"@),
        ("pip"@, "Languages"@),
        ("deno"@, "Languages"@),
        ("pnpm"@, "Package Managers"@),
        ("npm"@, "Package Managers"@),
        ("npx"@, "Package Managers"@),
        ("bun"@, "Package Managers"@),
        ("bunx"@, "Package Managers"@),
        ("prisma"@, "Package Managers"@),
        ("ls"@, "Files & Search"@),
        ("tree"@, "Files & Search"@),
        ("read"@, "Files & Search"@),
        ("find"@, "Files & Search"@),
        ("grep"@, "Files & Search"@),
        ("diff"@, "Files & Search"@),
        ("wc"@, "Files & Search"@),
        ("err"@, "Analysis & Debug"@),
        ("json"@, "Analysis & Debug"@),
        ("deps"@, "Analysis & Debug"@),
        ("env"@, "Analysis & Debug"@),
        ("log"@, "Analysis & Debug"@),
        ("summary"@, "Analysis & Debug"@),
        ("smart"@, "Analysis & Debug"@),
        ("docker"@, "Infrastructure"@),
        ("kubectl"@, "Infrastructure"@),
        ("aws"@, "Infrastructure"@),
        ("psql"@, "Infrastructure"@),
        ("curl"@, "Infrastructure"@),
        ("wget"@, "Infrastructure"@),
        ("context"@, "Meta Commands"@),
        ("dedup"@, "Meta Commands"@),
        ("watch"@, "Meta Commands"@),
        ("proxy"@, "Meta Commands"@),
    ]
}

/// The values of a list of pairs of string literals.
pub open spec fn literal_pairs(v: Seq<(&'static str, &'static str)>) -> Seq<
    (Seq<char>, Seq<char>),
> {
    Seq::new(v.len(), |i: int| (v[i].0@, v[i].1@))
}

/// Lists the commands that have a filter of their own, each with its category.
pub fn command_registry() -> (r: Vec<(&'static str, &'static str)>)
    ensures
        literal_pairs(r@) == registry(),
{
    let r: Vec<(&'static str, &'static str)> = vec![
        ("git", "Git & VCS"),
        ("gh", "Git & VCS"),
        ("gt", "Git & VCS"),
        ("cargo", "Build & Compile"),
        ("tsc", "Build & Compile"),
        ("next", "Build & Compile"),
        ("lint", "Build & Compile"),
        ("prettier", "Build & Compile"),
        ("format", "Build & Compile"),
        ("test", "Test"),
        ("vitest", "Test"),
        ("playwright", "Test"),
        ("pytest", "Test"),
        ("go", "Languages"),
        ("golangci-lint", "Languages"),
        ("ruff", "Languages"),
        ("mypy", "Languages"),
        ("pip", "Languages"),
        ("deno", "Languages"),
        ("pnpm", "Package Managers"),
        ("npm", "Package Managers"),
        ("npx", "Package Managers"),
        ("bun", "Package Managers"),
        ("bunx", "Package Managers"),
        ("prisma", "Package Managers"),
        ("ls", "Files & Search"),
        ("tree", "Files & Search"),
        ("read", "Files & Search"),
        ("find", "Files & Search"),
        ("grep", "Files & Search"),
        ("diff", "Files & Search"),
        ("wc", "Files & Search"),
        ("err", "Analysis & Debug"),
        ("json", "Analysis & Debug"),
        ("deps", "Analysis & Debug"),
        ("env", "Analysis & Debug"),
        ("log", "Analysis & Debug"),
        ("summary", "Analysis & Debug"),
        ("smart", "Analysis & Debug"),
        ("docker", "Infrastructure"),
        ("kubectl", "Infrastructure"),
        ("aws", "Infrastructure"),
        ("psql", "Infrastructure"),
        ("curl", "Infrastructure"),
        ("wget", "Infrastructure"),
        ("context", "Meta Commands"),
        ("dedup", "Meta Commands"),
        ("watch", "Meta Commands"),
        ("proxy", "Meta Commands"),
    ];
    assert(literal_pairs(r@) =~= registry());
    r
}

/// The position at or after `i` of the command `name` in the registry, or its length.
pub open spec fn entry_from(name: Seq<char>, i: int) -> int
    decreases registry().len() - i,
{
    if i < 0 || i >= registry().len() {
        registry().len() as int
    } else if registry()[i].0 == name {
        i
    } else {
        entry_from(name, i + 1)
    }
}

/// The category of the command `name`, if it has a filter of its own.
pub open spec fn category(name: Seq<char>) -> Option<Seq<char>> {
    if entry_from(name, 0) < registry().len() {
        Some(registry()[entry_from(name, 0)].1)
    } else {
        None
    }
}

/// The name of a command as it was run: the second word of `rtk git status`, for one.
pub open spec fn command_name(cmd: Seq<char>) -> Option<Seq<char>> {
    if text::words(cmd).len() >= 2 {
        Some(text::words(cmd)[1])
    } else {
        None
    }
}

/// The category of a command as it was run.
pub open spec fn category_name(cmd: Seq<char>) -> Option<Seq<char>> {
    match command_name(cmd) {
        Some(name) => category(name),
        None => None,
    }
}

/// Finds the category of a command by its name.
pub(crate) fn find_category(name: &Vec<char>) -> (r: Option<&'static str>)
    ensures
        r is Some <==> category(name@) is Some,
        r matches Some(c) ==> category(name@) == Some(c@),
{
    let list = command_registry();
    let ghost all = registry();
    assert(list.len() == all.len()) by {
        assert(literal_pairs(list@).len() == all.len());
    }
    let mut i: usize = 0;
    while i < list.len()
        invariant
            i <= list.len(),
            list.len() == all.len(),
            all == registry(),
            literal_pairs(list@) == all,
            entry_from(name@, 0) == entry_from(name@, i as int),
        decreases list.len() - i,
    {
        assert(all[i as int] == (list@[i as int].0@, list@[i as int].1@));
        if equals(name, list[i].0) {
            return Some(list[i].1);
        }
        i += 1;
    }
    None
}

/// The category of a command as it was run, such as `rtk git status`.
pub fn lookup_category(base_cmd: &str) -> (r: &'static str)
    ensures
        r@ == (match category_name(base_cmd@) {
            Some(c) => c,
            None => "Other"@,
        }),
{
    let words = words_of(base_cmd);
    if words.len() >= 2 {
        assert(text::views(words@)[1] == words@[1]@);
        match find_category(&words[1]) {
            Some(c) => {
                return c;
            },
            None => {},
        }
    }
    "Other"
}

/// `s` in a column of `width` characters: padded, or cut with an ellipsis where there is room
/// for one.
pub open spec fn in_column(s: Seq<char>, width: nat) -> Seq<char> {
    if s.len() <= width {
        text::left_aligned(s, width)
    } else if width <= 3 {
        s.take(width as int)
    } else {
        s.take(width - 3) + "..."@
    }
}

pub(crate) fn column_of(s: &Vec<char>, width: usize) -> (r: Vec<char>)
    ensures
        r@ == in_column(s@, width as nat),
{
    if s.len() <= width {
        return align_left(s, width);
    }
    if width <= 3 {
        assert(s@.subrange(0, width as int) =~= s@.take(width as int));
        return slice(s, 0, width);
    }
    assert(s@.subrange(0, width - 3) =~= s@.take(width - 3));
    let mut out = slice(s, 0, width - 3);
    extend_str(&mut out, "...");
    out
}

/// Truncates a text to fit a column, with an ellipsis.
pub fn truncate_for_column(text: &str, width: usize) -> (r: String)
    ensures
        r@ == in_column(text@, width as nat),
{
    string_of(&column_of(&chars_of(text), width))
}

/// A text in a column takes exactly its width.
pub proof fn lemma_column_width(s: Seq<char>, width: nat)
    ensures
        in_column(s, width).len() == width,
{
    reveal_strlit("...");
    assert("..."@.len() == 3);
}

/// What stands between two slashes is a component: it is not empty, and a dot only at the
/// start of the path.
pub open spec fn is_component(s: Seq<char>, at_start: bool) -> bool {
    s.len() > 0 && (s != "."@ || at_start)
}

/// The components of `s` from position `i` on, which is its start or follows a slash.
pub open spec fn components_from(s: Seq<char>, i: int) -> Seq<Seq<char>>
    decreases s.len() - i,
    when 0 <= i
{
    if i >= s.len() {
        Seq::empty()
    } else {
        proof {
            text::lemma_next_where(s, i, text::exactly('/'));
        }
        let k = text::next_where(s, i, text::exactly('/'));
        let rest = if k < s.len() {
            components_from(s, k + 1)
        } else {
            Seq::empty()
        };
        if is_component(s.subrange(i, k), i == 0) {
            seq![s.subrange(i, k)] + rest
        } else {
            rest
        }
    }
}

/// The components of a path: the root, if it begins with a slash, and what stands between
/// slashes. Repeated slashes and dots count for nothing, but for a dot at the start.
pub open spec fn components(s: Seq<char>) -> Seq<Seq<char>> {
    if s.len() > 0 && s[0] == '/' {
        seq!["/"@] + components_from(s, 1)
    } else {
        components_from(s, 0)
    }
}

/// A path that means the same on every machine, but for how its root is written: no
/// backslash, no drive or scheme, no share.
pub open spec fn is_portable(path: Seq<char>) -> bool {
    text::lacks(path, '\\') && text::lacks(path, ':') && !text::starts_with(path, "//"@)
}

/// `c` may be the components of `path` on the machine at hand. Those of a portable path are
/// the same everywhere, with the root written as a slash or a backslash. Of other paths
/// nothing is said.
pub open spec fn may_split(path: Seq<char>, c: Seq<Seq<char>>) -> bool {
    is_portable(path) ==> {
        &&& c.len() == components(path).len()
        &&& forall|i: int| 0 < i < c.len() ==> #[trigger] c[i] == components(path)[i]
        &&& c.len() > 0 ==> (c[0] == components(path)[0] || components(path)[0] == "/"@ && c[0]
            == "\\"@)
    }
}

/// `std::path::Path::components` gives the components of a path by the rules of the machine:
/// repeated separators and separators at the end count for nothing, nor does a dot that is not
/// at the start. How drives, shares and backslashes are read, and how the root is written,
/// depends on the machine.
#[verifier::external_body]
fn path_components(path: &str) -> (r: Vec<String>)
    ensures
        may_split(path@, text::strings(r@)),
{
    let path = std::path::Path::new(path);
    path.components().map(|c| c.as_os_str().to_string_lossy().to_string()).collect()
}

/// A path with more than four components, shortened to its root and its last two.
pub open spec fn shortened(path: Seq<char>, c: Seq<Seq<char>>) -> Seq<char> {
    if c.len() <= 4 {
        path
    } else {
        (if c[0] == "/"@ || c[0].len() == 0 {
            "/.../"@
        } else {
            c[0] + "/.../"@
        }) + c[c.len() - 2] + "/"@ + c[c.len() - 1]
    }
}

/// Shortens a long path for display, given its components.
pub fn shorten_components(path: &str, components: &Vec<String>) -> (r: String)
    ensures
        r@ == shortened(path@, text::strings(components@)),
{
    let n: usize = components.len();
    let ghost all = text::strings(components@);
    assert(all.len() == n);
    if n <= 4 {
        return string_of(&chars_of(path));
    }
    assert(all[0] == components@[0]@);
    assert(all[n - 2] == components@[n - 2]@);
    assert(all[n - 1] == components@[n - 1]@);
    let root = chars_of(components[0].as_str());
    let mut out: Vec<char> = if root.len() == 0 || equals(&root, "/") {
        chars_of("/.../")
    } else {
        let mut out = copy(&root);
        extend_str(&mut out, "/.../");
        out
    };
    extend_str(&mut out, components[n - 2].as_str());
    extend_str(&mut out, "/");
    extend_str(&mut out, components[n - 1].as_str());
    string_of(&out)
}

/// Shortens a long path for display. What the components of a path are is the machine's
/// affair where the path is not portable.
pub fn shorten_path(path: &str) -> (r: String)
    ensures
        exists|c: Seq<Seq<char>>| #[trigger] may_split(path@, c) && r@ == shortened(path@, c),
        is_portable(path@) && components(path@).len() <= 4 ==> r@ == path@,
        is_portable(path@) && components(path@).len() > 4 && components(path@)[0] != "/"@ ==> r@
            == shortened(path@, components(path@)),
        is_portable(path@) && components(path@).len() > 4 && components(path@)[0] == "/"@ ==> (r@
            == shortened(path@, components(path@)) || r@ == "\\"@ + shortened(
            path@,
            components(path@),
        )),
{
    let parts = path_components(path);
    let r = shorten_components(path, &parts);
    proof {
        let c = text::strings(parts@);
        assert(may_split(path@, c));
        if is_portable(path@) {
            if c.len() > 0 && c[0] == components(path@)[0] {
                assert(c =~= components(path@));
            } else if c.len() > 4 {
                reveal_strlit("\\");
                reveal_strlit("/");
                reveal_strlit("/.../");
                assert("\\"@[0] == '\\' && "/"@[0] == '/');
                assert("\\"@ + ("/.../"@ + c[c.len() - 2] + "/"@ + c[c.len() - 1]) =~= "\\"@
                    + "/.../"@ + c[c.len() - 2] + "/"@ + c[c.len() - 1]);
            }
        }
    }
    r
}

/// The lengths of periods that are asked for.
#[derive(Clone, Copy, Debug, PartialEq, Eq, Structural)]
pub struct Periods {
    pub daily: bool,
    pub weekly: bool,
    pub monthly: bool,
}

/// What is shown.
#[derive(Clone, Copy, Debug, PartialEq, Eq, Structural)]
pub enum Report {
    /// Commands that could not be parsed.
    Failures,
    /// An export as JSON.
    Json(Periods),
    /// An export as comma-separated values.
    Csv(Periods),
    /// The summary.
    Summary,
    /// Tables by day, week and month.
    Tables(Periods),
}

/// The report that a choice of options asks for.
pub open spec fn report_of(
    failures: bool,
    format: Seq<char>,
    daily: bool,
    weekly: bool,
    monthly: bool,
    all: bool,
) -> Report {
    let periods = Periods { daily: all || daily, weekly: all || weekly, monthly: all || monthly };
    if failures {
        Report::Failures
    } else if format == "json"@ {
        Report::Json(periods)
    } else if format == "csv"@ {
        Report::Csv(periods)
    } else if !daily && !weekly && !monthly && !all {
        Report::Summary
    } else {
        Report::Tables(periods)
    }
}

/// Decides what is shown.
pub fn choose_report(
    failures: bool,
    format: &str,
    daily: bool,
    weekly: bool,
    monthly: bool,
    all: bool,
) -> (r: Report)
    ensures
        r == report_of(failures, format@, daily, weekly, monthly, all),
{
    let periods = Periods { daily: all || daily, weekly: all || weekly, monthly: all || monthly };
    let f = chars_of(format);
    if failures {
        Report::Failures
    } else if equals(&f, "json") {
        Report::Json(periods)
    } else if equals(&f, "csv") {
        Report::Csv(periods)
    } else if !daily && !weekly && !monthly && !all {
        Report::Summary
    } else {
        Report::Tables(periods)
    }
}

/// The estimated number of tokens of a month in the smallest subscription.
pub const ESTIMATED_PRO_MONTHLY: usize = 6_000_000;

/// The estimated number of tokens of a month in a subscription, and its name.
pub fn monthly_quota(tier: &str) -> (r: (usize, &'static str))
    ensures
        r.0 == (if tier@ == "5x"@ {
            ESTIMATED_PRO_MONTHLY * 5
        } else if tier@ == "20x"@ {
            ESTIMATED_PRO_MONTHLY * 20
        } else {
            ESTIMATED_PRO_MONTHLY as int
        }),
        r.1@ == (if tier@ == "5x"@ {
            "Max 5x ($100/mo)"@
        } else if tier@ == "20x"@ {
            "Max 20x ($200/mo)"@
        } else {
            "Pro ($20/mo)"@
        }),
{
    let t = chars_of(tier);
    if equals(&t, "5x") {
        (ESTIMATED_PRO_MONTHLY * 5, "Max 5x ($100/mo)")
    } else if equals(&t, "20x") {
        (ESTIMATED_PRO_MONTHLY * 20, "Max 20x ($200/mo)")
    } else {
        (ESTIMATED_PRO_MONTHLY, "Pro ($20/mo)")
    }
}

proof fn lemma_entry_from(name: Seq<char>, i: int)
    requires
        0 <= i <= registry().len(),
    ensures
        i <= entry_from(name, i) <= registry().len(),
        entry_from(name, i) < registry().len() ==> registry()[entry_from(name, i)].0 == name,
        forall|j: int| i <= j < entry_from(name, i) ==> (#[trigger] registry()[j]).0 != name,
    decreases registry().len() - i,
{
    if i < registry().len() && registry()[i].0 != name {
        lemma_entry_from(name, i + 1);
    }
}

/// A command has the category that stands beside its name in the registry, and none if its
/// name does not stand there.
pub proof fn lemma_category(name: Seq<char>)
    ensures
        category(name) matches Some(c) ==> registry().contains((name, c)),
        category(name) is None <==> forall|i: int|
            0 <= i < registry().len() ==> (#[trigger] registry()[i]).0 != name,
{
    lemma_entry_from(name, 0);
    let k = entry_from(name, 0);
    if k < registry().len() {
        assert(registry()[k] == (name, registry()[k].1));
    }
}

/// A text that fits stands at the left of its column, with spaces behind it. Of a longer one the
/// first characters are shown, with three dots at the end where there is room for more.
pub proof fn lemma_in_column(s: Seq<char>, width: nat)
    ensures
        s.len() <= width ==> in_column(s, width).take(s.len() as int) == s && forall|i: int|
            s.len() <= i < width ==> #[trigger] in_column(s, width)[i] == ' ',
        s.len() > width && width > 3 ==> in_column(s, width).take(width - 3) == s.take(width - 3)
            && forall|i: int| width - 3 <= i < width ==> #[trigger] in_column(s, width)[i] == '.',
        s.len() > width && width <= 3 ==> in_column(s, width) == s.take(width as int),
{
    reveal_strlit("...");
    assert("..."@ =~= seq!['.', '.', '.']);
    text::lemma_aligned(s, width);
    if s.len() > width && width > 3 {
        assert(in_column(s, width).take(width - 3) =~= s.take(width - 3));
    }
}

/// A path of at most four components is shown as it is. A longer one begins with its root and
/// ends with its last two components, whatever stands between them.
pub proof fn lemma_shortened_path(
    path: Seq<char>,
    other: Seq<char>,
    root: Seq<char>,
    between: Seq<Seq<char>>,
    parent: Seq<char>,
    name: Seq<char>,
)
    ensures
        ({
            let c = seq![root] + between + seq![parent, name];
            &&& between.len() <= 1 ==> shortened(path, c) == path
            &&& between.len() >= 2 ==> {
                &&& shortened(path, c) == shortened(other, c)
                &&& root == "/"@ || root.len() == 0 ==> shortened(path, c) == "/.../"@ + parent
                    + "/"@ + name
                &&& root != "/"@ && root.len() > 0 ==> shortened(path, c) == root + "/.../"@
                    + parent + "/"@ + name
            }
        }),
{
    let c = seq![root] + between + seq![parent, name];
    assert(c[0] == root && c[c.len() - 2] == parent && c[c.len() - 1] == name);
}

/// Asking for all periods is asking for each of them, and a summary is shown if and only if
/// neither failures, nor an export, nor any period is asked for.
pub proof fn lemma_report_of(
    failures: bool,
    format: Seq<char>,
    daily: bool,
    weekly: bool,
    monthly: bool,
)
    ensures
        report_of(failures, format, daily, weekly, monthly, true) == report_of(
            failures,
            format,
            true,
            true,
            true,
            false,
        ),
        report_of(failures, format, daily, weekly, monthly, false) == Report::Summary <==> !failures
            && format != "json"@ && format != "csv"@ && !daily && !weekly && !monthly,
        failures ==> report_of(failures, format, daily, weekly, monthly, false) == Report::Failures,
{
}

/// A command as it was run has the category that the registry gives its second word, whatever the
/// words around that are. It has none if it has no second word, or one that the registry does not
/// know.
pub proof fn lemma_category_name(cmd: Seq<char>)
    ensures
        text::words(cmd).len() < 2 ==> category_name(cmd) is None,
        text::words(cmd).len() >= 2 ==> (category_name(cmd) is Some <==> exists|i: int|
            0 <= i < registry().len() && (#[trigger] registry()[i]).0 == text::words(cmd)[1]),
        text::words(cmd).len() >= 2 ==> forall|i: int|
            0 <= i < registry().len() && (#[trigger] registry()[i]).0 == text::words(cmd)[1] && (
            forall|j: int| 0 <= j < i ==> (#[trigger] registry()[j]).0 != text::words(cmd)[1])
                ==> category_name(cmd) == Some(registry()[i].1),
{
    if text::words(cmd).len() >= 2 {
        let name = text::words(cmd)[1];
        lemma_entry_from(name, 0);
        let k = entry_from(name, 0);
        assert forall|i: int|
            0 <= i < registry().len() && (#[trigger] registry()[i]).0 == name && (forall|j: int|
                0 <= j < i ==> (#[trigger] registry()[j]).0 != name) implies category_name(cmd)
            == Some(registry()[i].1) by {
            if i < k {
                assert(registry()[i].0 != name);
            } else if k < i {
                assert(registry()[k].0 != name);
            }
        }
    }
}

}
