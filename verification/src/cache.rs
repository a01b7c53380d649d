//! Caching of command output: keys, lifetimes and differences.

use vstd::prelude::*;

use crate::hashing;
use crate::line_diff;
use crate::line_diff::{absent_lines, list_lines};
use crate::number;
use crate::number::{decimal_wide, parse_decimal};
use crate::text;
use crate::text::{
    chars_of, equals, extend_str, joined_lines, lines_of, same, string_of,
};

verus! {

/// The most removed lines that a difference shows.
pub const MAX_REMOVED_LINES: usize = 20;

/// The most added lines that a difference shows.
pub const MAX_ADDED_LINES: usize = 30;

/// The lifetime of a cache entry, in minutes, where nothing else is set.
pub const DEFAULT_TTL_MINUTES: u64 = 5;

/// What `str::to_lowercase` makes of `s`.
pub uninterp spec fn lowercase(s: Seq<char>) -> Seq<char>;

/// `s` with the ASCII capital letters made small.
pub open spec fn ascii_lowercase(s: Seq<char>) -> Seq<char> {
    Seq::new(
        s.len(),
        |i: int|
            if 'A' <= s[i] <= 'Z' {
                (s[i] as u32 + 32) as char
            } else {
                s[i]
            },
    )
}

/// `str::to_lowercase` of the standard library maps each character to its lower case as
/// Unicode defines it. On ASCII strings that makes the capital letters small.
#[verifier::external_body]
fn to_lowercase(s: &str) -> (r: String)
    ensures
        r@ == lowercase(s@),
        vstd::utf8::is_ascii_chars(s@) ==> r@ == ascii_lowercase(s@),
{
    s.to_lowercase()
}

/// The key of a command and the directory that it runs in.
pub open spec fn key(cmd: Seq<char>, cwd: Seq<char>) -> u64 {
    hashing::finish(hashing::fed(cmd) + hashing::fed(cwd))
}

/// Computes a deterministic cache key from a command and its working directory.
pub fn cache_key(cmd: &str, cwd: &str) -> (r: u64)
    ensures
        r == key(cmd@, cwd@),
{
    hashing::hash_two(cmd, cwd)
}

/// The name of the file of a key.
pub open spec fn file_name(key: u64) -> Seq<char> {
    number::decimal(key as nat) + ".txt"@
}

/// The name of the file that caches a command's output.
pub fn cache_file_name(cmd: &str, cwd: &str) -> (r: String)
    ensures
        r@ == file_name(key(cmd@, cwd@)),
{
    let mut name = decimal_wide(cache_key(cmd, cwd) as u128);
    extend_str(&mut name, ".txt");
    string_of(&name)
}

/// Different keys have different files.
pub proof fn lemma_file_names(key: u64, other: u64)
    ensures
        file_name(key) == file_name(other) <==> key == other,
{
    if file_name(key) == file_name(other) {
        let a = number::decimal(key as nat);
        let b = number::decimal(other as nat);
        assert(file_name(key).len() == a.len() + ".txt"@.len());
        assert(file_name(other).len() == b.len() + ".txt"@.len());
        assert(file_name(key).take(a.len() as int) =~= a);
        assert(file_name(other).take(b.len() as int) =~= b);
        number::lemma_decimal_distinct(key as nat, other as nat);
    }
}

/// Commands whose output changes on every invocation.
pub open spec fn volatile_commands() -> Seq<Seq<char>> {
    seq![
        "git status"@,
        "git diff"@,
        "git log"@,
        "git show"@,
        "git stash"@,
        "ls"@,
        "find"@,
        "grep"@,
        "cat"@,
        "head"@,
        "tail"@,
        "ps"@,
        "top"@,
        "env"@,
        "date"@,
        "time"@,
    ]
}

fn volatile_list() -> (r: Vec<&'static str>)
    ensures
        text::literals(r@) == volatile_commands(),
{
    let r: Vec<&'static str> = vec![
        "git status",
        "git diff",
        "git log",
        "git show",
        "git stash",
        "ls",
        "find",
        "grep",
        "cat",
        "head",
        "tail",
        "ps",
        "top",
        "env",
        "date",
        "time",
    ];
    assert(text::literals(r@) =~= volatile_commands());
    r
}

/// `cmd` is the command `name`, with or without arguments.
pub open spec fn invokes(cmd: Seq<char>, name: Seq<char>) -> bool {
    cmd == name || text::starts_with(cmd, name + " "@)
}

/// The lower-case command `cmd` is volatile.
pub open spec fn is_volatile(cmd: Seq<char>) -> bool {
    exists|i: int|
        0 <= i < volatile_commands().len() && invokes(cmd, #[trigger] volatile_commands()[i])
}

/// Tells whether a lower-case command may be cached.
pub fn should_cache_lowercase(cmd: &str) -> (r: bool)
    ensures
        r == !is_volatile(cmd@),
{
    let c = chars_of(cmd);
    let list = volatile_list();
    let ghost names = volatile_commands();
    let mut i: usize = 0;
    while i < list.len()
        invariant
            i <= list.len(),
            c@ == cmd@,
            names == volatile_commands(),
            text::literals(list@) == names,
            forall|j: int| 0 <= j < i ==> !invokes(cmd@, #[trigger] names[j]),
        decreases list.len() - i,
    {
        let name = chars_of(list[i]);
        assert(name@ == names[i as int]);
        let mut start = chars_of(list[i]);
        extend_str(&mut start, " ");
        if same(&c, &name) || text::is_at(&c, 0, &start) {
            assert(invokes(cmd@, names[i as int]));
            return false;
        }
        i += 1;
    }
    true
}

/// Returns `false` for volatile commands, whose output changes on every invocation.
pub fn should_cache(cmd: &str) -> (r: bool)
    ensures
        r == !is_volatile(lowercase(cmd@)),
        vstd::utf8::is_ascii_chars(cmd@) ==> r == !is_volatile(ascii_lowercase(cmd@)),
{
    let lower = to_lowercase(cmd);
    should_cache_lowercase(lower.as_str())
}

/// Tells whether an entry of this age has outlived its lifetime.
pub fn is_expired(age_secs: u64, ttl_minutes: u64) -> (r: bool)
    requires
        ttl_minutes * 60 <= u64::MAX,
    ensures
        r == (age_secs > ttl_minutes * 60),
{
    age_secs > ttl_minutes * 60
}

/// What `diff_output` shows of the change from `cached` to `current`.
pub open spec fn difference(cached: Seq<char>, current: Seq<char>) -> Seq<char> {
    let removed = line_diff::absent(text::lines(cached), text::lines(current));
    let added = line_diff::absent(text::lines(current), text::lines(cached));
    if removed.len() == 0 && added.len() == 0 {
        "(no changes)"@
    } else {
        text::join(
            line_diff::listing(removed, "Resolved: "@, MAX_REMOVED_LINES as nat, ""@)
                + line_diff::listing(added, "New: "@, MAX_ADDED_LINES as nat, ""@),
            "\n"@,
        )
    }
}

/// Computes a line-level difference between cached and current output.
///
/// Lines that are gone are shown as "Resolved", lines that are new as "New", or there is
/// "(no changes)". Both lists are cut at a limit, with a count of the lines left out.
pub fn diff_output(cached: &str, current: &str) -> (r: String)
    ensures
        r@ == difference(cached@, current@),
{
    let before = lines_of(cached);
    let after = lines_of(current);
    let removed = absent_lines(&before, &after);
    let added = absent_lines(&after, &before);
    assert(text::views(removed@).len() == removed.len());
    assert(text::views(added@).len() == added.len());
    if removed.len() == 0 && added.len() == 0 {
        return string_of(&chars_of("(no changes)"));
    }
    let mut parts: Vec<Vec<char>> = Vec::new();
    list_lines(&mut parts, &removed, "Resolved: ", MAX_REMOVED_LINES, "");
    list_lines(&mut parts, &added, "New: ", MAX_ADDED_LINES, "");
    proof {
        let r = line_diff::listing(text::views(removed@), "Resolved: "@, 20, ""@);
        let a = line_diff::listing(text::views(added@), "New: "@, 30, ""@);
        assert(Seq::<Seq<char>>::empty() + r + a =~= r + a);
        assert(text::views(parts@) =~= r + a);
    }
    joined_lines(&parts)
}

/// The cache lifetime in minutes: what the environment says, if that is a number, else what
/// the configuration says, else the default.
pub fn get_ttl_minutes(environment: Option<&str>, configured: Option<u64>) -> (r: u64)
    ensures
        r == match environment {
            Some(v) if number::parsed(v@, u64::MAX as nat) is Some => number::parsed(
                v@,
                u64::MAX as nat,
            )->0,
            _ => match configured {
                Some(minutes) => minutes as nat,
                None => DEFAULT_TTL_MINUTES as nat,
            },
        },
{
    if let Some(v) = environment {
        if let Some(minutes) = parse_decimal(&chars_of(v), u64::MAX) {
            return minutes;
        }
    }
    match configured {
        Some(minutes) => minutes,
        None => DEFAULT_TTL_MINUTES,
    }
}

/// Tells whether a setting, given also in lower case, switches caching on.
pub fn switches_on(value: &str, lower: &str) -> (r: bool)
    ensures
        r == (value@ != "0"@ && lower@ != "false"@),
{
    !equals(&chars_of(value), "0") && !equals(&chars_of(lower), "false")
}

/// Whether caching is enabled: what the environment says, else what the configuration says,
/// else yes.
pub fn is_enabled(environment: Option<&str>, configured: Option<bool>) -> (r: bool)
    ensures
        r == match environment {
            Some(v) => v@ != "0"@ && lowercase(v@) != "false"@,
            None => match configured {
                Some(enabled) => enabled,
                None => true,
            },
        },
        environment matches Some(v) ==> vstd::utf8::is_ascii_chars(v@) ==> r == (v@ != "0"@
            && ascii_lowercase(v@) != "false"@),
{
    match environment {
        Some(v) => {
            let lower = to_lowercase(v);
            switches_on(v, lower.as_str())
        },
        None => match configured {
            Some(enabled) => enabled,
            None => true,
        },
    }
}

/// Two outputs with the same lines have no difference, in whatever order and however often
/// the lines stand there.
pub proof fn lemma_no_difference(cached: Seq<char>, current: Seq<char>)
    requires
        forall|x: Seq<char>|
            #[trigger] text::lines(cached).contains(x) <==> text::lines(current).contains(x),
    ensures
        difference(cached, current) == "(no changes)"@,
{
    let a = text::lines(cached);
    let b = text::lines(current);
    line_diff::lemma_absent_empty(a, b);
    line_diff::lemma_absent_empty(b, a);
    assert forall|i: int| 0 <= i < a.len() implies b.contains(#[trigger] a[i]) by {
        assert(a.contains(a[i]));
    }
    assert forall|i: int| 0 <= i < b.len() implies a.contains(#[trigger] b[i]) by {
        assert(b.contains(b[i]));
    }
}

/// A volatile command is volatile with any arguments.
pub proof fn lemma_volatile_with_arguments(cmd: Seq<char>, arguments: Seq<char>)
    requires
        is_volatile(cmd),
    ensures
        is_volatile(cmd + " "@ + arguments),
{
    let names = volatile_commands();
    let i = choose|i: int| 0 <= i < names.len() && invokes(cmd, #[trigger] names[i]);
    let longer = cmd + " "@ + arguments;
    let start = names[i] + " "@;
    if cmd == names[i] {
        assert(longer.subrange(0, start.len() as int) =~= start);
    } else {
        assert(longer.subrange(0, start.len() as int) =~= cmd.subrange(0, start.len() as int));
    }
    assert(invokes(longer, names[i]));
}

/// Whatever lines are gone, every line that was not there before is counted as new, and shown
/// if it is one of the first; and whatever lines are new, every line that is no longer there
/// is counted as resolved. There is nothing else in the difference, and without such lines it
/// says that nothing changed.
pub proof fn lemma_difference_lists(cached: Seq<char>, current: Seq<char>)
    ensures
        ({
            let removed = text::lines(cached).filter(
                |line: Seq<char>| !text::lines(current).contains(line),
            );
            let added = text::lines(current).filter(
                |line: Seq<char>| !text::lines(cached).contains(line),
            );
            if removed.len() == 0 && added.len() == 0 {
                difference(cached, current) == "(no changes)"@
            } else {
                exists|parts: Seq<Seq<char>>|
                    {
                        &&& difference(cached, current) == #[trigger] text::join(parts, "\n"@)
                        &&& parts.len() == line_diff::lines_for(removed.len(), 20)
                            + line_diff::lines_for(added.len(), 30)
                        &&& line_diff::lists(parts, 0, removed, "Resolved: "@, 20, ""@)
                        &&& line_diff::lists(
                            parts,
                            line_diff::lines_for(removed.len(), 20) as int,
                            added,
                            "New: "@,
                            30,
                            ""@,
                        )
                    }
            }
        }),
{
    line_diff::lemma_absent_is_filter(text::lines(cached), text::lines(current));
    line_diff::lemma_absent_is_filter(text::lines(current), text::lines(cached));
    let removed = line_diff::absent(text::lines(cached), text::lines(current));
    let added = line_diff::absent(text::lines(current), text::lines(cached));
    let r = line_diff::listing(removed, "Resolved: "@, 20, ""@);
    let a = line_diff::listing(added, "New: "@, 30, ""@);
    let none = Seq::<Seq<char>>::empty();
    line_diff::lemma_listing(removed, "Resolved: "@, 20, ""@);
    line_diff::lemma_listing(added, "New: "@, 30, ""@);
    line_diff::lemma_listing_moved(none, r, a, removed, "Resolved: "@, 20, ""@);
    line_diff::lemma_listing_moved(r, a, none, added, "New: "@, 30, ""@);
    assert(none + r + a =~= r + a);
    assert(r + a + none =~= r + a);
    if removed.len() > 0 || added.len() > 0 {
        assert(difference(cached, current) == text::join(r + a, "\n"@));
    }
}

/// A command is volatile exactly if it is one of the volatile ones, alone or with a space and
/// anything behind it.
pub proof fn lemma_volatile(cmd: Seq<char>)
    ensures
        is_volatile(cmd) <==> exists|name: Seq<char>|
            #[trigger] volatile_commands().contains(name) && (cmd == name || cmd.len() > name.len()
                && cmd.take(name.len() as int) == name && cmd[name.len() as int] == ' '),
{
    let names = volatile_commands();
    reveal_strlit(" ");
    assert(" "@ =~= seq![' ']);
    if is_volatile(cmd) {
        let i = choose|i: int| 0 <= i < names.len() && invokes(cmd, #[trigger] names[i]);
        let name = names[i];
        assert(names.contains(name));
        if cmd != name {
            let start = name + " "@;
            let x = cmd.subrange(0, start.len() as int);
            assert(x == start);
            assert(x[name.len() as int] == ' ');
            assert(cmd.take(name.len() as int) =~= start.take(name.len() as int)) by {
                assert forall|k: int| 0 <= k < name.len() implies cmd[k] == start[k] by {
                    assert(x[k] == start[k]);
                }
            }
            assert(start.take(name.len() as int) =~= name);
        }
    }
    if exists|name: Seq<char>|
        #[trigger] names.contains(name) && (cmd == name || cmd.len() > name.len() && cmd.take(
            name.len() as int,
        ) == name && cmd[name.len() as int] == ' ') {
        let name = choose|name: Seq<char>|
            #[trigger] names.contains(name) && (cmd == name || cmd.len() > name.len() && cmd.take(
                name.len() as int,
            ) == name && cmd[name.len() as int] == ' ');
        let i = choose|i: int| 0 <= i < names.len() && names[i] == name;
        if cmd != name {
            assert(cmd.subrange(0, name.len() + 1int) =~= name + " "@) by {
                assert forall|k: int| 0 <= k < name.len() implies cmd[k] == name[k] by {
                    assert(cmd.take(name.len() as int)[k] == name[k]);
                }
            }
        }
        assert(invokes(cmd, names[i]));
    }
}

/// These commands are volatile.
pub proof fn lemma_volatile_names()
    ensures
        is_volatile("git status"@) && is_volatile("git diff"@) && is_volatile("git log"@)
            && is_volatile("git show"@) && is_volatile("git stash"@) && is_volatile("ls"@)
            && is_volatile("find"@) && is_volatile("grep"@) && is_volatile("cat"@) && is_volatile(
            "head"@,
        ) && is_volatile("tail"@) && is_volatile("ps"@) && is_volatile("top"@) && is_volatile(
            "env"@,
        ) && is_volatile("date"@) && is_volatile("time"@),
        volatile_commands().len() == 16,
{
    let v = volatile_commands();
    assert(forall|i: int| 0 <= i < v.len() ==> invokes(#[trigger] v[i], v[i]));
    assert(is_volatile(v[0]) && is_volatile(v[1]) && is_volatile(v[2]) && is_volatile(v[3])
        && is_volatile(v[4]) && is_volatile(v[5]) && is_volatile(v[6]) && is_volatile(v[7])
        && is_volatile(v[8]) && is_volatile(v[9]) && is_volatile(v[10]) && is_volatile(v[11])
        && is_volatile(v[12]) && is_volatile(v[13]) && is_volatile(v[14]) && is_volatile(v[15]));
}

}
