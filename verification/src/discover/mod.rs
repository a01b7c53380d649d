//! Discovery of missed savings in the history of commands.

use vstd::prelude::*;

use crate::text;
use crate::text::{
    chars_of, copy, equals, extend, extend_str, has_prefix, is_listed, split_words, string_of,
};

pub mod report;
pub mod summary;

verus! {

/// Commands whose second word is a path or file argument.
pub open spec fn arg_commands() -> Seq<Seq<char>> {
    seq![
        "cat"@,
        "head"@,
        "tail"@,
        "wc"@,
        "less"@,
        "more"@,
        "touch"@,
        "rm"@,
        "cp"@,
        "mv"@,
        "mkdir"@,
        "chmod"@,
        "chown"@,
        "file"@,
        "stat"@,
        "du"@,
        "df"@,
        "sort"@,
        "uniq"@,
        "cut"@,
        "tr"@,
        "tee"@,
        "xargs"@,
    ]
}

/// Commands whose second word counts only if it is a flag.
pub open spec fn flag_commands() -> Seq<Seq<char>> {
    seq!["grep"@, "find"@, "ls"@]
}

fn arg_list() -> (r: Vec<&'static str>)
    ensures
        text::literals(r@) == arg_commands(),
{
    let r: Vec<&'static str> = vec![
        "cat",
        "head",
        "tail",
        "wc",
        "less",
        "more",
        "touch",
        "rm",
        "cp",
        "mv",
        "mkdir",
        "chmod",
        "chown",
        "file",
        "stat",
        "du",
        "df",
        "sort",
        "uniq",
        "cut",
        "tr",
        "tee",
        "xargs",
    ];
    assert(text::literals(r@) =~= arg_commands());
    r
}

fn flag_list() -> (r: Vec<&'static str>)
    ensures
        text::literals(r@) == flag_commands(),
{
    let r: Vec<&'static str> = vec!["grep", "find", "ls"];
    assert(text::literals(r@) =~= flag_commands());
    r
}

/// The position at or after `i` of the subcommand of `pnpm` among `words`: flags that choose
/// packages do not count, nor does the argument of such a flag.
pub open spec fn pnpm_subcommand(words: Seq<Seq<char>>, i: int) -> int
    decreases words.len() - i,
{
    if i < 0 || i >= words.len() {
        words.len() as int
    } else if (words[i] == "--filter"@ || words[i] == "-F"@) && i + 1 < words.len() {
        pnpm_subcommand(words, i + 2)
    } else if text::starts_with(words[i], "--filter="@) || text::starts_with(words[i], "-F"@) {
        pnpm_subcommand(words, i + 1)
    } else if words[i] == "-r"@ || words[i] == "--recursive"@ || words[i] == "-w"@ || words[i]
        == "--workspace-root"@ {
        pnpm_subcommand(words, i + 1)
    } else {
        i
    }
}

/// The name under which the command made of `words` is grouped with others.
pub open spec fn base_name(words: Seq<Seq<char>>) -> Seq<char> {
    if words.len() == 0 {
        Seq::empty()
    } else if (words[0] == "python"@ || words[0] == "python3"@) && words.len() >= 3 && words[1]
        == "-m"@ {
        words[0] + " -m "@ + words[2]
    } else if words[0] == "pnpm"@ && words.len() >= 2 {
        let i = pnpm_subcommand(words, 1);
        if i < words.len() {
            "pnpm "@ + words[i]
        } else {
            "pnpm"@
        }
    } else if arg_commands().contains(words[0]) {
        words[0]
    } else if flag_commands().contains(words[0]) && words.len() >= 2 {
        if text::starts_with(words[1], "-"@) {
            words[0] + " "@ + words[1]
        } else {
            words[0]
        }
    } else if words.len() >= 2 {
        words[0] + " "@ + words[1]
    } else {
        words[0]
    }
}

fn find_pnpm_subcommand(words: &Vec<Vec<char>>) -> (r: usize)
    requires
        words.len() >= 1,
    ensures
        r == pnpm_subcommand(text::views(words@), 1),
        r <= words.len(),
{
    let ghost all = text::views(words@);
    let mut i: usize = 1;
    while i < words.len()
        invariant
            i <= words.len(),
            all == text::views(words@),
            pnpm_subcommand(all, 1) == pnpm_subcommand(all, i as int),
        decreases words.len() - i,
    {
        let word = &words[i];
        assert(all[i as int] == word@);
        if (equals(word, "--filter") || equals(word, "-F")) && i + 1 < words.len() {
            i += 2;
        } else if has_prefix(word, "--filter=") || has_prefix(word, "-F") {
            i += 1;
        } else if equals(word, "-r") || equals(word, "--recursive") || equals(word, "-w") || equals(
            word,
            "--workspace-root",
        ) {
            i += 1;
        } else {
            return i;
        }
    }
    i
}

fn two_words(a: &Vec<char>, sep: &str, b: &Vec<char>) -> (r: Vec<char>)
    ensures
        r@ == a@ + sep@ + b@,
{
    let mut r = copy(a);
    extend_str(&mut r, sep);
    extend(&mut r, b);
    r
}

pub(crate) fn base_of(cmd: &Vec<char>) -> (r: Vec<char>)
    ensures
        r@ == base_name(text::words(cmd@)),
{
    let words = split_words(cmd);
    let ghost all = text::views(words@);
    if words.len() == 0 {
        return Vec::new();
    }
    assert(all[0] == words@[0]@);
    if words.len() >= 2 {
        assert(all[1] == words@[1]@);
    }
    if (equals(&words[0], "python") || equals(&words[0], "python3")) && words.len() >= 3 && equals(
        &words[1],
        "-m",
    ) {
        return two_words(&words[0], " -m ", &words[2]);
    }
    if equals(&words[0], "pnpm") && words.len() >= 2 {
        let i = find_pnpm_subcommand(&words);
        if i < words.len() {
            let mut r = chars_of("pnpm ");
            extend(&mut r, &words[i]);
            return r;
        }
        return chars_of("pnpm");
    }
    if is_listed(&words[0], &arg_list()) {
        return copy(&words[0]);
    }
    if is_listed(&words[0], &flag_list()) && words.len() >= 2 {
        if has_prefix(&words[1], "-") {
            return two_words(&words[0], " ", &words[1]);
        }
        return copy(&words[0]);
    }
    if words.len() >= 2 {
        two_words(&words[0], " ", &words[1])
    } else {
        copy(&words[0])
    }
}

/// The name under which a command is grouped with others among the top token consumers.
///
/// - `python -m pytest ...` gives `python -m pytest`, three words.
/// - `pnpm --filter X cmd` gives `pnpm cmd`: the flag and its argument do not count.
/// - `pnpm -r build` gives `pnpm build`.
/// - `cat`, `head` and the like are grouped by their name alone.
/// - `grep`, `find` and `ls` keep their first flag.
/// - Any other command gives its first two words.
pub fn consumer_base(cmd: &str) -> (r: String)
    ensures
        r@ == base_name(text::words(cmd@)),
{
    string_of(&base_of(&chars_of(cmd)))
}

/// The second word of a command, or nothing if it has none.
pub open spec fn subcommand(words: Seq<Seq<char>>) -> Seq<char> {
    if words.len() >= 2 {
        words[1]
    } else {
        Seq::empty()
    }
}

/// The first two words of a command.
pub open spec fn display_name(words: Seq<Seq<char>>) -> Seq<char> {
    if words.len() == 0 {
        Seq::empty()
    } else if words.len() == 1 {
        words[0]
    } else {
        words[0] + " "@ + words[1]
    }
}

/// The subcommand of a command: its second word.
pub fn extract_subcmd(cmd: &str) -> (r: String)
    ensures
        r@ == subcommand(text::words(cmd@)),
{
    let words = split_words(&chars_of(cmd));
    let ghost all = text::views(words@);
    if words.len() >= 2 {
        assert(all[1] == words@[1]@);
        string_of(&words[1])
    } else {
        string_of(&Vec::new())
    }
}

pub(crate) fn display_of(cmd: &Vec<char>) -> (r: Vec<char>)
    ensures
        r@ == display_name(text::words(cmd@)),
{
    let words = split_words(cmd);
    let ghost all = text::views(words@);
    if words.len() == 0 {
        return Vec::new();
    }
    assert(all[0] == words@[0]@);
    if words.len() == 1 {
        return copy(&words[0]);
    }
    assert(all[1] == words@[1]@);
    two_words(&words[0], " ", &words[1])
}

/// A command for display: its first two words.
pub fn truncate_command(cmd: &str) -> (r: String)
    ensures
        r@ == display_name(text::words(cmd@)),
{
    string_of(&display_of(&chars_of(cmd)))
}

/// Every command that has words is grouped under a name.
pub proof fn lemma_base_name(words: Seq<Seq<char>>)
    requires
        forall|i: int| 0 <= i < words.len() ==> (#[trigger] words[i]).len() > 0,
    ensures
        base_name(words).len() > 0 <==> words.len() > 0,
{
    reveal_strlit("pnpm");
    reveal_strlit("pnpm ");
    assert("pnpm"@.len() == 4 && "pnpm "@.len() == 5);
    if words.len() > 0 {
        assert(words[0].len() > 0);
    }
}

/// Where a subcommand of `pnpm` is found, it is no flag that is passed over.
proof fn lemma_pnpm_subcommand(words: Seq<Seq<char>>, i: int)
    requires
        0 <= i,
    ensures
        pnpm_subcommand(words, i) < words.len() ==> {
            let j = pnpm_subcommand(words, i);
            &&& i <= j
            &&& pnpm_subcommand(seq!["pnpm"@, words[j]], 1) == 1
        },
    decreases words.len() - i,
{
    if i < words.len() {
        if (words[i] == "--filter"@ || words[i] == "-F"@) && i + 1 < words.len() {
            lemma_pnpm_subcommand(words, i + 2);
        } else if text::starts_with(words[i], "--filter="@) || text::starts_with(
            words[i],
            "-F"@,
        ) {
            lemma_pnpm_subcommand(words, i + 1);
        } else if words[i] == "-r"@ || words[i] == "--recursive"@ || words[i] == "-w"@ || words[i]
            == "--workspace-root"@ {
            lemma_pnpm_subcommand(words, i + 1);
        }
    }
}

/// The words of the name under which the command made of `words` is grouped.
pub open spec fn base_words(words: Seq<Seq<char>>) -> Seq<Seq<char>> {
    if words.len() == 0 {
        Seq::empty()
    } else if (words[0] == "python"@ || words[0] == "python3"@) && words.len() >= 3 && words[1]
        == "-m"@ {
        words.take(3)
    } else if words[0] == "pnpm"@ && words.len() >= 2 {
        let i = pnpm_subcommand(words, 1);
        if i < words.len() {
            seq!["pnpm"@, words[i]]
        } else {
            seq!["pnpm"@]
        }
    } else if arg_commands().contains(words[0]) || words.len() == 1 || flag_commands().contains(
        words[0],
    ) && !text::starts_with(words[1], "-"@) {
        words.take(1)
    } else {
        words.take(2)
    }
}

proof fn lemma_base_words(words: Seq<Seq<char>>)
    ensures
        base_name(words) == text::join(base_words(words), " "@),
        base_name(base_words(words)) == base_name(words),
{
    let short = base_words(words);
    reveal_strlit(" ");
    reveal_strlit("-m");
    reveal_strlit(" -m ");
    reveal_strlit("pnpm");
    reveal_strlit("pnpm ");
    reveal_with_fuel(text::join, 4);
    assert(" -m "@ =~= " "@ + "-m"@ + " "@);
    assert("pnpm "@ =~= "pnpm"@ + " "@);
    if words.len() > 0 {
        assert(short[0] == words[0]);
        if (words[0] == "python"@ || words[0] == "python3"@) && words.len() >= 3 && words[1]
            == "-m"@ {
            assert(short.drop_last().drop_last() =~= seq![words[0]]);
            assert(short.drop_last().last() == words[1]);
            assert(base_name(words) =~= text::join(short, " "@));
        } else if words[0] == "pnpm"@ && words.len() >= 2 {
            lemma_pnpm_subcommand(words, 1);
            if pnpm_subcommand(words, 1) < words.len() {
                assert(short.drop_last() =~= seq!["pnpm"@]);
            } else {
                assert("pnpm"@.len() == 4);
                lemma_pnpm_alone();
            }
            assert(base_name(words) =~= text::join(short, " "@));
        } else if short.len() == 2 {
            assert(short.drop_last() =~= seq![words[0]]);
            assert(short[1] == words[1]);
        }
    }
}

/// `pnpm` by itself is grouped under its name.
proof fn lemma_pnpm_alone()
    ensures
        base_name(seq!["pnpm"@]) == "pnpm"@,
{
}

/// The name of a group is in the group: its own name is itself.
pub proof fn lemma_base_again(cmd: Seq<char>)
    ensures
        base_name(text::words(base_name(text::words(cmd)))) == base_name(text::words(cmd)),
{
    let words = text::words(cmd);
    let short = base_words(words);
    text::lemma_words_are_words(cmd);
    lemma_base_words(words);
    lemma_pnpm_subcommand(words, 1);
    reveal_strlit("pnpm");
    reveal_strlit("python");
    reveal_strlit("python3");
    assert("pnpm"@.len() == 4 && "python"@.len() == 6 && "python3"@.len() == 7);
    assert forall|j: int| 0 <= j < short.len() implies text::is_word(#[trigger] short[j]) by {
        assert(words.contains(short[j])) by {
            if words[0] == "pnpm"@ && words.len() >= 2 && j == 1 {
                assert(words[pnpm_subcommand(words, 1)] == short[j]);
            } else {
                assert(words[j] == short[j]);
            }
        }
    }
    text::lemma_words_of_join(short);
}

/// Only the first two words of a command count for its group, unless it is `pnpm`, or `python`
/// with a module: then its third word counts too, and no more.
pub proof fn lemma_base_of_first_words(words: Seq<Seq<char>>)
    ensures
        words.len() >= 2 && words[0] != "pnpm"@ && words[0] != "python"@ && words[0] != "python3"@
            ==> base_name(words) == base_name(words.take(2)),
        words.len() >= 3 && words[0] != "pnpm"@ ==> base_name(words) == base_name(words.take(3)),
        words.len() >= 1 ==> text::starts_with(base_name(words), words[0]),
{
    let b = base_name(words);
    if words.len() >= 1 {
        reveal_strlit("pnpm");
        reveal_strlit("pnpm ");
        assert("pnpm "@.subrange(0, 4) =~= "pnpm"@);
        if b.len() >= words[0].len() {
            assert(b.subrange(0, words[0].len() as int) =~= words[0]);
        }
    }
}

/// A command whose second word is no path counts with it: any command but those that take
/// files, and but `grep`, `find` and `ls` without a flag.
pub proof fn lemma_base_of_subcommand(words: Seq<Seq<char>>)
    requires
        words.len() >= 2,
        words[0] != "pnpm"@,
        !((words[0] == "python"@ || words[0] == "python3"@) && words[1] == "-m"@),
        !arg_commands().contains(words[0]),
        flag_commands().contains(words[0]) ==> text::starts_with(words[1], "-"@),
    ensures
        base_name(words) == words[0] + " "@ + words[1],
        display_name(words) == words[0] + " "@ + words[1],
        subcommand(words) == words[1],
{
}

proof fn lemma_pnpm_after(a: Seq<Seq<char>>, b: Seq<Seq<char>>, i: int)
    requires
        a.len() >= 1,
        0 <= i,
        i <= b.len(),
    ensures
        pnpm_subcommand(a + b, a.len() + i) - a.len() == pnpm_subcommand(b, i),
    decreases b.len() - i,
{
    let whole = a + b;
    if i < b.len() {
        assert(whole[a.len() + i] == b[i]);
        lemma_pnpm_after(a, b, i + 1);
        if i + 1 < b.len() {
            lemma_pnpm_after(a, b, i + 2);
        }
    }
}

/// Flags of `pnpm` that choose packages change nothing in its group, nor do the arguments of
/// such flags.
pub proof fn lemma_pnpm_flags(flag: Seq<char>, argument: Seq<char>, rest: Seq<Seq<char>>)
    requires
        rest.len() > 0,
    ensures
        flag == "--filter"@ || flag == "-F"@ ==> base_name(
            seq!["pnpm"@, flag, argument] + rest,
        ) == base_name(seq!["pnpm"@] + rest),
        flag == "-r"@ || flag == "--recursive"@ || flag == "-w"@ || flag == "--workspace-root"@
            || text::starts_with(flag, "--filter="@) ==> base_name(seq!["pnpm"@, flag] + rest)
            == base_name(seq!["pnpm"@] + rest),
{
    reveal_strlit("pnpm");
    reveal_strlit("python");
    reveal_strlit("python3");
    reveal_strlit("--filter");
    reveal_strlit("-F");
    reveal_strlit("-r");
    reveal_strlit("--recursive");
    reveal_strlit("-w");
    reveal_strlit("--workspace-root");
    reveal_strlit("--filter=");
    assert("pnpm"@.len() == 4 && "python"@.len() == 6 && "python3"@.len() == 7);
    assert("--filter"@.len() == 8 && "-F"@.len() == 2 && "-r"@.len() == 2 && "-w"@.len() == 2
        && "--recursive"@.len() == 11 && "--workspace-root"@.len() == 16 && "--filter="@.len() == 9);
    assert("-r"@[1] == 'r' && "-F"@[1] == 'F' && "-w"@[1] == 'w');
    let plain = seq!["pnpm"@] + rest;
    lemma_pnpm_after(seq!["pnpm"@], rest, 0);
    lemma_pnpm_found(rest, 0);
    if flag == "--filter"@ || flag == "-F"@ {
        let a = seq!["pnpm"@, flag, argument];
        let whole = a + rest;
        lemma_pnpm_after(a, rest, 0);
        assert(whole[1] == flag && whole[0] == "pnpm"@);
        assert(pnpm_subcommand(whole, 1) == pnpm_subcommand(whole, 3));
        let k = pnpm_subcommand(rest, 0);
        if k < rest.len() {
            assert(whole[3 + k] == rest[k] && plain[1 + k] == rest[k]);
        }
    }
    if flag == "-r"@ || flag == "--recursive"@ || flag == "-w"@ || flag == "--workspace-root"@
        || text::starts_with(flag, "--filter="@) {
        let a = seq!["pnpm"@, flag];
        let whole = a + rest;
        lemma_pnpm_after(a, rest, 0);
        assert(whole[1] == flag && whole[0] == "pnpm"@);
        assert(pnpm_subcommand(whole, 1) == pnpm_subcommand(whole, 2));
        let k = pnpm_subcommand(rest, 0);
        if k < rest.len() {
            assert(whole[2 + k] == rest[k] && plain[1 + k] == rest[k]);
        }
    }
}

proof fn lemma_pnpm_found(words: Seq<Seq<char>>, i: int)
    requires
        0 <= i <= words.len(),
    ensures
        i <= pnpm_subcommand(words, i) <= words.len(),
    decreases words.len() - i,
{
    if i < words.len() && pnpm_subcommand(words, i) != i {
        if (words[i] == "--filter"@ || words[i] == "-F"@) && i + 1 < words.len() {
            lemma_pnpm_found(words, i + 2);
        } else {
            lemma_pnpm_found(words, i + 1);
        }
    }
}

/// What follows the second word of a command does not count for its display name nor for its
/// subcommand.
pub proof fn lemma_display(first: Seq<char>, second: Seq<char>, rest: Seq<Seq<char>>)
    ensures
        display_name(seq![first]) == first,
        display_name(seq![first, second] + rest) == first + " "@ + second,
        subcommand(seq![first, second] + rest) == second,
        subcommand(seq![first]).len() == 0,
{
    let words = seq![first, second] + rest;
    assert(words[0] == first && words[1] == second);
}

/// The commands that take files are grouped by their name alone, whatever follows it, and so are
/// those that take flags, if no flag follows. A module of `python` is grouped by its name.
pub proof fn lemma_base_of_name(words: Seq<Seq<char>>)
    requires
        words.len() >= 2,
        words[0] != "pnpm"@,
    ensures
        (words[0] == "python"@ || words[0] == "python3"@) && words[1] == "-m"@ && words.len() >= 3
            ==> base_name(words) == words[0] + " -m "@ + words[2],
        words[0] != "python"@ && words[0] != "python3"@ && arg_commands().contains(words[0])
            ==> base_name(words) == words[0],
        words[0] != "python"@ && words[0] != "python3"@ && !arg_commands().contains(words[0])
            && flag_commands().contains(words[0]) && !text::starts_with(words[1], "-"@)
            ==> base_name(words) == words[0],
{
}

}
