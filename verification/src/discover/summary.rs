//! What a scan of the history of commands adds up to.

use vstd::prelude::*;

use super::report::{
    DiscoverReport, RtkHandling, RtkStatus, SupportedEntry, TokenConsumer, UnsupportedEntry,
};
use super::{base_of, display_of};
use crate::grouping;
use crate::grouping::{group, Group};
use crate::number;
use crate::number::decimal_of;
use crate::order;
use crate::order::{rank, sort_texts};
use crate::text;
use crate::text::{chars_of, copy, extend, extend_str, has_prefix, same, string_of, trimmed};

verus! {

/// What the rules say of a command.
#[derive(Debug)]
pub enum Classification {
    /// There is a filter for it.
    Supported {
        rtk_equivalent: &'static str,
        category: &'static str,
        /// The estimated savings in percent, as the bits of a double.
        estimated_savings_pct_bits: u64,
        status: RtkStatus,
    },
    /// There is none.
    Unsupported { base_command: String },
    /// It does not count.
    Ignored,
}

/// A command that was told to bypass the filter.
#[derive(Debug)]
pub struct Bypass {
    /// The command without what told it so.
    pub command: String,
    pub classification: Classification,
}

/// One command of a chain.
#[derive(Debug)]
pub struct Part {
    pub text: String,
    pub classification: Classification,
    /// What commands of its category print on average, in tokens.
    pub average_tokens: usize,
    /// Set if it was told to bypass the filter.
    pub bypass: Option<Bypass>,
    /// How the commands with which it is grouped are handled.
    pub handling: RtkHandling,
}

/// A chain of commands, and how many bytes it printed, if that is known.
#[derive(Debug)]
pub struct ExtractedCommand {
    pub parts: Vec<Part>,
    pub output_len: Option<usize>,
}

/// The last of the first `n` parts that is not ignored.
pub open spec fn last_counted(parts: Seq<Part>, n: int) -> Option<int>
    decreases n,
{
    if n <= 0 {
        None
    } else if !(parts[n - 1].classification is Ignored) {
        Some(n - 1)
    } else {
        last_counted(parts, n - 1)
    }
}

/// The part of a chain that produced its output: the last that is not ignored.
pub open spec fn effective(parts: Seq<Part>) -> Option<int> {
    last_counted(parts, parts.len() as int)
}

/// The part that produced the output of a chain is one that is not ignored, and every part
/// after it is. There is none only where all parts are ignored.
pub proof fn lemma_effective_part(parts: Seq<Part>)
    ensures
        forall|k: int|
            0 <= k < parts.len() && !((#[trigger] parts[k]).classification is Ignored) && (forall|
                j: int,
            |
                k < j < parts.len() ==> (#[trigger] parts[j]).classification is Ignored)
                ==> effective(parts) == Some(k),
        effective(parts) matches Some(k) ==> 0 <= k < parts.len() && !(
        parts[k].classification is Ignored) && forall|j: int|
            k < j < parts.len() ==> (#[trigger] parts[j]).classification is Ignored,
        effective(parts) is None ==> forall|j: int|
            0 <= j < parts.len() ==> (#[trigger] parts[j]).classification is Ignored,
{
    lemma_effective(parts, parts.len() as int);
    assert forall|k: int|
        0 <= k < parts.len() && !((#[trigger] parts[k]).classification is Ignored) && (forall|
            j: int,
        |
            k < j < parts.len() ==> (#[trigger] parts[j]).classification is Ignored) implies effective(
        parts,
    ) == Some(k) by {
        let e = effective(parts);
        assert(e is Some);
        if e->0 < k {
            assert(parts[k].classification is Ignored);
        } else if e->0 > k {
            assert(parts[e->0].classification is Ignored);
        }
    }
}

/// Finds the part of a chain that produced its output.
pub fn effective_index(parts: &Vec<Part>) -> (r: Option<usize>)
    ensures
        r is Some <==> effective(parts@) is Some,
        r matches Some(i) ==> effective(parts@) == Some(i as int) && i < parts.len(),
        r matches Some(i) ==> !(parts@[i as int].classification is Ignored) && forall|j: int|
            i < j < parts.len() ==> (#[trigger] parts@[j]).classification is Ignored,
        r is None ==> forall|j: int|
            0 <= j < parts.len() ==> (#[trigger] parts@[j]).classification is Ignored,
{
    let mut n: usize = parts.len();
    while n > 0
        invariant
            n <= parts.len(),
            effective(parts@) == last_counted(parts@, n as int),
            forall|j: int|
                n <= j < parts.len() ==> (#[trigger] parts@[j]).classification is Ignored,
        decreases n,
    {
        match parts[n - 1].classification {
            Classification::Ignored => {},
            _ => {
                return Some(n - 1);
            },
        }
        n -= 1;
    }
    None
}

/// The number of tokens that part `i` of a chain printed, as far as it is known: a quarter of
/// the bytes of the chain for the part that produced them, else what its category prints on
/// average.
pub open spec fn printed_tokens(cmd: ExtractedCommand, i: int) -> usize {
    if effective(cmd.parts@) == Some(i) && cmd.output_len is Some {
        cmd.output_len->0 / 4
    } else {
        cmd.parts@[i].average_tokens
    }
}

/// Of a chain whose output is known, the last part that is not ignored is estimated at a
/// quarter of the bytes, wherever it stands and however many parts there are. Every other part
/// is estimated at the average of its category, and so is every part of a chain whose output
/// is not known.
pub proof fn lemma_printed_tokens(cmd: ExtractedCommand)
    ensures
        forall|k: int|
            0 <= k < cmd.parts@.len() ==> #[trigger] printed_tokens(cmd, k) == if cmd.output_len is Some
                && !(cmd.parts@[k].classification is Ignored) && (forall|j: int|
                k < j < cmd.parts@.len() ==> (#[trigger] cmd.parts@[j]).classification is Ignored) {
                cmd.output_len->0 / 4
            } else {
                cmd.parts@[k].average_tokens
            },
{
    lemma_effective_part(cmd.parts@);
}

/// Estimates what each part of a chain printed.
pub fn output_estimates(cmd: &ExtractedCommand) -> (r: Vec<usize>)
    ensures
        r@ == Seq::new(cmd.parts@.len(), |i: int| printed_tokens(*cmd, i)),
        r.len() == cmd.parts.len(),
        forall|k: int|
            0 <= k < r.len() ==> #[trigger] r@[k] == if cmd.output_len is Some && !(
            cmd.parts@[k].classification is Ignored) && (forall|j: int|
                k < j < cmd.parts.len() ==> (#[trigger] cmd.parts@[j]).classification is Ignored) {
                cmd.output_len->0 / 4
            } else {
                cmd.parts@[k].average_tokens
            },
{
    proof {
        lemma_printed_tokens(*cmd);
    }
    let last = effective_index(&cmd.parts);
    let mut r: Vec<usize> = Vec::new();
    let mut i: usize = 0;
    while i < cmd.parts.len()
        invariant
            i <= cmd.parts.len(),
            last is Some <==> effective(cmd.parts@) is Some,
            last matches Some(k) ==> effective(cmd.parts@) == Some(k as int),
            r@ =~= Seq::new(i as nat, |j: int| printed_tokens(*cmd, j)),
        decreases cmd.parts.len() - i,
    {
        let counted = match last {
            Some(k) => k == i,
            None => false,
        };
        let tokens: usize = match cmd.output_len {
            Some(len) => if counted {
                len / 4
            } else {
                cmd.parts[i].average_tokens
            },
            None => cmd.parts[i].average_tokens,
        };
        r.push(tokens);
        i += 1;
    }
    r
}

/// How the commands of a group are handled, by what the rules say of its name and of its name
/// with an argument.
pub open spec fn handling(bare: Classification, with_argument: Classification) -> RtkHandling {
    let c = if bare is Supported {
        bare
    } else {
        with_argument
    };
    match c {
        Classification::Supported { status, .. } => match status {
            RtkStatus::Existing => RtkHandling::Filtered,
            RtkStatus::Passthrough => RtkHandling::Passthrough,
            RtkStatus::NotSupported => RtkHandling::Unhandled,
        },
        _ => RtkHandling::Unhandled,
    }
}

fn status_handling(c: &Classification) -> (r: RtkHandling)
    ensures
        r == handling(*c, *c),
{
    match c {
        Classification::Supported { status, .. } => match status {
            RtkStatus::Existing => RtkHandling::Filtered,
            RtkStatus::Passthrough => RtkHandling::Passthrough,
            RtkStatus::NotSupported => RtkHandling::Unhandled,
        },
        _ => RtkHandling::Unhandled,
    }
}

/// Decides how the commands of a group are handled. Rules may ask for an argument, so a name
/// that is not supported by itself is tried with one.
pub fn consumer_handling(bare: &Classification, with_argument: &Classification) -> (r: RtkHandling)
    ensures
        r == handling(*bare, *with_argument),
{
    match bare {
        Classification::Supported { .. } => status_handling(bare),
        _ => status_handling(with_argument),
    }
}

/// The name of a group with an argument.
pub fn with_argument(base: &str) -> (r: String)
    ensures
        r@ == base@ + " ."@,
{
    let mut r = chars_of(base);
    extend_str(&mut r, " .");
    string_of(&r)
}

/// A part, the bytes of output that count as its own, and the tokens that its filter would
/// have saved.
#[derive(Clone, Copy)]
pub struct Seen<'a> {
    pub part: &'a Part,
    pub bytes: usize,
    pub saved: usize,
}

/// The bytes of output that count as those of part `i` of a chain.
pub open spec fn own_bytes(cmd: ExtractedCommand, i: int) -> usize {
    if effective(cmd.parts@) == Some(i) && cmd.output_len is Some {
        cmd.output_len->0
    } else {
        0
    }
}

/// Part `i` of a chain as it is counted.
pub open spec fn seen_part<'a>(cmd: &'a ExtractedCommand, savings: Seq<usize>, i: int) -> Seen<'a> {
    Seen { part: &cmd.parts@[i], bytes: own_bytes(*cmd, i), saved: savings[i] }
}

/// The parts of a chain as they are counted.
pub open spec fn seen_parts<'a>(cmd: &'a ExtractedCommand, savings: Seq<usize>) -> Seq<Seen<'a>> {
    Seq::new(cmd.parts@.len(), |i: int| seen_part(cmd, savings, i))
}

/// All parts of the first `n` chains.
pub open spec fn seen<'a>(
    commands: &'a Vec<ExtractedCommand>,
    savings: Seq<Vec<usize>>,
    n: int,
) -> Seq<Seen<'a>>
    decreases n,
{
    if n <= 0 {
        Seq::empty()
    } else {
        seen(commands, savings, n - 1) + seen_parts(&commands@[n - 1], savings[n - 1]@)
    }
}

/// There is one number of saved tokens for each part.
pub open spec fn same_shape(commands: Seq<ExtractedCommand>, savings: Seq<Vec<usize>>) -> bool {
    &&& savings.len() == commands.len()
    &&& forall|n: int|
        0 <= n < commands.len() ==> (#[trigger] savings[n])@.len() == commands[n].parts@.len()
}

fn list_seen<'a>(commands: &'a Vec<ExtractedCommand>, savings: &Vec<Vec<usize>>) -> (r: Vec<
    Seen<'a>,
>)
    requires
        same_shape(commands@, savings@),
    ensures
        r@ == seen(commands, savings@, commands@.len() as int),
{
    let mut r: Vec<Seen<'a>> = Vec::new();
    let mut n: usize = 0;
    while n < commands.len()
        invariant
            n <= commands.len(),
            same_shape(commands@, savings@),
            r@ == seen(commands, savings@, n as int),
        decreases commands.len() - n,
    {
        let cmd = &commands[n];
        let ghost before = r@;
        let last = effective_index(&cmd.parts);
        let mut i: usize = 0;
        assert(savings@[n as int]@.len() == commands@[n as int].parts@.len());
        while i < cmd.parts.len()
            invariant
                i <= cmd.parts.len(),
                n < commands.len(),
                *cmd == commands@[n as int],
                savings.len() == commands.len(),
                savings@[n as int]@.len() == cmd.parts@.len(),
                last is Some <==> effective(cmd.parts@) is Some,
                last matches Some(k) ==> effective(cmd.parts@) == Some(k as int),
                r@ =~= before + seen_parts(cmd, savings@[n as int]@).take(i as int),
            decreases cmd.parts.len() - i,
        {
            let counted = match last {
                Some(k) => k == i,
                None => false,
            };
            let bytes: usize = match cmd.output_len {
                Some(len) => if counted {
                    len
                } else {
                    0
                },
                None => 0,
            };
            r.push(Seen { part: &cmd.parts[i], bytes, saved: savings[n][i] });
            assert(r@.last() == seen_parts(cmd, savings@[n as int]@)[i as int]);
            i += 1;
        }
        assert(r@ =~= before + seen_parts(cmd, savings@[n as int]@));
        n += 1;
    }
    r
}

/// What a part can be counted as.
#[derive(Clone, Copy, PartialEq, Eq, Structural)]
pub enum Role {
    /// Something that consumes tokens.
    Consumer,
    /// A supported command that bypassed the filter.
    Bypassed,
    /// A supported command that was run without the filter.
    Missed,
    /// An unsupported command.
    Unhandled,
    /// A command that went through the filter.
    Filtered,
    /// A supported command under its display name.
    Named,
}

/// The part is counted in this role.
pub open spec fn plays(s: Seen, role: Role) -> bool {
    match role {
        Role::Consumer => super::base_name(text::words(s.part.text@)).len() > 0,
        Role::Bypassed => s.part.bypass matches Some(b) && b.classification is Supported,
        Role::Missed | Role::Named => s.part.bypass is None
            && s.part.classification is Supported,
        Role::Unhandled => s.part.bypass is None && s.part.classification is Unsupported,
        Role::Filtered => s.part.bypass is None && s.part.classification is Ignored
            && text::starts_with(text::trim(s.part.text@), "rtk "@),
    }
}

/// The first `n` parts that are counted in this role.
pub open spec fn chosen<'a>(s: Seq<Seen<'a>>, role: Role, n: int) -> Seq<Seen<'a>>
    decreases n,
{
    if n <= 0 {
        Seq::empty()
    } else if plays(s[n - 1], role) {
        chosen(s, role, n - 1).push(s[n - 1])
    } else {
        chosen(s, role, n - 1)
    }
}

/// The parts that are counted in this role.
pub open spec fn cast<'a>(s: Seq<Seen<'a>>, role: Role) -> Seq<Seen<'a>> {
    chosen(s, role, s.len() as int)
}

/// The name of a status in the key of a display name.
pub open spec fn status_word(status: RtkStatus) -> Seq<char> {
    match status {
        RtkStatus::Existing => "Existing"@,
        RtkStatus::Passthrough => "Passthrough"@,
        RtkStatus::NotSupported => "NotSupported"@,
    }
}

/// The key by which parts in this role are grouped.
pub open spec fn key(s: Seen, role: Role) -> Seq<char> {
    match role {
        Role::Consumer => super::base_name(text::words(s.part.text@)),
        Role::Bypassed => match s.part.bypass {
            Some(b) => super::display_name(text::words(b.command@)),
            None => Seq::empty(),
        },
        Role::Missed => match s.part.classification {
            Classification::Supported { rtk_equivalent, .. } => rtk_equivalent@,
            _ => Seq::empty(),
        },
        Role::Unhandled => match s.part.classification {
            Classification::Unsupported { base_command } => base_command@,
            _ => Seq::empty(),
        },
        Role::Filtered => Seq::empty(),
        Role::Named => match s.part.classification {
            Classification::Supported { status, .. } => super::display_name(
                text::words(s.part.text@),
            ) + ":"@ + status_word(status),
            _ => Seq::empty(),
        },
    }
}

/// What adds up in a group of parts in this role.
pub open spec fn share(s: Seen, role: Role) -> usize {
    match role {
        Role::Consumer => s.bytes,
        Role::Missed => s.saved,
        _ => 0,
    }
}

pub open spec fn keys(s: Seq<Seen>, role: Role) -> Seq<Seq<char>> {
    Seq::new(s.len(), |i: int| key(s[i], role))
}

pub open spec fn shares(s: Seq<Seen>, role: Role) -> Seq<usize> {
    Seq::new(s.len(), |i: int| share(s[i], role))
}

/// The groups of parts in this role: the position of the first part, the number of parts and
/// what their shares add up to.
pub open spec fn groups(s: Seq<Seen>, role: Role) -> Seq<(int, nat, nat)> {
    grouping::grouped(keys(s, role), shares(s, role), s.len() as int)
}

/// What adds up in the groups of this role fits.
pub open spec fn shares_fit(s: Seq<Seen>, role: Role) -> bool {
    grouping::amounts_fit(keys(s, role), shares(s, role))
}

fn does_play(s: &Seen, role: Role) -> (r: bool)
    ensures
        r == plays(*s, role),
{
    match role {
        Role::Consumer => base_of(&chars_of(s.part.text.as_str())).len() > 0,
        Role::Bypassed => match &s.part.bypass {
            Some(b) => match b.classification {
                Classification::Supported { .. } => true,
                _ => false,
            },
            None => false,
        },
        Role::Missed | Role::Named => s.part.bypass.is_none() && match s.part.classification {
            Classification::Supported { .. } => true,
            _ => false,
        },
        Role::Unhandled => s.part.bypass.is_none() && match s.part.classification {
            Classification::Unsupported { .. } => true,
            _ => false,
        },
        Role::Filtered => s.part.bypass.is_none() && match s.part.classification {
            Classification::Ignored => has_prefix(
                &trimmed(&chars_of(s.part.text.as_str())),
                "rtk ",
            ),
            _ => false,
        },
    }
}

fn key_of(s: &Seen, role: Role) -> (r: Vec<char>)
    ensures
        r@ == key(*s, role),
{
    match role {
        Role::Consumer => base_of(&chars_of(s.part.text.as_str())),
        Role::Bypassed => match &s.part.bypass {
            Some(b) => display_of(&chars_of(b.command.as_str())),
            None => Vec::new(),
        },
        Role::Missed => match &s.part.classification {
            Classification::Supported { rtk_equivalent, .. } => chars_of(rtk_equivalent),
            _ => Vec::new(),
        },
        Role::Unhandled => match &s.part.classification {
            Classification::Unsupported { base_command } => chars_of(base_command.as_str()),
            _ => Vec::new(),
        },
        Role::Filtered => Vec::new(),
        Role::Named => match &s.part.classification {
            Classification::Supported { status, .. } => {
                let mut r = display_of(&chars_of(s.part.text.as_str()));
                extend_str(&mut r, ":");
                match status {
                    RtkStatus::Existing => extend_str(&mut r, "Existing"),
                    RtkStatus::Passthrough => extend_str(&mut r, "Passthrough"),
                    RtkStatus::NotSupported => extend_str(&mut r, "NotSupported"),
                }
                r
            },
            _ => Vec::new(),
        },
    }
}

fn select<'a>(s: &Vec<Seen<'a>>, role: Role) -> (r: Vec<Seen<'a>>)
    ensures
        r@ == cast(s@, role),
{
    let mut r: Vec<Seen<'a>> = Vec::new();
    let mut n: usize = 0;
    while n < s.len()
        invariant
            n <= s.len(),
            r@ == chosen(s@, role, n as int),
        decreases s.len() - n,
    {
        if does_play(&s[n], role) {
            r.push(s[n]);
        }
        n += 1;
    }
    r
}

fn list_keys(s: &Vec<Seen>, role: Role) -> (r: Vec<Vec<char>>)
    ensures
        text::views(r@) == keys(s@, role),
{
    let mut r: Vec<Vec<char>> = Vec::new();
    let mut n: usize = 0;
    while n < s.len()
        invariant
            n <= s.len(),
            text::views(r@) =~= keys(s@, role).take(n as int),
        decreases s.len() - n,
    {
        let ghost before = r@;
        let k = key_of(&s[n], role);
        r.push(k);
        proof {
            text::lemma_views_push(before, k);
        }
        n += 1;
    }
    assert(text::views(r@) =~= keys(s@, role));
    r
}

fn list_shares(s: &Vec<Seen>, role: Role) -> (r: Vec<usize>)
    ensures
        r@ == shares(s@, role),
{
    let mut r: Vec<usize> = Vec::new();
    let mut n: usize = 0;
    while n < s.len()
        invariant
            n <= s.len(),
            r@ =~= shares(s@, role).take(n as int),
        decreases s.len() - n,
    {
        let share: usize = match role {
            Role::Consumer => s[n].bytes,
            Role::Missed => s[n].saved,
            _ => 0,
        };
        r.push(share);
        n += 1;
    }
    assert(r@ =~= shares(s@, role));
    r
}

fn list_groups(s: &Vec<Seen>, role: Role) -> (r: Option<Vec<Group>>)
    ensures
        r is Some <==> shares_fit(s@, role),
        r matches Some(v) ==> grouping::values(v@) == groups(s@, role),
{
    let k = list_keys(s, role);
    let a = list_shares(s, role);
    assert(k.len() == s.len()) by {
        assert(text::views(k@).len() == keys(s@, role).len());
    }
    group(&k, &a)
}

/// The counts of groups.
pub open spec fn counts(g: Seq<(int, nat, nat)>) -> Seq<usize> {
    Seq::new(g.len(), |i: int| g[i].1 as usize)
}

/// What adds up in groups.
pub open spec fn totals(g: Seq<(int, nat, nat)>) -> Seq<usize> {
    Seq::new(g.len(), |i: int| g[i].2 as usize)
}

/// A quarter of what adds up in groups: the tokens of so many bytes.
pub open spec fn quarters(g: Seq<(int, nat, nat)>) -> Seq<usize> {
    Seq::new(g.len(), |i: int| (g[i].2 / 4) as usize)
}

/// The groups from the largest of `by` to the smallest.
pub open spec fn by_rank(g: Seq<(int, nat, nat)>, by: Seq<usize>) -> Seq<(int, nat, nat)> {
    Seq::new(g.len(), |i: int| g[order::ranking(by, by.len() as int)[i] as int])
}

fn count_list(g: &Vec<Group>) -> (r: Vec<usize>)
    ensures
        r@ == counts(grouping::values(g@)),
{
    let mut r: Vec<usize> = Vec::new();
    let mut i: usize = 0;
    while i < g.len()
        invariant
            i <= g.len(),
            r@ =~= counts(grouping::values(g@)).take(i as int),
        decreases g.len() - i,
    {
        r.push(g[i].count);
        i += 1;
    }
    assert(r@ =~= counts(grouping::values(g@)));
    r
}

fn total_list(g: &Vec<Group>) -> (r: Vec<usize>)
    ensures
        r@ == totals(grouping::values(g@)),
{
    let mut r: Vec<usize> = Vec::new();
    let mut i: usize = 0;
    while i < g.len()
        invariant
            i <= g.len(),
            r@ =~= totals(grouping::values(g@)).take(i as int),
        decreases g.len() - i,
    {
        r.push(g[i].total);
        i += 1;
    }
    assert(r@ =~= totals(grouping::values(g@)));
    r
}

fn quarter_list(g: &Vec<Group>) -> (r: Vec<usize>)
    ensures
        r@ == quarters(grouping::values(g@)),
{
    let mut r: Vec<usize> = Vec::new();
    let mut i: usize = 0;
    while i < g.len()
        invariant
            i <= g.len(),
            r@ =~= quarters(grouping::values(g@)).take(i as int),
        decreases g.len() - i,
    {
        r.push(g[i].total / 4);
        i += 1;
    }
    assert(r@ =~= quarters(grouping::values(g@)));
    r
}

/// The first `n` missed parts whose filter is `k`.
pub open spec fn alike_in<'a>(s: Seq<Seen<'a>>, k: Seq<char>, n: int) -> Seq<Seen<'a>>
    decreases n,
{
    if n <= 0 {
        Seq::empty()
    } else if key(s[n - 1], Role::Missed) == k {
        alike_in(s, k, n - 1).push(s[n - 1])
    } else {
        alike_in(s, k, n - 1)
    }
}

/// The missed parts whose filter is `k`.
pub open spec fn alike<'a>(s: Seq<Seen<'a>>, k: Seq<char>) -> Seq<Seen<'a>> {
    alike_in(s, k, s.len() as int)
}

/// A part with the most frequent display name and status among `s`; of equally frequent ones
/// the first to appear.
pub open spec fn most_frequent<'a>(s: Seq<Seen<'a>>) -> Seen<'a> {
    s[by_rank(groups(s, Role::Named), counts(groups(s, Role::Named)))[0].0]
}

fn list_alike<'a>(s: &Vec<Seen<'a>>, k: &Vec<char>) -> (r: Vec<Seen<'a>>)
    ensures
        r@ == alike(s@, k@),
{
    let mut r: Vec<Seen<'a>> = Vec::new();
    let mut n: usize = 0;
    while n < s.len()
        invariant
            n <= s.len(),
            r@ == alike_in(s@, k@, n as int),
        decreases s.len() - n,
    {
        if same(&key_of(&s[n], Role::Missed), k) {
            r.push(s[n]);
        }
        n += 1;
    }
    r
}

proof fn lemma_alike_found(s: Seq<Seen>, k: Seq<char>, n: int, i: int)
    requires
        0 <= i < n <= s.len(),
        key(s[i], Role::Missed) == k,
    ensures
        alike_in(s, k, n).len() > 0,
    decreases n,
{
    if i < n - 1 {
        lemma_alike_found(s, k, n - 1, i);
    }
}

proof fn lemma_no_shares(s: Seq<Seen>, k: Seq<char>, n: int)
    requires
        0 <= n <= s.len(),
    ensures
        grouping::amount(keys(s, Role::Named), shares(s, Role::Named), k, n) == 0,
        grouping::amount(keys(s, Role::Bypassed), shares(s, Role::Bypassed), k, n) == 0,
        grouping::amount(keys(s, Role::Unhandled), shares(s, Role::Unhandled), k, n) == 0,
    decreases n,
{
    if n > 0 {
        lemma_no_shares(s, k, n - 1);
    }
}

/// Nothing adds up in these roles, so it fits.
proof fn lemma_shares_fit(s: Seq<Seen>)
    ensures
        shares_fit(s, Role::Named),
        shares_fit(s, Role::Bypassed),
        shares_fit(s, Role::Unhandled),
{
    assert forall|i: int| 0 <= i < s.len() implies grouping::amount(
        keys(s, Role::Named),
        shares(s, Role::Named),
        #[trigger] keys(s, Role::Named)[i],
        s.len() as int,
    ) <= usize::MAX by {
        lemma_no_shares(s, keys(s, Role::Named)[i], s.len() as int);
    }
    assert forall|i: int| 0 <= i < s.len() implies grouping::amount(
        keys(s, Role::Bypassed),
        shares(s, Role::Bypassed),
        #[trigger] keys(s, Role::Bypassed)[i],
        s.len() as int,
    ) <= usize::MAX by {
        lemma_no_shares(s, keys(s, Role::Bypassed)[i], s.len() as int);
    }
    assert forall|i: int| 0 <= i < s.len() implies grouping::amount(
        keys(s, Role::Unhandled),
        shares(s, Role::Unhandled),
        #[trigger] keys(s, Role::Unhandled)[i],
        s.len() as int,
    ) <= usize::MAX by {
        lemma_no_shares(s, keys(s, Role::Unhandled)[i], s.len() as int);
    }
}

/// The positions of groups are positions of parts, and parts make groups.
proof fn lemma_groups(s: Seq<Seen>, role: Role)
    ensures
        groups(s, role).len() <= s.len(),
        s.len() > 0 ==> groups(s, role).len() > 0,
        forall|g: int| 0 <= g < groups(s, role).len() ==> 0 <= #[trigger] groups(s, role)[g].0
            < s.len(),
{
    let k = keys(s, role);
    let n = s.len() as int;
    grouping::lemma_firsts(k, n);
    if n > 0 {
        assert(grouping::belongs(k, n, 0));
    }
    assert forall|g: int| 0 <= g < groups(s, role).len() implies 0 <= #[trigger] groups(
        s,
        role,
    )[g].0 < n by {
        assert(groups(s, role)[g].0 == grouping::firsts(k, n)[g]);
    }
}

fn find_most_frequent<'a>(s: &Vec<Seen<'a>>) -> (r: Seen<'a>)
    requires
        s.len() > 0,
    ensures
        r == most_frequent(s@),
{
    proof {
        lemma_shares_fit(s@);
        lemma_groups(s@, Role::Named);
    }
    let g = list_groups(s, Role::Named).unwrap();
    assert(grouping::values(g@).len() == groups(s@, Role::Named).len());
    let ranks = rank(&count_list(&g));
    let top = ranks[0];
    assert(grouping::values(g@)[top as int] == groups(s@, Role::Named)[top as int]);
    assert(groups(s@, Role::Named)[top as int].0 < s.len());
    s[g[top].first]
}

/// The status of a supported part.
pub open spec fn status_of(s: Seen) -> RtkStatus {
    match s.part.classification {
        Classification::Supported { status, .. } => status,
        _ => RtkStatus::Existing,
    }
}

/// The category of a supported part.
pub open spec fn category_of(s: Seen) -> Seq<char> {
    match s.part.classification {
        Classification::Supported { category, .. } => category@,
        _ => Seq::empty(),
    }
}

/// The estimated savings of a supported part in percent.
pub open spec fn pct_of(s: Seen) -> u64 {
    match s.part.classification {
        Classification::Supported { estimated_savings_pct_bits, .. } => estimated_savings_pct_bits,
        _ => 0,
    }
}

/// `e` is the entry of the group `g` of missed parts: what the group adds up to, under its
/// most frequent name; category and percentage are those of its first part.
pub open spec fn is_supported_entry(
    e: SupportedEntry,
    missed: Seq<Seen>,
    g: (int, nat, nat),
) -> bool {
    let first = missed[g.0];
    let main = most_frequent(alike(missed, key(first, Role::Missed)));
    &&& e.command@ == super::display_name(text::words(main.part.text@))
    &&& e.rtk_status == status_of(main)
    &&& e.count == g.1
    &&& e.estimated_savings_tokens == g.2
    &&& e.rtk_equivalent@ == key(first, Role::Missed)
    &&& e.category@ == category_of(first)
    &&& e.estimated_savings_pct_bits == pct_of(first)
}

/// `entries` are those of the groups of missed parts, from the largest savings to the
/// smallest.
pub open spec fn are_supported_entries(entries: Seq<SupportedEntry>, missed: Seq<Seen>) -> bool {
    let g = groups(missed, Role::Missed);
    &&& entries.len() == g.len()
    &&& forall|i: int|
        0 <= i < g.len() ==> is_supported_entry(
            #[trigger] entries[i],
            missed,
            by_rank(g, totals(g))[i],
        )
}

fn facts_of(s: &Seen) -> (r: (&'static str, &'static str, u64, RtkStatus))
    requires
        s.part.classification is Supported,
    ensures
        r.0@ == key(*s, Role::Missed),
        r.1@ == category_of(*s),
        r.2 == pct_of(*s),
        r.3 == status_of(*s),
{
    match s.part.classification {
        Classification::Supported {
            rtk_equivalent,
            category,
            estimated_savings_pct_bits,
            status,
        } => (rtk_equivalent, category, estimated_savings_pct_bits, status),
        _ => ("", "", 0, RtkStatus::Existing),
    }
}

proof fn lemma_chosen_play(s: Seq<Seen>, role: Role, n: int)
    requires
        0 <= n <= s.len(),
    ensures
        chosen(s, role, n).len() <= n,
        forall|i: int|
            0 <= i < chosen(s, role, n).len() ==> plays(#[trigger] chosen(s, role, n)[i], role),
    decreases n,
{
    if n > 0 {
        lemma_chosen_play(s, role, n - 1);
    }
}

proof fn lemma_alike_play(s: Seq<Seen>, k: Seq<char>, n: int)
    requires
        0 <= n <= s.len(),
        forall|i: int| 0 <= i < s.len() ==> plays(#[trigger] s[i], Role::Missed),
    ensures
        alike_in(s, k, n).len() <= n,
        forall|i: int|
            0 <= i < alike_in(s, k, n).len() ==> plays(
                #[trigger] alike_in(s, k, n)[i],
                Role::Missed,
            ),
    decreases n,
{
    if n > 0 {
        lemma_alike_play(s, k, n - 1);
    }
}

proof fn lemma_most_frequent_plays(s: Seq<Seen>)
    requires
        0 < s.len() <= usize::MAX,
        forall|i: int| 0 <= i < s.len() ==> plays(#[trigger] s[i], Role::Missed),
    ensures
        plays(most_frequent(s), Role::Missed),
{
    let g = groups(s, Role::Named);
    lemma_groups(s, Role::Named);
    order::lemma_ranking(counts(g), g.len() as int);
    let top = order::ranking(counts(g), g.len() as int)[0];
    assert(g[top as int].0 < s.len());
}

fn make_supported_entry(missed: &Vec<Seen>, g: &Group) -> (e: SupportedEntry)
    requires
        g.first < missed.len(),
        forall|i: int| 0 <= i < missed@.len() ==> plays(#[trigger] missed@[i], Role::Missed),
    ensures
        is_supported_entry(e, missed@, (g.first as int, g.count as nat, g.total as nat)),
{
    let first = missed[g.first];
    let k = key_of(&first, Role::Missed);
    let named = list_alike(missed, &k);
    proof {
        lemma_alike_found(missed@, k@, missed@.len() as int, g.first as int);
        lemma_alike_play(missed@, k@, missed@.len() as int);
        lemma_most_frequent_plays(named@);
        assert(plays(missed@[g.first as int], Role::Missed));
    }
    let main = find_most_frequent(&named);
    let about = facts_of(&first);
    let about_main = facts_of(&main);
    SupportedEntry {
        command: string_of(&display_of(&chars_of(main.part.text.as_str()))),
        count: g.count,
        rtk_equivalent: about.0,
        category: about.1,
        estimated_savings_tokens: g.total,
        estimated_savings_pct_bits: about.2,
        rtk_status: about_main.3,
    }
}

fn list_supported(seen_all: &Vec<Seen>) -> (r: Option<Vec<SupportedEntry>>)
    ensures
        r is Some <==> shares_fit(cast(seen_all@, Role::Missed), Role::Missed),
        r matches Some(v) ==> are_supported_entries(v@, cast(seen_all@, Role::Missed)),
{
    let missed = select(seen_all, Role::Missed);
    proof {
        lemma_chosen_play(seen_all@, Role::Missed, seen_all@.len() as int);
        lemma_groups(missed@, Role::Missed);
    }
    let g = match list_groups(&missed, Role::Missed) {
        Some(g) => g,
        None => {
            return None;
        },
    };
    let ghost all = groups(missed@, Role::Missed);
    let sums = total_list(&g);
    let ranks = rank(&sums);
    assert(all.len() == g.len());
    let mut r: Vec<SupportedEntry> = Vec::new();
    let mut i: usize = 0;
    while i < ranks.len()
        invariant
            i <= ranks.len(),
            ranks.len() == g.len(),
            all == groups(missed@, Role::Missed),
            all == grouping::values(g@),
            sums@ == totals(all),
            ranks@ == order::ranking(sums@, sums@.len() as int),
            forall|j: int| 0 <= j < ranks.len() ==> #[trigger] ranks@[j] < g.len(),
            forall|h: int| 0 <= h < all.len() ==> 0 <= #[trigger] all[h].0 < missed@.len(),
            forall|h: int| 0 <= h < missed@.len() ==> plays(#[trigger] missed@[h], Role::Missed),
            r.len() == i,
            forall|j: int|
                0 <= j < i ==> is_supported_entry(
                    #[trigger] r@[j],
                    missed@,
                    by_rank(all, totals(all))[j],
                ),
        decreases ranks.len() - i,
    {
        let at = ranks[i];
        assert(by_rank(all, totals(all))[i as int] == all[at as int]);
        assert(all[at as int] == (
            g@[at as int].first as int,
            g@[at as int].count as nat,
            g@[at as int].total as nat,
        ));
        assert(all[at as int].0 < missed@.len());
        r.push(make_supported_entry(&missed, &g[at]));
        i += 1;
    }
    Some(r)
}

/// `e` is the entry of the group `g` of unsupported parts; its example is the first of them.
pub open spec fn is_unsupported_entry(
    e: UnsupportedEntry,
    unhandled: Seq<Seen>,
    g: (int, nat, nat),
) -> bool {
    &&& e.base_command@ == key(unhandled[g.0], Role::Unhandled)
    &&& e.count == g.1
    &&& e.example@ == unhandled[g.0].part.text@
}

/// `entries` are those of the groups of unsupported parts, from the most frequent to the
/// least.
pub open spec fn are_unsupported_entries(
    entries: Seq<UnsupportedEntry>,
    unhandled: Seq<Seen>,
) -> bool {
    let g = groups(unhandled, Role::Unhandled);
    &&& entries.len() == g.len()
    &&& forall|i: int|
        0 <= i < g.len() ==> is_unsupported_entry(
            #[trigger] entries[i],
            unhandled,
            by_rank(g, counts(g))[i],
        )
}

fn list_unsupported(seen_all: &Vec<Seen>) -> (r: Vec<UnsupportedEntry>)
    ensures
        are_unsupported_entries(r@, cast(seen_all@, Role::Unhandled)),
{
    let unhandled = select(seen_all, Role::Unhandled);
    proof {
        lemma_shares_fit(unhandled@);
        lemma_groups(unhandled@, Role::Unhandled);
    }
    let g = list_groups(&unhandled, Role::Unhandled).unwrap();
    let ghost all = groups(unhandled@, Role::Unhandled);
    let sizes = count_list(&g);
    let ranks = rank(&sizes);
    assert(all.len() == g.len());
    let mut r: Vec<UnsupportedEntry> = Vec::new();
    let mut i: usize = 0;
    while i < ranks.len()
        invariant
            i <= ranks.len(),
            ranks.len() == g.len(),
            all == groups(unhandled@, Role::Unhandled),
            all == grouping::values(g@),
            sizes@ == counts(all),
            ranks@ == order::ranking(sizes@, sizes@.len() as int),
            forall|j: int| 0 <= j < ranks.len() ==> #[trigger] ranks@[j] < g.len(),
            forall|h: int| 0 <= h < all.len() ==> 0 <= #[trigger] all[h].0 < unhandled@.len(),
            r.len() == i,
            forall|j: int|
                0 <= j < i ==> is_unsupported_entry(
                    #[trigger] r@[j],
                    unhandled@,
                    by_rank(all, counts(all))[j],
                ),
        decreases ranks.len() - i,
    {
        let at = ranks[i];
        assert(by_rank(all, counts(all))[i as int] == all[at as int]);
        assert(all[at as int] == (
            g@[at as int].first as int,
            g@[at as int].count as nat,
            g@[at as int].total as nat,
        ));
        assert(all[at as int].0 < unhandled@.len());
        let first = unhandled[g[at].first];
        r.push(
            UnsupportedEntry {
                base_command: string_of(&key_of(&first, Role::Unhandled)),
                count: g[at].count,
                example: string_of(&chars_of(first.part.text.as_str())),
            },
        );
        i += 1;
    }
    r
}

/// The number of consumers in a report.
pub const MAX_CONSUMERS: usize = 15;

/// `c` is the entry of the group `g` of consumers.
pub open spec fn is_consumer(c: TokenConsumer, all: Seq<Seen>, g: (int, nat, nat)) -> bool {
    &&& c.command@ == key(all[g.0], Role::Consumer)
    &&& c.count == g.1
    &&& c.total_tokens == g.2 / 4
    &&& c.avg_tokens == (if g.1 > 0 {
        (g.2 / 4) / g.1
    } else {
        0
    })
    &&& c.rtk_handling == all[g.0].part.handling
}

/// `entries` are those of the groups of consumers, from the most tokens to the least, as far
/// as a report has room for them.
pub open spec fn are_consumers(entries: Seq<TokenConsumer>, all: Seq<Seen>) -> bool {
    let g = groups(all, Role::Consumer);
    &&& entries.len() == (if g.len() < MAX_CONSUMERS {
        g.len()
    } else {
        MAX_CONSUMERS as nat
    })
    &&& forall|i: int|
        0 <= i < entries.len() ==> is_consumer(
            #[trigger] entries[i],
            all,
            by_rank(g, quarters(g))[i],
        )
}

fn list_consumers(seen_all: &Vec<Seen>) -> (r: Option<Vec<TokenConsumer>>)
    ensures
        r is Some <==> shares_fit(cast(seen_all@, Role::Consumer), Role::Consumer),
        r matches Some(v) ==> are_consumers(v@, cast(seen_all@, Role::Consumer)),
{
    let users = select(seen_all, Role::Consumer);
    proof {
        lemma_groups(users@, Role::Consumer);
    }
    let g = match list_groups(&users, Role::Consumer) {
        Some(g) => g,
        None => {
            return None;
        },
    };
    let ghost all = groups(users@, Role::Consumer);
    let tokens = quarter_list(&g);
    let ranks = rank(&tokens);
    assert(all.len() == g.len());
    let mut r: Vec<TokenConsumer> = Vec::new();
    let mut i: usize = 0;
    while i < ranks.len() && i < MAX_CONSUMERS
        invariant
            i <= ranks.len(),
            i <= MAX_CONSUMERS,
            ranks.len() == g.len(),
            all == groups(users@, Role::Consumer),
            all == grouping::values(g@),
            tokens@ == quarters(all),
            ranks@ == order::ranking(tokens@, tokens@.len() as int),
            forall|j: int| 0 <= j < ranks.len() ==> #[trigger] ranks@[j] < g.len(),
            forall|h: int| 0 <= h < all.len() ==> 0 <= #[trigger] all[h].0 < users@.len(),
            r.len() == i,
            forall|j: int|
                0 <= j < i ==> is_consumer(#[trigger] r@[j], users@, by_rank(all, quarters(all))[j]),
        decreases ranks.len() - i,
    {
        let at = ranks[i];
        assert(by_rank(all, quarters(all))[i as int] == all[at as int]);
        assert(all[at as int] == (
            g@[at as int].first as int,
            g@[at as int].count as nat,
            g@[at as int].total as nat,
        ));
        assert(all[at as int].0 < users@.len());
        let first = users[g[at].first];
        let total_tokens: usize = g[at].total / 4;
        let avg_tokens: usize = if g[at].count > 0 {
            total_tokens / g[at].count
        } else {
            0
        };
        r.push(
            TokenConsumer {
                command: string_of(&key_of(&first, Role::Consumer)),
                count: g[at].count,
                total_tokens,
                avg_tokens,
                rtk_handling: first.part.handling,
            },
        );
        i += 1;
    }
    Some(r)
}

/// The number of examples of bypassed commands in a report.
pub const MAX_EXAMPLES: usize = 5;

/// The names of the bypassed commands, in the order of strings.
pub open spec fn bypassed_names(bypassed: Seq<Seen>) -> Seq<Seq<char>> {
    let g = groups(bypassed, Role::Bypassed);
    order::sorted(Seq::new(g.len(), |i: int| key(bypassed[g[i].0], Role::Bypassed)))
}

/// How often each of them occurs.
pub open spec fn bypassed_counts(bypassed: Seq<Seen>) -> Seq<usize> {
    Seq::new(
        bypassed_names(bypassed).len(),
        |i: int|
            grouping::occurrences(
                keys(bypassed, Role::Bypassed),
                bypassed_names(bypassed)[i],
                bypassed.len() as int,
            ) as usize,
    )
}

/// The example at position `i`: a name and how often it occurs.
pub open spec fn bypass_example(bypassed: Seq<Seen>, i: int) -> Seq<char> {
    let c = bypassed_counts(bypassed);
    let at = order::ranking(c, c.len() as int)[i] as int;
    bypassed_names(bypassed)[at] + " ("@ + number::decimal(c[at] as nat) + "x)"@
}

/// The most frequent bypassed commands, as far as a report has room for them; of equally
/// frequent ones those that come first in the order of strings.
pub open spec fn bypass_examples(bypassed: Seq<Seen>) -> Seq<Seq<char>> {
    let n = bypassed_names(bypassed).len();
    Seq::new(
        if n < MAX_EXAMPLES {
            n
        } else {
            MAX_EXAMPLES as nat
        },
        |i: int| bypass_example(bypassed, i),
    )
}

fn count_key(all: &Vec<Vec<char>>, k: &Vec<char>) -> (r: usize)
    ensures
        r == grouping::occurrences(text::views(all@), k@, all@.len() as int),
{
    let mut r: usize = 0;
    let mut n: usize = 0;
    while n < all.len()
        invariant
            n <= all.len(),
            r <= n,
            r == grouping::occurrences(text::views(all@), k@, n as int),
        decreases all.len() - n,
    {
        if same(&all[n], k) {
            r += 1;
        }
        n += 1;
    }
    r
}

fn list_bypassed_names(bypassed: &Vec<Seen>) -> (r: Vec<Vec<char>>)
    ensures
        text::views(r@) == bypassed_names(bypassed@),
{
    proof {
        lemma_shares_fit(bypassed@);
        lemma_groups(bypassed@, Role::Bypassed);
    }
    let g = list_groups(bypassed, Role::Bypassed).unwrap();
    let ghost all = groups(bypassed@, Role::Bypassed);
    let ghost wanted = Seq::new(all.len(), |i: int| key(bypassed@[all[i].0], Role::Bypassed));
    assert(all.len() == g.len());
    let mut names: Vec<Vec<char>> = Vec::new();
    let mut i: usize = 0;
    while i < g.len()
        invariant
            i <= g.len(),
            all == grouping::values(g@),
            forall|h: int| 0 <= h < all.len() ==> 0 <= #[trigger] all[h].0 < bypassed@.len(),
            wanted == Seq::new(all.len(), |i: int| key(bypassed@[all[i].0], Role::Bypassed)),
            text::views(names@) =~= wanted.take(i as int),
        decreases g.len() - i,
    {
        assert(all[i as int].0 == g@[i as int].first);
        assert(all[i as int].0 < bypassed@.len());
        let k = key_of(&bypassed[g[i].first], Role::Bypassed);
        let ghost before = names@;
        names.push(k);
        proof {
            text::lemma_views_push(before, k);
        }
        i += 1;
    }
    assert(text::views(names@) =~= wanted);
    sort_texts(&names)
}

fn list_bypass_examples(bypassed: &Vec<Seen>) -> (r: Vec<String>)
    ensures
        text::strings(r@) == bypass_examples(bypassed@),
{
    let names = list_bypassed_names(bypassed);
    let all = list_keys(bypassed, Role::Bypassed);
    let ghost wanted = bypassed_names(bypassed@);
    let ghost frequencies = bypassed_counts(bypassed@);
    assert(all.len() == bypassed.len()) by {
        assert(text::views(all@).len() == keys(bypassed@, Role::Bypassed).len());
    }
    assert(names.len() == wanted.len()) by {
        assert(text::views(names@).len() == wanted.len());
    }
    let mut sizes: Vec<usize> = Vec::new();
    let mut i: usize = 0;
    while i < names.len()
        invariant
            i <= names.len(),
            wanted == bypassed_names(bypassed@),
            wanted == text::views(names@),
            frequencies == bypassed_counts(bypassed@),
            text::views(all@) == keys(bypassed@, Role::Bypassed),
            all.len() == bypassed.len(),
            sizes@ =~= frequencies.take(i as int),
        decreases names.len() - i,
    {
        assert(wanted[i as int] == names@[i as int]@);
        sizes.push(count_key(&all, &names[i]));
        i += 1;
    }
    assert(sizes@ =~= frequencies);
    let ranks = rank(&sizes);
    let mut r: Vec<String> = Vec::new();
    let mut j: usize = 0;
    while j < ranks.len() && j < MAX_EXAMPLES
        invariant
            j <= ranks.len(),
            j <= MAX_EXAMPLES,
            ranks.len() == names.len(),
            sizes.len() == names.len(),
            wanted == bypassed_names(bypassed@),
            wanted == text::views(names@),
            frequencies == bypassed_counts(bypassed@),
            sizes@ == frequencies,
            ranks@ == order::ranking(sizes@, sizes@.len() as int),
            forall|h: int| 0 <= h < ranks.len() ==> #[trigger] ranks@[h] < names.len(),
            r.len() == j,
            forall|h: int| 0 <= h < j ==> (#[trigger] r@[h])@ == bypass_example(bypassed@, h),
        decreases ranks.len() - j,
    {
        let at = ranks[j];
        assert(wanted[at as int] == names@[at as int]@);
        let mut example = copy(&names[at]);
        extend_str(&mut example, " (");
        extend(&mut example, &decimal_of(sizes[at]));
        extend_str(&mut example, "x)");
        let shown = string_of(&example);
        assert(shown@ == bypass_example(bypassed@, j as int));
        r.push(shown);
        j += 1;
    }
    assert(text::strings(r@) =~= bypass_examples(bypassed@));
    r
}

/// The report `r` says what the parts `s` add up to.
pub open spec fn sums_up(r: DiscoverReport, s: Seq<Seen>) -> bool {
    &&& r.total_commands == s.len()
    &&& r.already_rtk == cast(s, Role::Filtered).len()
    &&& r.rtk_disabled_count == cast(s, Role::Bypassed).len()
    &&& are_supported_entries(r.supported@, cast(s, Role::Missed))
    &&& are_unsupported_entries(r.unsupported@, cast(s, Role::Unhandled))
    &&& are_consumers(r.consumers@, cast(s, Role::Consumer))
    &&& text::strings(r.rtk_disabled_examples@) == bypass_examples(cast(s, Role::Bypassed))
}

/// What adds up in the report on the parts `s` fits.
pub open spec fn sums_fit(s: Seq<Seen>) -> bool {
    &&& shares_fit(cast(s, Role::Missed), Role::Missed)
    &&& shares_fit(cast(s, Role::Consumer), Role::Consumer)
}

/// What was scanned, besides commands.
#[derive(Clone, Copy, Debug)]
pub struct Scan {
    pub sessions_scanned: usize,
    pub since_days: u64,
    pub parse_errors: usize,
}

/// Sums up the chains of commands of a scan, with the tokens that the filter would have saved
/// on each part. There is no report where a sum of bytes or tokens does not fit.
pub fn summarize(
    scan: Scan,
    commands: &Vec<ExtractedCommand>,
    savings: &Vec<Vec<usize>>,
) -> (r: Option<DiscoverReport>)
    requires
        same_shape(commands@, savings@),
    ensures
        r is Some <==> sums_fit(seen(commands, savings@, commands@.len() as int)),
        r matches Some(report) ==> {
            &&& report.sessions_scanned == scan.sessions_scanned
            &&& report.since_days == scan.since_days
            &&& report.parse_errors == scan.parse_errors
            &&& sums_up(report, seen(commands, savings@, commands@.len() as int))
        },
{
    let all = list_seen(commands, savings);
    let bypassed = select(&all, Role::Bypassed);
    let filtered = select(&all, Role::Filtered);
    match (list_supported(&all), list_consumers(&all)) {
        (Some(supported), Some(consumers)) => Some(
            DiscoverReport {
                sessions_scanned: scan.sessions_scanned,
                total_commands: all.len(),
                already_rtk: filtered.len(),
                since_days: scan.since_days,
                supported,
                unsupported: list_unsupported(&all),
                consumers,
                parse_errors: scan.parse_errors,
                rtk_disabled_count: bypassed.len(),
                rtk_disabled_examples: list_bypass_examples(&bypassed),
            },
        ),
        _ => None,
    }
}

proof fn lemma_roles_apart(s: Seq<Seen>, n: int)
    requires
        0 <= n <= s.len(),
    ensures
        chosen(s, Role::Missed, n).len() + chosen(s, Role::Unhandled, n).len() + chosen(
            s,
            Role::Filtered,
            n,
        ).len() + chosen(s, Role::Bypassed, n).len() <= n,
    decreases n,
{
    if n > 0 {
        lemma_roles_apart(s, n - 1);
    }
}

proof fn lemma_ranked_counts(g: Seq<(int, nat, nat)>, by: Seq<usize>, v: Seq<usize>)
    requires
        by.len() == g.len() <= usize::MAX,
        v.len() == g.len(),
        forall|i: int| 0 <= i < g.len() ==> #[trigger] v[i] == by_rank(g, by)[i].1,
        forall|i: int| 0 <= i < g.len() ==> #[trigger] g[i].1 <= usize::MAX,
    ensures
        number::total(v) == grouping::count_sum(g, g.len() as int),
{
    let n = g.len() as int;
    let c = counts(g);
    order::lemma_ranking(by, n);
    order::lemma_ranked_sum(by, c, n);
    assert forall|i: int| 0 <= i < n implies #[trigger] v[i] == order::picked(
        order::ranking(by, n),
        c,
    )[i] by {
        assert(order::ranking(by, n)[i] < n);
        assert(by_rank(g, by)[i] == g[order::ranking(by, n)[i] as int]);
        assert(g[order::ranking(by, n)[i] as int].1 <= usize::MAX);
    }
    assert(v =~= order::picked(order::ranking(by, n), c));
    lemma_count_sums(g, n);
}

proof fn lemma_count_sums(g: Seq<(int, nat, nat)>, n: int)
    requires
        0 <= n <= g.len(),
        forall|i: int| 0 <= i < g.len() ==> #[trigger] g[i].1 <= usize::MAX,
    ensures
        number::sum(counts(g), n) == grouping::count_sum(g, n),
    decreases n,
{
    if n > 0 {
        lemma_count_sums(g, n - 1);
        assert(g[n - 1].1 <= usize::MAX);
    }
}

proof fn lemma_group_counts(s: Seq<Seen>, role: Role)
    requires
        s.len() <= usize::MAX,
    ensures
        groups(s, role).len() <= usize::MAX,
        forall|i: int|
            0 <= i < groups(s, role).len() ==> #[trigger] groups(s, role)[i].1 <= usize::MAX,
        grouping::count_sum(groups(s, role), groups(s, role).len() as int) == s.len(),
{
    let k = keys(s, role);
    let n = s.len() as int;
    lemma_groups(s, role);
    grouping::lemma_counted_once(k, shares(s, role), n);
    assert forall|i: int| 0 <= i < groups(s, role).len() implies #[trigger] groups(s, role)[i].1
        <= usize::MAX by {
        grouping::lemma_occurrences(k, k[grouping::firsts(k, n)[i]], n);
    }
}

/// A report counts every part once: the runs of its supported commands are the missed parts,
/// those of its unsupported commands the unhandled ones, and together with the filtered and
/// the bypassed parts they are no more than all parts. So the share of filtered commands is
/// at most a hundred percent.
pub proof fn lemma_parts_counted_once(r: DiscoverReport, s: Seq<Seen>)
    requires
        sums_up(r, s),
    ensures
        r.supported_runs() == cast(s, Role::Missed).len(),
        r.unsupported_runs() == cast(s, Role::Unhandled).len(),
        r.supported_runs() + r.unsupported_runs() + r.already_rtk + r.rtk_disabled_count
            <= r.total_commands,
        super::report::adoption(r) <= 100,
{
    let missed = cast(s, Role::Missed);
    let unhandled = cast(s, Role::Unhandled);
    lemma_roles_apart(s, s.len() as int);
    lemma_group_counts(missed, Role::Missed);
    lemma_group_counts(unhandled, Role::Unhandled);
    let g = groups(missed, Role::Missed);
    let v = super::report::supported_counts(r.supported@);
    assert forall|i: int| 0 <= i < g.len() implies #[trigger] v[i] == by_rank(g, totals(g))[i].1 by {
        assert(is_supported_entry(r.supported@[i], missed, by_rank(g, totals(g))[i]));
    }
    lemma_ranked_counts(g, totals(g), v);
    let h = groups(unhandled, Role::Unhandled);
    let w = super::report::unsupported_counts(r.unsupported@);
    assert forall|i: int| 0 <= i < h.len() implies #[trigger] w[i] == by_rank(h, counts(h))[i].1 by {
        assert(is_unsupported_entry(r.unsupported@[i], unhandled, by_rank(h, counts(h))[i]));
    }
    lemma_ranked_counts(h, counts(h), w);
    if r.total_commands > 0 {
        let a = r.already_rtk as int;
        let t = r.total_commands as int;
        assert(a * 100 / t <= 100) by (nonlinear_arith)
            requires
                0 <= a <= t,
                t > 0,
        ;
    }
}

proof fn lemma_ranked_order(entries: Seq<usize>, g: Seq<(int, nat, nat)>, by: Seq<usize>)
    requires
        by.len() == g.len() <= usize::MAX,
        entries.len() <= g.len(),
        forall|i: int|
            0 <= i < entries.len() ==> #[trigger] entries[i] == by[order::ranking(
                by,
                by.len() as int,
            )[i] as int],
    ensures
        forall|i: int, j: int|
            0 <= i <= j < entries.len() ==> #[trigger] entries[i] >= #[trigger] entries[j],
{
    order::lemma_ranking(by, by.len() as int);
    let r = order::ranking(by, by.len() as int);
    assert forall|i: int, j: int| 0 <= i <= j < entries.len() implies #[trigger] entries[i]
        >= #[trigger] entries[j] by {
        if i < j {
            assert(by[r[i] as int] >= by[r[j] as int]);
        }
    }
}

/// The tables of a report are sorted: supported commands by their savings, unsupported ones
/// by their number of runs, and consumers by their tokens, the largest first.
pub proof fn lemma_tables_sorted(r: DiscoverReport, s: Seq<Seen>)
    requires
        sums_up(r, s),
        sums_fit(s),
    ensures
        forall|i: int, j: int|
            0 <= i <= j < r.supported@.len() ==> (#[trigger] r.supported@[i]).estimated_savings_tokens
                >= (#[trigger] r.supported@[j]).estimated_savings_tokens,
        forall|i: int, j: int|
            0 <= i <= j < r.unsupported@.len() ==> (#[trigger] r.unsupported@[i]).count >= (
            #[trigger] r.unsupported@[j]).count,
        forall|i: int, j: int|
            0 <= i <= j < r.consumers@.len() ==> (#[trigger] r.consumers@[i]).total_tokens >= (
            #[trigger] r.consumers@[j]).total_tokens,
{
    lemma_roles_apart(s, s.len() as int);
    let missed = cast(s, Role::Missed);
    let g = groups(missed, Role::Missed);
    lemma_group_counts(missed, Role::Missed);
    order::lemma_ranking(totals(g), g.len() as int);
    let v = super::report::savings(r.supported@);
    assert forall|i: int| 0 <= i < v.len() implies #[trigger] v[i] == totals(g)[order::ranking(
        totals(g),
        g.len() as int,
    )[i] as int] by {
        assert(is_supported_entry(r.supported@[i], missed, by_rank(g, totals(g))[i]));
        assert(order::ranking(totals(g), g.len() as int)[i] < g.len());
    }
    lemma_ranked_order(v, g, totals(g));
    assert forall|i: int, j: int|
        0 <= i <= j < r.supported@.len() implies (#[trigger] r.supported@[i]).estimated_savings_tokens
        >= (#[trigger] r.supported@[j]).estimated_savings_tokens by {
        assert(v[i] >= v[j]);
    }
    let unhandled = cast(s, Role::Unhandled);
    let h = groups(unhandled, Role::Unhandled);
    lemma_group_counts(unhandled, Role::Unhandled);
    order::lemma_ranking(counts(h), h.len() as int);
    let w = super::report::unsupported_counts(r.unsupported@);
    assert forall|i: int| 0 <= i < w.len() implies #[trigger] w[i] == counts(h)[order::ranking(
        counts(h),
        h.len() as int,
    )[i] as int] by {
        assert(is_unsupported_entry(r.unsupported@[i], unhandled, by_rank(h, counts(h))[i]));
        assert(order::ranking(counts(h), h.len() as int)[i] < h.len());
    }
    lemma_ranked_order(w, h, counts(h));
    assert forall|i: int, j: int| 0 <= i <= j < r.unsupported@.len() implies (
    #[trigger] r.unsupported@[i]).count >= (#[trigger] r.unsupported@[j]).count by {
        assert(w[i] >= w[j]);
    }
    let users = cast(s, Role::Consumer);
    lemma_chosen_play(s, Role::Consumer, s.len() as int);
    let k = groups(users, Role::Consumer);
    lemma_group_counts(users, Role::Consumer);
    order::lemma_ranking(quarters(k), k.len() as int);
    let x = Seq::new(r.consumers@.len(), |i: int| r.consumers@[i].total_tokens);
    assert forall|i: int| 0 <= i < x.len() implies #[trigger] x[i] == quarters(k)[order::ranking(
        quarters(k),
        k.len() as int,
    )[i] as int] by {
        assert(is_consumer(r.consumers@[i], users, by_rank(k, quarters(k))[i]));
        assert(order::ranking(quarters(k), k.len() as int)[i] < k.len());
    }
    lemma_ranked_order(x, k, quarters(k));
    assert forall|i: int, j: int| 0 <= i <= j < r.consumers@.len() implies (
    #[trigger] r.consumers@[i]).total_tokens >= (#[trigger] r.consumers@[j]).total_tokens by {
        assert(x[i] >= x[j]);
    }
}

/// Two parts share a display key only if they share both name and status.
pub proof fn lemma_name_key(a: Seen, b: Seen)
    requires
        plays(a, Role::Named),
        plays(b, Role::Named),
        key(a, Role::Named) == key(b, Role::Named),
    ensures
        super::display_name(text::words(a.part.text@)) == super::display_name(
            text::words(b.part.text@),
        ),
        status_of(a) == status_of(b),
{
    reveal_strlit(":");
    reveal_strlit("Existing");
    reveal_strlit("Passthrough");
    reveal_strlit("NotSupported");
    let x = super::display_name(text::words(a.part.text@));
    let y = super::display_name(text::words(b.part.text@));
    let k = key(a, Role::Named);
    let u = status_word(status_of(a));
    let v = status_word(status_of(b));
    assert(k == x + ":"@ + u);
    assert(k == y + ":"@ + v);
    assert(u.len() == 8 || u.len() == 11 || u.len() == 12);
    assert(v.len() == 8 || v.len() == 11 || v.len() == 12);
    assert(k[x.len() as int] == ':');
    assert(k[y.len() as int] == ':');
    if u.len() < v.len() {
        assert(k[x.len() as int] == v[x.len() - y.len() - 1]);
    } else if v.len() < u.len() {
        assert(k[y.len() as int] == u[y.len() - x.len() - 1]);
    }
    assert(x =~= k.take(x.len() as int));
    assert(y =~= k.take(y.len() as int));
    assert(u =~= k.skip((x.len() + 1) as int));
    assert(v =~= k.skip((y.len() + 1) as int));
}

/// The part that produced the output of a chain is not ignored, and all parts after it are;
/// there is none where all parts are ignored.
pub proof fn lemma_effective(parts: Seq<Part>, n: int)
    requires
        0 <= n <= parts.len(),
    ensures
        last_counted(parts, n) matches Some(i) ==> 0 <= i < n && !(parts[i].classification
            is Ignored),
        forall|j: int|
            (match last_counted(parts, n) {
                Some(i) => i < j < n,
                None => 0 <= j < n,
            }) ==> (#[trigger] parts[j]).classification is Ignored,
    decreases n,
{
    if n > 0 && parts[n - 1].classification is Ignored {
        lemma_effective(parts, n - 1);
    }
}

/// No name and status is more frequent than the one that a group is shown under.
pub proof fn lemma_most_frequent(s: Seq<Seen>, i: int)
    requires
        0 <= i < s.len() <= usize::MAX,
    ensures
        grouping::occurrences(
            keys(s, Role::Named),
            key(s[i], Role::Named),
            s.len() as int,
        ) <= grouping::occurrences(
            keys(s, Role::Named),
            key(most_frequent(s), Role::Named),
            s.len() as int,
        ),
{
    let k = keys(s, Role::Named);
    let n = s.len() as int;
    let g = groups(s, Role::Named);
    let c = counts(g);
    let m = g.len() as int;
    lemma_groups(s, Role::Named);
    lemma_group_counts(s, Role::Named);
    grouping::lemma_firsts(k, n);
    assert(grouping::belongs(k, n, i));
    let f = grouping::firsts(k, n);
    let h = choose|h: int| 0 <= h < f.len() && k[#[trigger] f[h]] == k[i];
    order::lemma_ranking(c, m);
    let r = order::ranking(c, m);
    let at = h as usize;
    assert(r.contains(at));
    let p = choose|p: int| 0 <= p < r.len() && r[p] == at;
    let top = r[0] as int;
    assert(r[0] < m);
    if p > 0 {
        assert(c[r[0] as int] >= c[r[p] as int]);
    }
    assert(g[h].1 == grouping::occurrences(k, k[f[h]], n));
    assert(g[top].1 == grouping::occurrences(k, k[f[top]], n));
    assert(g[top].0 == f[top]);
    assert(g[h].1 <= usize::MAX && g[top].1 <= usize::MAX);
    assert(most_frequent(s) == s[f[top]]);
    assert(k[i] == key(s[i], Role::Named));
    assert(k[f[top]] == key(s[f[top]], Role::Named));
}

/// The bytes that count as those of each part of a chain.
pub open spec fn bytes_by_part(cmd: ExtractedCommand) -> Seq<usize> {
    Seq::new(cmd.parts@.len(), |i: int| own_bytes(cmd, i))
}

proof fn lemma_bytes_up_to(cmd: ExtractedCommand, n: int)
    requires
        0 <= n <= cmd.parts@.len(),
    ensures
        number::sum(bytes_by_part(cmd), n) == (match effective(cmd.parts@) {
            Some(i) => if i < n && cmd.output_len is Some {
                cmd.output_len->0 as nat
            } else {
                0
            },
            None => 0,
        }),
    decreases n,
{
    lemma_effective(cmd.parts@, cmd.parts@.len() as int);
    if n > 0 {
        lemma_bytes_up_to(cmd, n - 1);
    }
}

/// The output of a chain counts once: as that of the part that produced it, if there is one.
pub proof fn lemma_output_counted_once(cmd: ExtractedCommand)
    ensures
        number::total(bytes_by_part(cmd)) == (match (effective(cmd.parts@), cmd.output_len) {
            (Some(_), Some(len)) => len as nat,
            _ => 0,
        }),
{
    lemma_effective(cmd.parts@, cmd.parts@.len() as int);
    lemma_bytes_up_to(cmd, cmd.parts@.len() as int);
}

/// Of a chain whose output is known, all bytes count as those of the last part that is not
/// ignored, wherever it stands, and none as those of another part.
pub proof fn lemma_own_bytes(cmd: ExtractedCommand)
    ensures
        forall|k: int|
            0 <= k < cmd.parts@.len() ==> #[trigger] own_bytes(cmd, k) == if cmd.output_len is Some
                && !(cmd.parts@[k].classification is Ignored) && (forall|j: int|
                k < j < cmd.parts@.len() ==> (#[trigger] cmd.parts@[j]).classification is Ignored) {
                cmd.output_len->0
            } else {
                0
            },
{
    lemma_effective_part(cmd.parts@);
}

/// The parts that are counted in a role are all those that play it, in their order.
pub proof fn lemma_cast<'a>(s: Seq<Seen<'a>>, role: Role)
    ensures
        cast(s, role) == s.filter(|x: Seen<'a>| plays(x, role)),
{
    lemma_chosen_is_filter(s, role, s.len() as int);
    assert(s.take(s.len() as int) =~= s);
}

proof fn lemma_chosen_is_filter<'a>(s: Seq<Seen<'a>>, role: Role, n: int)
    requires
        0 <= n <= s.len(),
    ensures
        chosen(s, role, n) == s.take(n).filter(|x: Seen<'a>| plays(x, role)),
    decreases n,
{
    reveal(Seq::filter);
    if n > 0 {
        lemma_chosen_is_filter(s, role, n - 1);
        assert(s.take(n).drop_last() =~= s.take(n - 1));
    } else {
        assert(s.take(n) =~= Seq::<Seen<'a>>::empty());
        assert(chosen(s, role, n) =~= s.take(n).filter(|x: Seen<'a>| plays(x, role)));
    }
}

/// A key occurs as often as there are parts with it, and their shares add up to its amount.
proof fn lemma_key_sums<'a>(c: Seq<Seen<'a>>, role: Role, k: Seq<char>, n: int)
    requires
        0 <= n <= c.len(),
    ensures
        grouping::occurrences(keys(c, role), k, n) == c.take(n).filter(
            |x: Seen<'a>| key(x, role) == k,
        ).len(),
        grouping::amount(keys(c, role), shares(c, role), k, n) == c.take(n).filter(
            |x: Seen<'a>| key(x, role) == k,
        ).fold_left(0int, |t: int, x: Seen<'a>| t + share(x, role)),
    decreases n,
{
    reveal(Seq::filter);
    reveal(Seq::fold_left);
    let p = |x: Seen<'a>| key(x, role) == k;
    if n > 0 {
        lemma_key_sums(c, role, k, n - 1);
        assert(c.take(n).drop_last() =~= c.take(n - 1));
        assert(c.take(n).last() == c[n - 1]);
        if p(c[n - 1]) {
            let before = c.take(n - 1).filter(p);
            assert(c.take(n).filter(p) == before.push(c[n - 1]));
            assert(before.push(c[n - 1]).drop_last() =~= before);
        }
    } else {
        assert(c.take(n) =~= Seq::<Seen<'a>>::empty());
        assert(c.take(n).filter(p) =~= Seq::<Seen<'a>>::empty());
    }
}

/// Each group counts all parts with its key and adds up their shares; no two groups have the
/// same key, and every part is in one.
proof fn lemma_ranked_groups<'a>(s: Seq<Seen<'a>>, role: Role, by: Seq<usize>)
    requires
        s.len() <= usize::MAX,
        by.len() == groups(cast(s, role), role).len(),
    ensures
        ({
            let c = cast(s, role);
            let g = by_rank(groups(c, role), by);
            &&& forall|i: int|
                #![trigger g[i]]
                0 <= i < g.len() ==> {
                    &&& 0 <= g[i].0 < c.len()
                    &&& g[i].1 == s.filter(
                        |x: Seen<'a>| plays(x, role) && key(x, role) == key(c[g[i].0], role),
                    ).len()
                    &&& g[i].2 == s.filter(
                        |x: Seen<'a>| plays(x, role) && key(x, role) == key(c[g[i].0], role),
                    ).fold_left(0int, |t: int, x: Seen<'a>| t + share(x, role))
                    &&& forall|j: int|
                        0 <= j < g[i].0 ==> key(#[trigger] c[j], role) != key(c[g[i].0], role)
                }
            &&& forall|i: int, j: int|
                #![trigger g[i], g[j]]
                0 <= i < j < g.len() ==> key(c[g[i].0], role) != key(c[g[j].0], role)
            &&& forall|m: int|
                #![trigger s[m]]
                0 <= m < s.len() && plays(s[m], role) ==> exists|i: int|
                    0 <= i < g.len() && key(c[(#[trigger] g[i]).0], role) == key(s[m], role)
        }),
{
    let c = cast(s, role);
    let k = keys(c, role);
    let n = c.len() as int;
    let all = groups(c, role);
    let g = by_rank(all, by);
    let f = grouping::firsts(k, n);
    let r = order::ranking(by, by.len() as int);
    lemma_cast(s, role);
    lemma_chosen_play(s, role, s.len() as int);
    grouping::lemma_firsts(k, n);
    grouping::lemma_groups_exactly(k, shares(c, role), Seq::empty(), n);
    lemma_groups(c, role);
    order::lemma_ranking(by, by.len() as int);
    assert(c.take(n) =~= c);
    assert forall|i: int|
        #![trigger g[i]]
        0 <= i < g.len() implies ({
        &&& 0 <= g[i].0 < c.len()
        &&& g[i].1 == s.filter(
            |x: Seen<'a>| plays(x, role) && key(x, role) == key(c[g[i].0], role),
        ).len()
        &&& g[i].2 == s.filter(
            |x: Seen<'a>| plays(x, role) && key(x, role) == key(c[g[i].0], role),
        ).fold_left(0int, |t: int, x: Seen<'a>| t + share(x, role))
        &&& forall|j: int| 0 <= j < g[i].0 ==> key(#[trigger] c[j], role) != key(c[g[i].0], role)
    }) by {
        let h = r[i] as int;
        assert(r[i] < all.len());
        assert(g[i] == all[h]);
        assert(all[h].0 == f[h]);
        let mine = key(c[f[h]], role);
        assert(k[f[h]] == mine);
        lemma_key_sums(c, role, mine, n);
        let p = |x: Seen<'a>| plays(x, role);
        let q = |x: Seen<'a>| key(x, role) == mine;
        text::lemma_filter_twice(s, p, q);
        assert((|x: Seen<'a>| p(x) && q(x)) =~= (|x: Seen<'a>|
            plays(x, role) && key(x, role) == key(c[g[i].0], role)));
        lemma_firsts_are_first(k, n, h);
        assert forall|j: int| 0 <= j < g[i].0 implies key(#[trigger] c[j], role) != key(
            c[g[i].0],
            role,
        ) by {
            assert(k[j] == key(c[j], role));
        }
    }
    assert forall|i: int, j: int|
        #![trigger g[i], g[j]]
        0 <= i < j < g.len() implies key(c[g[i].0], role) != key(c[g[j].0], role) by {
        let a = r[i] as int;
        let b = r[j] as int;
        assert(r[i] < all.len() && r[j] < all.len());
        assert(a != b);
        assert(g[i].0 == f[a] && g[j].0 == f[b]);
        assert(k[f[a]] == key(c[f[a]], role) && k[f[b]] == key(c[f[b]], role));
        if a < b {
            assert(k[f[a]] != k[f[b]]);
        } else {
            assert(k[f[b]] != k[f[a]]);
        }
    }
    assert forall|m: int|
        #![trigger s[m]]
        0 <= m < s.len() && plays(s[m], role) implies exists|i: int|
        0 <= i < g.len() && key(c[(#[trigger] g[i]).0], role) == key(s[m], role) by {
        let p = |x: Seen<'a>| plays(x, role);
        s.lemma_filter_contains(p, m);
        let at = choose|at: int| 0 <= at < c.len() && c[at] == s[m];
        assert(grouping::belongs(k, n, at));
        let h = choose|h: int| 0 <= h < f.len() && k[#[trigger] f[h]] == k[at];
        let u = h as usize;
        assert(r.contains(u));
        let i = choose|i: int| 0 <= i < r.len() && r[i] == u;
        assert(g[i] == all[h]);
        assert(k[f[h]] == key(c[f[h]], role) && k[at] == key(c[at], role));
    }
}

proof fn lemma_firsts_are_first(k: Seq<Seq<char>>, n: int, h: int)
    requires
        0 <= n <= k.len(),
        0 <= h < grouping::firsts(k, n).len(),
    ensures
        forall|j: int|
            0 <= j < grouping::firsts(k, n)[h] ==> #[trigger] k[j] != k[grouping::firsts(k, n)[h]],
    decreases n,
{
    if n > 0 {
        let f = grouping::firsts(k, n - 1);
        if h < f.len() {
            lemma_firsts_are_first(k, n - 1, h);
        }
    }
}

/// All parts are counted, those that went through the filter and those that bypassed it among
/// them.
pub proof fn lemma_report_counts<'a>(r: DiscoverReport, s: Seq<Seen<'a>>)
    requires
        sums_up(r, s),
    ensures
        r.total_commands == s.len(),
        r.already_rtk == s.filter(
            |x: Seen<'a>|
                x.part.bypass is None && x.part.classification is Ignored && text::starts_with(
                    text::trim(x.part.text@),
                    "rtk "@,
                ),
        ).len(),
        r.rtk_disabled_count == s.filter(
            |x: Seen<'a>| x.part.bypass is Some && x.part.bypass->0.classification is Supported,
        ).len(),
{
    lemma_cast(s, Role::Filtered);
    lemma_cast(s, Role::Bypassed);
    assert((|x: Seen<'a>| plays(x, Role::Filtered)) =~= (|x: Seen<'a>|
        x.part.bypass is None && x.part.classification is Ignored && text::starts_with(
            text::trim(x.part.text@),
            "rtk "@,
        )));
    assert((|x: Seen<'a>| plays(x, Role::Bypassed)) =~= (|x: Seen<'a>|
        x.part.bypass is Some && x.part.bypass->0.classification is Supported));
}

/// A supported command that was run without the filter `name`.
pub open spec fn misses(s: Seen, name: Seq<char>) -> bool {
    s.part.bypass is None && (s.part.classification matches Classification::Supported {
        rtk_equivalent,
        ..
    } && rtk_equivalent@ == name)
}

/// Each entry of a supported command counts all parts that its filter missed, and adds up what
/// it would have saved on them; no filter has two entries, and every filter that missed
/// something has one.
pub proof fn lemma_report_supported<'a>(r: DiscoverReport, s: Seq<Seen<'a>>)
    requires
        sums_up(r, s),
        s.len() <= usize::MAX,
    ensures
        forall|i: int|
            #![trigger r.supported@[i]]
            0 <= i < r.supported@.len() ==> {
                let mine = s.filter(
                    |x: Seen<'a>| misses(x, r.supported@[i].rtk_equivalent@),
                );
                &&& r.supported@[i].count == mine.len()
                &&& r.supported@[i].estimated_savings_tokens == mine.fold_left(
                    0int,
                    |t: int, x: Seen<'a>| t + x.saved,
                )
            },
        forall|i: int, j: int|
            #![trigger r.supported@[i], r.supported@[j]]
            0 <= i < j < r.supported@.len() ==> r.supported@[i].rtk_equivalent@
                != r.supported@[j].rtk_equivalent@,
        forall|m: int, name: Seq<char>|
            0 <= m < s.len() && #[trigger] misses(s[m], name) ==> exists|i: int|
                0 <= i < r.supported@.len() && (#[trigger] r.supported@[i]).rtk_equivalent@ == name,
{
    let role = Role::Missed;
    let c = cast(s, role);
    let all = groups(c, role);
    let by = totals(all);
    let g = by_rank(all, by);
    lemma_ranked_groups(s, role, by);
    assert forall|i: int|
        #![trigger r.supported@[i]]
        0 <= i < r.supported@.len() implies ({
        let mine = s.filter(|x: Seen<'a>| misses(x, r.supported@[i].rtk_equivalent@));
        &&& r.supported@[i].count == mine.len()
        &&& r.supported@[i].estimated_savings_tokens == mine.fold_left(
            0int,
            |t: int, x: Seen<'a>| t + x.saved,
        )
    }) by {
        let e = r.supported@[i];
        assert(is_supported_entry(e, c, g[i]));
        assert((|x: Seen<'a>| plays(x, role) && key(x, role) == key(c[g[i].0], role)) =~= (|
            x: Seen<'a>,
        | misses(x, e.rtk_equivalent@)));
        assert((|t: int, x: Seen<'a>| t + share(x, role)) =~= (|t: int, x: Seen<'a>| t + x.saved));
    }
    assert forall|i: int, j: int|
        #![trigger r.supported@[i], r.supported@[j]]
        0 <= i < j < r.supported@.len() implies r.supported@[i].rtk_equivalent@
        != r.supported@[j].rtk_equivalent@ by {
        assert(is_supported_entry(r.supported@[i], c, g[i]));
        assert(is_supported_entry(r.supported@[j], c, g[j]));
    }
    assert forall|m: int, name: Seq<char>|
        0 <= m < s.len() && #[trigger] misses(s[m], name) implies exists|i: int|
        0 <= i < r.supported@.len() && (#[trigger] r.supported@[i]).rtk_equivalent@ == name by {
        assert(plays(s[m], role) && key(s[m], role) == name);
        let i = choose|i: int|
            0 <= i < g.len() && key(c[(#[trigger] g[i]).0], role) == key(s[m], role);
        assert(is_supported_entry(r.supported@[i], c, g[i]));
    }
}

/// An unsupported command with this base.
pub open spec fn lacks_filter(s: Seen, base: Seq<char>) -> bool {
    s.part.bypass is None && (s.part.classification matches Classification::Unsupported {
        base_command,
    } && base_command@ == base)
}

/// Each entry of an unsupported command counts all parts with its base and shows one of them;
/// no base has two entries, and every base has one.
pub proof fn lemma_report_unsupported<'a>(r: DiscoverReport, s: Seq<Seen<'a>>)
    requires
        sums_up(r, s),
        s.len() <= usize::MAX,
    ensures
        forall|i: int|
            #![trigger r.unsupported@[i]]
            0 <= i < r.unsupported@.len() ==> {
                let mine = s.filter(
                    |x: Seen<'a>| lacks_filter(x, r.unsupported@[i].base_command@),
                );
                &&& r.unsupported@[i].count == mine.len()
                &&& mine.len() > 0 && r.unsupported@[i].example@ == mine[0].part.text@
            },
        forall|i: int, j: int|
            #![trigger r.unsupported@[i], r.unsupported@[j]]
            0 <= i < j < r.unsupported@.len() ==> r.unsupported@[i].base_command@
                != r.unsupported@[j].base_command@,
        forall|m: int, base: Seq<char>|
            0 <= m < s.len() && #[trigger] lacks_filter(s[m], base) ==> exists|i: int|
                0 <= i < r.unsupported@.len() && (#[trigger] r.unsupported@[i]).base_command@
                    == base,
{
    let role = Role::Unhandled;
    let c = cast(s, role);
    let all = groups(c, role);
    let by = counts(all);
    let g = by_rank(all, by);
    lemma_ranked_groups(s, role, by);
    lemma_cast(s, role);
    assert forall|i: int|
        #![trigger r.unsupported@[i]]
        0 <= i < r.unsupported@.len() implies ({
        let mine = s.filter(|x: Seen<'a>| lacks_filter(x, r.unsupported@[i].base_command@));
        &&& r.unsupported@[i].count == mine.len()
        &&& mine.len() > 0 && r.unsupported@[i].example@ == mine[0].part.text@
    }) by {
        let e = r.unsupported@[i];
        assert(is_unsupported_entry(e, c, g[i]));
        let at = g[i].0;
        let k = key(c[at], role);
        let p = |x: Seen<'a>| plays(x, role);
        let q = |x: Seen<'a>| key(x, role) == k;
        lemma_chosen_play(s, role, s.len() as int);
        assert(plays(c[at], role));
        assert((|x: Seen<'a>| plays(x, role) && key(x, role) == key(c[g[i].0], role)) =~= (|
            x: Seen<'a>,
        | lacks_filter(x, e.base_command@)));
        text::lemma_filter_twice(s, p, q);
        assert((|x: Seen<'a>| p(x) && q(x)) =~= (|x: Seen<'a>| lacks_filter(x, e.base_command@)));
        assert forall|j: int| 0 <= j < at implies !q(#[trigger] c[j]) by {
            assert(key(c[j], role) != key(c[at], role));
        }
        lemma_first_of_filter(c, q, at);
    }
    assert forall|i: int, j: int|
        #![trigger r.unsupported@[i], r.unsupported@[j]]
        0 <= i < j < r.unsupported@.len() implies r.unsupported@[i].base_command@
        != r.unsupported@[j].base_command@ by {
        assert(is_unsupported_entry(r.unsupported@[i], c, g[i]));
        assert(is_unsupported_entry(r.unsupported@[j], c, g[j]));
    }
    assert forall|m: int, base: Seq<char>|
        0 <= m < s.len() && #[trigger] lacks_filter(s[m], base) implies exists|i: int|
        0 <= i < r.unsupported@.len() && (#[trigger] r.unsupported@[i]).base_command@ == base by {
        assert(plays(s[m], role) && key(s[m], role) == base);
        let i = choose|i: int|
            0 <= i < g.len() && key(c[(#[trigger] g[i]).0], role) == key(s[m], role);
        assert(is_unsupported_entry(r.unsupported@[i], c, g[i]));
    }
}

/// The first element that satisfies `q` is the first of those that do.
proof fn lemma_first_of_filter<T>(c: Seq<T>, q: spec_fn(T) -> bool, at: int)
    requires
        0 <= at < c.len(),
        q(c[at]),
        forall|j: int| 0 <= j < at ==> !q(#[trigger] c[j]),
    ensures
        c.filter(q).len() > 0,
        c.filter(q)[0] == c[at],
    decreases c.len(),
{
    reveal(Seq::filter);
    let before = c.drop_last();
    if at < c.len() - 1 {
        lemma_first_of_filter(before, q, at);
    } else {
        assert(before.all(|x: T| !q(x))) by {
            assert forall|j: int| 0 <= j < before.len() implies !q(#[trigger] before[j]) by {
                assert(!q(c[j]));
            }
        }
        before.lemma_all_neg_filter_empty(q);
    }
}

/// Each consumer counts all parts with its name, its tokens are a quarter of the bytes that they
/// printed, and it is handled as the first of them; no name has two entries; and a name that has
/// none printed no more than those that have.
pub proof fn lemma_report_consumers<'a>(r: DiscoverReport, s: Seq<Seen<'a>>)
    requires
        sums_up(r, s),
        sums_fit(s),
        s.len() <= usize::MAX,
    ensures
        forall|i: int|
            #![trigger r.consumers@[i]]
            0 <= i < r.consumers@.len() ==> {
                let e = r.consumers@[i];
                let mine = s.filter(
                    |x: Seen<'a>|
                        super::base_name(text::words(x.part.text@)).len() > 0 && super::base_name(
                            text::words(x.part.text@),
                        ) == e.command@,
                );
                &&& e.count == mine.len()
                &&& e.total_tokens == mine.fold_left(0int, |t: int, x: Seen<'a>| t + x.bytes) / 4
                &&& e.count > 0 && e.avg_tokens == e.total_tokens / e.count
                &&& e.rtk_handling == mine[0].part.handling
            },
        forall|i: int, j: int|
            #![trigger r.consumers@[i], r.consumers@[j]]
            0 <= i < j < r.consumers@.len() ==> r.consumers@[i].command@ != r.consumers@[j].command@,
        r.consumers@.len() <= 15,
        forall|m: int|
            #![trigger s[m]]
            0 <= m < s.len() && super::base_name(text::words(s[m].part.text@)).len() > 0 ==> (
            exists|i: int|
                0 <= i < r.consumers@.len() && (#[trigger] r.consumers@[i]).command@
                    == super::base_name(text::words(s[m].part.text@))) || r.consumers@.len() == 15
                && forall|i: int|
                0 <= i < 15 ==> (#[trigger] r.consumers@[i]).total_tokens >= s.filter(
                    |x: Seen<'a>|
                        super::base_name(text::words(x.part.text@)) == super::base_name(
                            text::words(s[m].part.text@),
                        ),
                ).fold_left(0int, |t: int, x: Seen<'a>| t + x.bytes) / 4,
{
    let role = Role::Consumer;
    let c = cast(s, role);
    let all = groups(c, role);
    let by = quarters(all);
    let g = by_rank(all, by);
    lemma_ranked_groups(s, role, by);
    lemma_chosen_play(s, role, s.len() as int);
    assert forall|i: int|
        #![trigger r.consumers@[i]]
        0 <= i < r.consumers@.len() implies ({
        let e = r.consumers@[i];
        let mine = s.filter(
            |x: Seen<'a>|
                super::base_name(text::words(x.part.text@)).len() > 0 && super::base_name(
                    text::words(x.part.text@),
                ) == e.command@,
        );
        &&& e.count == mine.len()
        &&& e.total_tokens == mine.fold_left(0int, |t: int, x: Seen<'a>| t + x.bytes) / 4
        &&& e.count > 0 && e.avg_tokens == e.total_tokens / e.count
        &&& e.rtk_handling == mine[0].part.handling
    }) by {
        let e = r.consumers@[i];
        assert(is_consumer(e, c, g[i]));
        let at = g[i].0;
        assert(plays(c[at], role));
        let p = |x: Seen<'a>|
            super::base_name(text::words(x.part.text@)).len() > 0 && super::base_name(
                text::words(x.part.text@),
            ) == e.command@;
        assert((|x: Seen<'a>| plays(x, role) && key(x, role) == key(c[g[i].0], role)) =~= p);
        assert((|t: int, x: Seen<'a>| t + share(x, role)) =~= (|t: int, x: Seen<'a>| t + x.bytes));
        lemma_cast(s, role);
        let q = |x: Seen<'a>| plays(x, role);
        let k = key(c[at], role);
        let own = |x: Seen<'a>| key(x, role) == k;
        text::lemma_filter_twice(s, q, own);
        assert((|x: Seen<'a>| q(x) && own(x)) =~= p);
        assert forall|j: int| 0 <= j < at implies !own(#[trigger] c[j]) by {
            assert(key(c[j], role) != key(c[at], role));
        }
        lemma_first_of_filter(c, own, at);
    }
    assert forall|i: int, j: int|
        #![trigger r.consumers@[i], r.consumers@[j]]
        0 <= i < j < r.consumers@.len() implies r.consumers@[i].command@
        != r.consumers@[j].command@ by {
        assert(is_consumer(r.consumers@[i], c, g[i]));
        assert(is_consumer(r.consumers@[j], c, g[j]));
    }
    assert forall|m: int|
        #![trigger s[m]]
        0 <= m < s.len() && super::base_name(text::words(s[m].part.text@)).len() > 0 implies (
    exists|i: int|
        0 <= i < r.consumers@.len() && (#[trigger] r.consumers@[i]).command@ == super::base_name(
            text::words(s[m].part.text@),
        )) || r.consumers@.len() == 15 && forall|i: int|
        0 <= i < 15 ==> (#[trigger] r.consumers@[i]).total_tokens >= s.filter(
            |x: Seen<'a>|
                super::base_name(text::words(x.part.text@)) == super::base_name(
                    text::words(s[m].part.text@),
                ),
        ).fold_left(0int, |t: int, x: Seen<'a>| t + x.bytes) / 4 by {
        assert(plays(s[m], role));
        let p = choose|p: int|
            0 <= p < g.len() && key(c[(#[trigger] g[p]).0], role) == key(s[m], role);
        if p < r.consumers@.len() {
            assert(is_consumer(r.consumers@[p], c, g[p]));
        } else {
            assert((|x: Seen<'a>| plays(x, role) && key(x, role) == key(c[g[p].0], role)) =~= (|
                x: Seen<'a>,
            |
                super::base_name(text::words(x.part.text@)) == super::base_name(
                    text::words(s[m].part.text@),
                )));
            assert((|t: int, x: Seen<'a>| t + share(x, role)) =~= (|t: int, x: Seen<'a>|
                t + x.bytes));
            assert forall|i: int| 0 <= i < 15 implies (#[trigger] r.consumers@[i]).total_tokens
                >= g[p].2 / 4 by {
                assert(is_consumer(r.consumers@[i], c, g[i]));
                lemma_ranked_quarters(c, i, p);
            }
        }
    }
}

/// Of two groups of consumers in rank order the first has at least as many tokens.
proof fn lemma_ranked_quarters(c: Seq<Seen>, i: int, p: int)
    requires
        shares_fit(c, Role::Consumer),
        c.len() <= usize::MAX,
        0 <= i < p < groups(c, Role::Consumer).len(),
    ensures
        ({
            let all = groups(c, Role::Consumer);
            let g = by_rank(all, quarters(all));
            g[i].2 / 4 >= g[p].2 / 4
        }),
{
    let role = Role::Consumer;
    let all = groups(c, role);
    let by = quarters(all);
    let k = keys(c, role);
    let n = c.len() as int;
    let r = order::ranking(by, by.len() as int);
    lemma_groups(c, role);
    grouping::lemma_firsts(k, n);
    order::lemma_ranking(by, by.len() as int);
    assert(r[i] < all.len() && r[p] < all.len());
    assert forall|h: int| 0 <= h < all.len() implies #[trigger] all[h].2 <= usize::MAX by {
        let at = grouping::firsts(k, n)[h];
        assert(grouping::amount(k, shares(c, role), k[at], n) <= usize::MAX);
    }
    assert(all[r[i] as int].2 <= usize::MAX && all[r[p] as int].2 <= usize::MAX);
    assert(by[r[i] as int] >= by[r[p] as int]);
}

/// The parts that are counted are the parts of all chains, chain after chain and each in its
/// order, with the bytes that count as theirs and what their filter would have saved on them.
pub proof fn lemma_seen<'a>(
    commands: &'a Vec<ExtractedCommand>,
    savings: Seq<Vec<usize>>,
    n: int,
)
    requires
        0 <= n <= commands@.len(),
    ensures
        seen(commands, savings, n) == Seq::new(
            n as nat,
            |k: int|
                Seq::new(
                    commands@[k].parts@.len(),
                    |i: int|
                        Seen {
                            part: &commands@[k].parts@[i],
                            bytes: own_bytes(commands@[k], i),
                            saved: savings[k]@[i],
                        },
                ),
        ).flatten(),
    decreases n,
{
    let f = |k: int|
        Seq::new(
            commands@[k].parts@.len(),
            |i: int|
                Seen {
                    part: &commands@[k].parts@[i],
                    bytes: own_bytes(commands@[k], i),
                    saved: savings[k]@[i],
                },
        );
    let chains = Seq::new(n as nat, f);
    if n > 0 {
        lemma_seen(commands, savings, n - 1);
        let before = Seq::new((n - 1) as nat, f);
        assert(chains =~= before.push(f(n - 1)));
        before.lemma_flatten_push(f(n - 1));
        assert(f(n - 1) =~= seen_parts(&commands@[n - 1], savings[n - 1]@));
    } else {
        assert(chains =~= Seq::<Seq<Seen<'a>>>::empty());
        assert(chains.flatten() =~= Seq::<Seen<'a>>::empty());
        assert(seen(commands, savings, n) =~= Seq::<Seen<'a>>::empty());
    }
}

/// The names of the bypassed commands are those of the parts, each once, from the most frequent
/// to the least; of equally frequent ones the smaller comes first. The examples are the first
/// five, each with how many of the parts bear its name.
pub proof fn lemma_bypass_examples<'a>(c: Seq<Seen<'a>>) -> (names: Seq<Seq<char>>)
    requires
        c.len() <= usize::MAX,
    ensures
        names.no_duplicates(),
        forall|m: int|
            0 <= m < c.len() ==> names.contains(key(#[trigger] c[m], Role::Bypassed)),
        forall|i: int|
            #![trigger names[i]]
            0 <= i < names.len() ==> exists|m: int|
                0 <= m < c.len() && key(#[trigger] c[m], Role::Bypassed) == names[i],
        forall|i: int, j: int|
            #![trigger names[i], names[j]]
            0 <= i < j < names.len() ==> {
                let a = c.filter(|x: Seen<'a>| key(x, Role::Bypassed) == names[i]).len();
                let b = c.filter(|x: Seen<'a>| key(x, Role::Bypassed) == names[j]).len();
                a > b || a == b && order::at_most(names[i], names[j])
            },
        bypass_examples(c).len() == if names.len() < 5 {
            names.len()
        } else {
            5
        },
        forall|i: int|
            #![trigger names[i]]
            #![trigger bypass_examples(c)[i]]
            0 <= i < bypass_examples(c).len() ==> bypass_examples(c)[i] == names[i] + " ("@
                + number::decimal(
                c.filter(|x: Seen<'a>| key(x, Role::Bypassed) == names[i]).len(),
            ) + "x)"@,
{
    broadcast use vstd::seq_lib::group_to_multiset_ensures;

    let role = Role::Bypassed;
    let k = keys(c, role);
    let n = c.len() as int;
    let g = groups(c, role);
    let u = Seq::new(g.len(), |i: int| key(c[g[i].0], role));
    let sorted = bypassed_names(c);
    let counts = bypassed_counts(c);
    let r = order::ranking(counts, counts.len() as int);
    let names = Seq::new(r.len(), |i: int| sorted[r[i] as int]);
    lemma_groups(c, role);
    grouping::lemma_firsts(k, n);
    order::lemma_sorted(u);
    assert(sorted == order::sorted(u));
    assert(u.no_duplicates()) by {
        assert forall|i: int, j: int| 0 <= i < u.len() && 0 <= j < u.len() && i != j implies u[i]
            != u[j] by {
            let f = grouping::firsts(k, n);
            assert(g[i].0 == f[i] && g[j].0 == f[j]);
            assert(k[f[i]] == key(c[f[i]], role) && k[f[j]] == key(c[f[j]], role));
        }
    }
    u.lemma_multiset_has_no_duplicates();
    sorted.lemma_multiset_has_no_duplicates_conv();
    order::lemma_ranking(counts, counts.len() as int);
    assert forall|i: int| 0 <= i < r.len() implies 0 <= #[trigger] r[i] < sorted.len() by {
        assert(r[i] < counts.len());
    }
    assert forall|i: int, j: int| 0 <= i < names.len() && 0 <= j < names.len() && i != j implies
        names[i] != names[j] by {
        if i < j {
            assert(r[i] != r[j]);
        } else {
            assert(r[j] != r[i]);
        }
    }
    assert forall|m: int| 0 <= m < c.len() implies names.contains(key(#[trigger] c[m], role)) by {
        assert(grouping::belongs(k, n, m));
        let f = grouping::firsts(k, n);
        let h = choose|h: int| 0 <= h < f.len() && k[#[trigger] f[h]] == k[m];
        assert(g[h].0 == f[h]);
        assert(u[h] == key(c[m], role));
        assert(u.contains(u[h]));
        assert(u.to_multiset().count(u[h]) > 0);
        assert(sorted.to_multiset().count(u[h]) > 0);
        assert(sorted.contains(u[h]));
        let p = choose|p: int| 0 <= p < sorted.len() && sorted[p] == u[h];
        assert(r.contains(p as usize));
        let q = choose|q: int| 0 <= q < r.len() && r[q] == p as usize;
        assert(names[q] == u[h]);
    }
    assert forall|i: int|
        #![trigger names[i]]
        0 <= i < names.len() implies exists|m: int|
        0 <= m < c.len() && key(#[trigger] c[m], role) == names[i] by {
        let p = r[i] as int;
        assert(sorted.contains(sorted[p]));
        assert(sorted.to_multiset().count(sorted[p]) > 0);
        assert(u.to_multiset().count(sorted[p]) > 0);
        assert(u.contains(sorted[p]));
        let h = choose|h: int| 0 <= h < u.len() && u[h] == sorted[p];
        assert(key(c[g[h].0], role) == names[i]);
    }
    assert forall|i: int|
        #![trigger names[i]]
        0 <= i < names.len() implies counts[r[i] as int] == c.filter(
        |x: Seen<'a>| key(x, role) == names[i],
    ).len() by {
        lemma_key_count(c, role, names[i]);
        let p = r[i] as int;
        grouping::lemma_occurrences(k, names[i], n);
        assert(counts[p] == grouping::occurrences(k, sorted[p], n) as usize);
    }
    assert forall|i: int, j: int|
        #![trigger names[i], names[j]]
        0 <= i < j < names.len() implies ({
        let a = c.filter(|x: Seen<'a>| key(x, role) == names[i]).len();
        let b = c.filter(|x: Seen<'a>| key(x, role) == names[j]).len();
        a > b || a == b && order::at_most(names[i], names[j])
    }) by {
        assert(counts[r[i] as int] >= counts[r[j] as int]);
        if counts[r[i] as int] == counts[r[j] as int] {
            assert(r[i] < r[j]);
            assert(order::at_most(sorted[r[i] as int], sorted[r[j] as int]));
        }
    }
    names
}

/// How often a name occurs among the keys is how many of the parts bear it.
proof fn lemma_key_count<'a>(c: Seq<Seen<'a>>, role: Role, name: Seq<char>)
    ensures
        grouping::occurrences(keys(c, role), name, c.len() as int) == c.filter(
            |x: Seen<'a>| key(x, role) == name,
        ).len(),
    decreases c.len(),
{
    reveal(Seq::filter);
    if c.len() > 0 {
        let before = c.drop_last();
        lemma_key_count(before, role, name);
        lemma_occurrences_prefix(keys(c, role), keys(before, role), name, c.len() - 1);
    }
}

proof fn lemma_occurrences_prefix(a: Seq<Seq<char>>, b: Seq<Seq<char>>, name: Seq<char>, n: int)
    requires
        0 <= n <= a.len(),
        n <= b.len(),
        forall|i: int| 0 <= i < n ==> #[trigger] a[i] == b[i],
    ensures
        grouping::occurrences(a, name, n) == grouping::occurrences(b, name, n),
    decreases n,
{
    if n > 0 {
        lemma_occurrences_prefix(a, b, name, n - 1);
        assert(a[n - 1] == b[n - 1]);
    }
}

/// The examples of a report are the first five of the names of the supported commands that
/// bypassed the filter, from the most frequent to the least, each name once and with how many of
/// the parts bear it.
pub proof fn lemma_report_bypasses<'a>(r: DiscoverReport, s: Seq<Seen<'a>>) -> (names: Seq<
    Seq<char>,
>)
    requires
        sums_up(r, s),
        s.len() <= usize::MAX,
    ensures
        ({
            let c = s.filter(
                |x: Seen<'a>| x.part.bypass is Some && x.part.bypass->0.classification is Supported,
            );
            &&& names.no_duplicates()
            &&& forall|m: int|
                0 <= m < c.len() ==> names.contains(
                    super::display_name(text::words((#[trigger] c[m]).part.bypass->0.command@)),
                )
            &&& r.rtk_disabled_examples@.len() == if names.len() < 5 {
                names.len()
            } else {
                5
            }
            &&& forall|i: int|
                #![trigger names[i]]
                0 <= i < r.rtk_disabled_examples@.len() ==> r.rtk_disabled_examples@[i]@ == names[i]
                    + " ("@ + number::decimal(
                    c.filter(|x: Seen<'a>| key(x, Role::Bypassed) == names[i]).len(),
                ) + "x)"@
            &&& forall|i: int, j: int|
                #![trigger names[i], names[j]]
                0 <= i < j < names.len() ==> c.filter(
                    |x: Seen<'a>| key(x, Role::Bypassed) == names[i],
                ).len() >= c.filter(|x: Seen<'a>| key(x, Role::Bypassed) == names[j]).len()
        }),
{
    let c = cast(s, Role::Bypassed);
    lemma_cast(s, Role::Bypassed);
    lemma_chosen_play(s, Role::Bypassed, s.len() as int);
    assert((|x: Seen<'a>| plays(x, Role::Bypassed)) =~= (|x: Seen<'a>|
        x.part.bypass is Some && x.part.bypass->0.classification is Supported));
    s.lemma_filter_len(|x: Seen<'a>| plays(x, Role::Bypassed));
    let names = lemma_bypass_examples(c);
    assert forall|m: int| 0 <= m < c.len() implies names.contains(
        super::display_name(text::words((#[trigger] c[m]).part.bypass->0.command@)),
    ) by {
        assert(plays(c[m], Role::Bypassed));
        assert(names.contains(key(c[m], Role::Bypassed)));
    }
    assert forall|i: int|
        #![trigger names[i]]
        0 <= i < r.rtk_disabled_examples@.len() implies r.rtk_disabled_examples@[i]@ == names[i]
        + " ("@ + number::decimal(
        c.filter(|x: Seen<'a>| key(x, Role::Bypassed) == names[i]).len(),
    ) + "x)"@ by {
        assert(text::strings(r.rtk_disabled_examples@)[i] == bypass_examples(c)[i]);
    }
    names
}

/// A name that the rules support by itself is handled as they say of it, whatever they say of it
/// with an argument. One that they do not support is handled as they say of it with an argument,
/// and is not handled at all if they do not support that either.
pub proof fn lemma_handling(bare: Classification, a: Classification, b: Classification)
    ensures
        bare is Supported ==> handling(bare, a) == handling(bare, b),
        !(bare is Supported) ==> handling(bare, a) == handling(a, b) || !(a is Supported),
        !(bare is Supported) && !(a is Supported) ==> handling(bare, a) == RtkHandling::Unhandled,
        bare matches Classification::Supported { status, .. } ==> {
            &&& status == RtkStatus::Existing <==> handling(bare, a) == RtkHandling::Filtered
            &&& status == RtkStatus::Passthrough <==> handling(bare, a) == RtkHandling::Passthrough
        },
{
}

/// A supported part with this display name and status.
pub open spec fn goes_by(s: Seen, name: Seq<char>, status: RtkStatus) -> bool {
    &&& super::display_name(text::words(s.part.text@)) == name
    &&& s.part.classification matches Classification::Supported { status: its, .. } && its
        == status
}

proof fn lemma_same_filter<T>(s: Seq<T>, p: spec_fn(T) -> bool, q: spec_fn(T) -> bool)
    requires
        forall|i: int| 0 <= i < s.len() ==> p(#[trigger] s[i]) == q(s[i]),
    ensures
        s.filter(p) == s.filter(q),
    decreases s.len(),
{
    reveal(Seq::filter);
    if s.len() > 0 {
        let before = s.drop_last();
        assert forall|i: int| 0 <= i < before.len() implies p(#[trigger] before[i]) == q(
            before[i],
        ) by {
            assert(before[i] == s[i]);
        }
        lemma_same_filter(before, p, q);
        assert(p(s[s.len() - 1]) == q(s[s.len() - 1]));
    }
}

proof fn lemma_alike_is_filter<'a>(s: Seq<Seen<'a>>, k: Seq<char>, n: int)
    requires
        0 <= n <= s.len(),
    ensures
        alike_in(s, k, n) == s.take(n).filter(|x: Seen<'a>| key(x, Role::Missed) == k),
    decreases n,
{
    reveal(Seq::filter);
    if n > 0 {
        lemma_alike_is_filter(s, k, n - 1);
        assert(s.take(n).drop_last() =~= s.take(n - 1));
    }
}

proof fn lemma_most_frequent_name<'a>(mine: Seq<Seen<'a>>, m: int)
    requires
        0 <= m < mine.len() <= usize::MAX,
        forall|i: int| 0 <= i < mine.len() ==> plays(#[trigger] mine[i], Role::Missed),
    ensures
        ({
            let main = most_frequent(mine);
            let name = super::display_name(text::words(main.part.text@));
            let other = super::display_name(text::words(mine[m].part.text@));
            mine.filter(|x: Seen<'a>| goes_by(x, name, status_of(main))).len() >= mine.filter(
                |x: Seen<'a>| goes_by(x, other, status_of(mine[m])),
            ).len()
        }),
{
    lemma_most_frequent(mine, m);
    lemma_most_frequent_plays(mine);
    lemma_goes_by(mine, most_frequent(mine));
    lemma_goes_by(mine, mine[m]);
    lemma_key_count(mine, Role::Named, key(most_frequent(mine), Role::Named));
    lemma_key_count(mine, Role::Named, key(mine[m], Role::Named));
}

proof fn lemma_goes_by<'a>(mine: Seq<Seen<'a>>, main: Seen<'a>)
    requires
        plays(main, Role::Missed),
        forall|i: int| 0 <= i < mine.len() ==> plays(#[trigger] mine[i], Role::Missed),
    ensures
        mine.filter(|x: Seen<'a>| key(x, Role::Named) == key(main, Role::Named)) == mine.filter(
            |x: Seen<'a>|
                goes_by(
                    x,
                    super::display_name(text::words(main.part.text@)),
                    status_of(main),
                ),
        ),
{
    let p = |x: Seen<'a>| key(x, Role::Named) == key(main, Role::Named);
    let q = |x: Seen<'a>|
        goes_by(x, super::display_name(text::words(main.part.text@)), status_of(main));
    assert forall|i: int| 0 <= i < mine.len() implies p(#[trigger] mine[i]) == q(mine[i]) by {
        assert(plays(mine[i], Role::Missed));
        if p(mine[i]) {
            lemma_name_key(mine[i], main);
        }
    }
    lemma_same_filter(mine, p, q);
}

/// Each entry of a supported command has the category and the percentage of the first part that
/// its filter missed. It is shown under a name and a status of one of those parts, and no other
/// name and status of one of them is more frequent.
pub proof fn lemma_report_names<'a>(r: DiscoverReport, s: Seq<Seen<'a>>, i: int)
    requires
        sums_up(r, s),
        s.len() <= usize::MAX,
        0 <= i < r.supported@.len(),
    ensures
        ({
            let e = r.supported@[i];
            let mine = s.filter(|x: Seen<'a>| misses(x, e.rtk_equivalent@));
            &&& mine.len() > 0
            &&& mine[0].part.classification matches Classification::Supported {
                category,
                estimated_savings_pct_bits,
                ..
            } && e.category@ == category@ && e.estimated_savings_pct_bits
                == estimated_savings_pct_bits
            &&& exists|m: int|
                0 <= m < mine.len() && goes_by(#[trigger] mine[m], e.command@, e.rtk_status)
            &&& forall|m: int, name: Seq<char>, status: RtkStatus|
                0 <= m < mine.len() && #[trigger] goes_by(mine[m], name, status) ==> mine.filter(
                    |x: Seen<'a>| goes_by(x, e.command@, e.rtk_status),
                ).len() >= mine.filter(|x: Seen<'a>| goes_by(x, name, status)).len()
        }),
{
    let role = Role::Missed;
    let e = r.supported@[i];
    let c = cast(s, role);
    let all = groups(c, role);
    let by = totals(all);
    let g = by_rank(all, by);
    let mine = s.filter(|x: Seen<'a>| misses(x, e.rtk_equivalent@));
    lemma_ranked_groups(s, role, by);
    lemma_cast(s, role);
    lemma_chosen_play(s, role, s.len() as int);
    assert(is_supported_entry(e, c, g[i]));
    let at = g[i].0;
    let k = key(c[at], role);
    let p = |x: Seen<'a>| plays(x, role);
    let q = |x: Seen<'a>| key(x, role) == k;
    assert(plays(c[at], role));
    text::lemma_filter_twice(s, p, q);
    assert((|x: Seen<'a>| p(x) && q(x)) =~= (|x: Seen<'a>| misses(x, e.rtk_equivalent@)));
    assert forall|j: int| 0 <= j < at implies !q(#[trigger] c[j]) by {
        assert(key(c[j], role) != key(c[at], role));
    }
    lemma_first_of_filter(c, q, at);
    lemma_alike_is_filter(c, k, c.len() as int);
    assert(c.take(c.len() as int) =~= c);
    assert(alike(c, k) == mine);
    s.lemma_filter_len(|x: Seen<'a>| misses(x, e.rtk_equivalent@));
    lemma_alike_play(c, k, c.len() as int);
    let main = most_frequent(mine);
    lemma_most_frequent_plays(mine);
    lemma_most_frequent_in(mine);
    let m = choose|m: int| 0 <= m < mine.len() && #[trigger] mine[m] == main;
    assert(goes_by(mine[m], e.command@, e.rtk_status));
    assert forall|m: int, name: Seq<char>, status: RtkStatus|
        0 <= m < mine.len() && #[trigger] goes_by(mine[m], name, status) implies mine.filter(
        |x: Seen<'a>| goes_by(x, e.command@, e.rtk_status),
    ).len() >= mine.filter(|x: Seen<'a>| goes_by(x, name, status)).len() by {
        lemma_most_frequent_name(mine, m);
    }
}

proof fn lemma_most_frequent_in<'a>(s: Seq<Seen<'a>>)
    requires
        0 < s.len() <= usize::MAX,
    ensures
        exists|m: int| 0 <= m < s.len() && #[trigger] s[m] == most_frequent(s),
{
    let g = groups(s, Role::Named);
    lemma_groups(s, Role::Named);
    order::lemma_ranking(counts(g), g.len() as int);
    let top = order::ranking(counts(g), g.len() as int)[0];
    assert(g[top as int].0 < s.len());
    assert(s[g[top as int].0] == most_frequent(s));
}

proof fn lemma_amount_within(k: Seq<Seq<char>>, amounts: Seq<usize>, name: Seq<char>, n: int)
    requires
        0 <= n <= k.len(),
        amounts.len() == k.len(),
    ensures
        grouping::amount(k, amounts, name, n) <= number::sum(amounts, n),
    decreases n,
{
    if n > 0 {
        lemma_amount_within(k, amounts, name, n - 1);
    }
}

proof fn lemma_shares_within<'a>(s: Seq<Seen<'a>>, role: Role, v: Seq<usize>, n: int)
    requires
        0 <= n <= s.len(),
        v.len() == s.len(),
        forall|i: int| 0 <= i < s.len() ==> #[trigger] v[i] == share(s[i], role),
    ensures
        number::total(shares(chosen(s, role, n), role)) <= number::sum(v, n),
    decreases n,
{
    if n > 0 {
        lemma_shares_within(s, role, v, n - 1);
        let before = chosen(s, role, n - 1);
        if plays(s[n - 1], role) {
            assert(shares(before.push(s[n - 1]), role) =~= shares(before, role).push(v[n - 1]));
            number::lemma_total_push(shares(before, role), v[n - 1]);
        }
    } else {
        assert(shares(chosen(s, role, n), role) =~= Seq::<usize>::empty());
    }
}

/// There is a report on every scan whose bytes and savings add up to numbers that fit.
pub proof fn lemma_report_owed<'a>(s: Seq<Seen<'a>>)
    requires
        number::total(s.map_values(|x: Seen<'a>| x.bytes)) <= usize::MAX,
        number::total(s.map_values(|x: Seen<'a>| x.saved)) <= usize::MAX,
    ensures
        sums_fit(s),
{
    let n = s.len() as int;
    lemma_shares_within(s, Role::Consumer, s.map_values(|x: Seen<'a>| x.bytes), n);
    lemma_shares_within(s, Role::Missed, s.map_values(|x: Seen<'a>| x.saved), n);
    lemma_fits(cast(s, Role::Consumer), Role::Consumer);
    lemma_fits(cast(s, Role::Missed), Role::Missed);
}

proof fn lemma_fits(c: Seq<Seen>, role: Role)
    requires
        number::total(shares(c, role)) <= usize::MAX,
    ensures
        shares_fit(c, role),
{
    let k = keys(c, role);
    assert forall|i: int| 0 <= i < k.len() implies grouping::amount(
        k,
        shares(c, role),
        #[trigger] k[i],
        k.len() as int,
    ) <= usize::MAX by {
        lemma_amount_within(k, shares(c, role), k[i], k.len() as int);
    }
}

}
