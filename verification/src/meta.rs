//! What a manifest says for this program, under its own table: the texts as
//! they are tidied when they are read.

use vstd::prelude::*;
use crate::author::push_all;
use crate::credits::RawCredits;
use crate::err::BashManError;
use crate::keyword::{KeyKind, KeyWord};
use crate::list::{insert_text, is_sorted_set, lemma_sorted_set, reversed, sorted_set};
use crate::manifest::{RawSubCmd, Section};
use crate::text::{
    chars_of, from_chars, join, joined, normalize_chars, normalized, str_eq, strings_of,
    to_chars, trim_chars, trimmed,
};

verus! {

/// The upper-case form of a character, which may be several characters.
pub uninterp spec fn upper_case(c: char) -> Seq<char>;

/// `char::to_uppercase` gives the upper-case form of a character, as one or
/// more characters; they are handed on in their order.
#[verifier::external_body]
pub(crate) fn to_upper(c: char) -> (r: Vec<char>)
    ensures
        r@ == upper_case(c),
{
    c.to_uppercase().collect()
}

/// What is said of a text that must not be empty and is.
pub open spec fn empty_value() -> Seq<char> {
    "value cannot be empty"@
}

/// A text that must not be empty, tidied: an error where nothing is left.
pub fn deserialize_nonempty_str_normalized(raw: &str) -> (r: Result<String, BashManError>)
    ensures
        match r {
            Ok(text) => text@ == normalized(raw@) && text@.len() > 0,
            Err(e) => normalized(raw@).len() == 0 && (e matches BashManError::ParseCargoMetadata(
                t,
            ) && t@ == empty_value()),
        },
{
    let out = normalize_chars(&to_chars(raw));
    if out.len() == 0 {
        Err(BashManError::ParseCargoMetadata("value cannot be empty".to_owned()))
    } else {
        Ok(from_chars(&out))
    }
}

/// A text that may be missing, trimmed: nothing where nothing is left.
pub fn deserialize_nonempty_opt_str(raw: &str) -> (r: Option<String>)
    ensures
        match r {
            Some(text) => text@ == trimmed(raw@) && text@.len() > 0,
            None => trimmed(raw@).len() == 0,
        },
{
    let out = trim_chars(&to_chars(raw));
    if out.len() == 0 {
        None
    } else {
        Some(from_chars(&out))
    }
}

/// A text that may be missing, tidied: nothing where nothing is left.
pub fn deserialize_nonempty_opt_str_normalized(raw: &str) -> (r: Option<String>)
    ensures
        match r {
            Some(text) => text@ == normalized(raw@) && text@.len() > 0,
            None => normalized(raw@).len() == 0,
        },
{
    let out = normalize_chars(&to_chars(raw));
    if out.len() == 0 {
        None
    } else {
        Some(from_chars(&out))
    }
}

/// A tidied text in angle brackets: the bracket is added at each end that has
/// none.
pub open spec fn bracketed_label(n: Seq<char>) -> Seq<char> {
    (if n[0] != '<' {
        seq!['<']
    } else {
        Seq::<char>::empty()
    }) + n + (if n.last() != '>' {
        seq!['>']
    } else {
        Seq::<char>::empty()
    })
}

/// The label of a value: the text tidied and put in angle brackets; nothing
/// where nothing is left of the text.
pub fn deserialize_label(raw: &str) -> (r: Option<String>)
    ensures
        match r {
            Some(text) => normalized(raw@).len() > 0 && text@ == bracketed_label(normalized(raw@)),
            None => normalized(raw@).len() == 0,
        },
{
    let n = normalize_chars(&to_chars(raw));
    if n.len() == 0 {
        return None;
    }
    let mut out: Vec<char> = Vec::new();
    if n[0] != '<' {
        out.push('<');
    }
    push_all(&mut out, &n);
    if n[n.len() - 1] != '>' {
        out.push('>');
    }
    assert(out@ =~= bracketed_label(n@));
    Some(from_chars(&out))
}

/// The texts without the empty ones at the start.
pub open spec fn drop_empty_start(lines: Seq<Seq<char>>) -> Seq<Seq<char>>
    decreases lines.len(),
{
    if lines.len() > 0 && lines[0].len() == 0 {
        drop_empty_start(lines.drop_first())
    } else {
        lines
    }
}

/// The texts without the empty ones at the end.
pub open spec fn drop_empty_end(lines: Seq<Seq<char>>) -> Seq<Seq<char>>
    decreases lines.len(),
{
    if lines.len() > 0 && lines.last().len() == 0 {
        drop_empty_end(lines.drop_last())
    } else {
        lines
    }
}

/// The texts, each tidied.
pub open spec fn all_normalized(lines: Seq<String>) -> Seq<Seq<char>> {
    Seq::new(lines.len(), |i: int| normalized(lines[i]@))
}

/// The lines of a section: each line tidied, and the empty lines before the
/// first and after the last line that is not empty left out.
pub open spec fn section_lines(lines: Seq<String>) -> Seq<Seq<char>> {
    drop_empty_end(drop_empty_start(all_normalized(lines)))
}

/// The lines of a section: see `section_lines`.
pub fn deserialize_lines(lines: &Vec<String>) -> (out: Vec<String>)
    ensures
        strings_of(out@) == section_lines(lines@),
{
    let ghost all = all_normalized(lines@);
    let mut tidy: Vec<Vec<char>> = Vec::new();
    let mut i: usize = 0;
    while i < lines.len()
        invariant
            i <= lines@.len(),
            tidy@.len() == i,
            forall|j: int| 0 <= j < i ==> (#[trigger] tidy@[j])@ == normalized(lines@[j]@),
        decreases lines@.len() - i,
    {
        tidy.push(normalize_chars(&to_chars(lines[i].as_str())));
        i += 1;
    }
    assert(chars_of(tidy@) =~= all);
    let n = tidy.len();
    let mut start: usize = 0;
    assert(all.skip(0) =~= all);
    while start < n && tidy[start].len() == 0
        invariant
            start <= n,
            n == tidy@.len(),
            chars_of(tidy@) == all,
            drop_empty_start(all.skip(start as int)) == drop_empty_start(all),
        decreases n - start,
    {
        assert(all.skip(start as int)[0] == tidy@[start as int]@);
        assert(all.skip(start as int).drop_first() =~= all.skip(start + 1));
        start += 1;
    }
    proof {
        if start < n {
            assert(all.skip(start as int)[0] == tidy@[start as int]@);
        }
    }
    let mut end: usize = n;
    assert(all.subrange(start as int, n as int) =~= all.skip(start as int));
    while end > start && tidy[end - 1].len() == 0
        invariant
            start <= end <= n,
            n == tidy@.len(),
            chars_of(tidy@) == all,
            drop_empty_end(all.subrange(start as int, end as int)) == drop_empty_end(
                all.skip(start as int),
            ),
        decreases end,
    {
        assert(all.subrange(start as int, end as int).last() == tidy@[end - 1]@);
        assert(all.subrange(start as int, end as int).drop_last() =~= all.subrange(
            start as int,
            end - 1,
        ));
        end -= 1;
    }
    proof {
        if end > start {
            assert(all.subrange(start as int, end as int).last() == tidy@[end - 1]@);
        }
    }
    let mut out: Vec<String> = Vec::new();
    let mut k: usize = start;
    while k < end
        invariant
            start <= k <= end,
            end <= tidy@.len(),
            out@.len() == k - start,
            forall|j: int| 0 <= j < out@.len() ==> (#[trigger] out@[j])@ == tidy@[start + j]@,
        decreases end - k,
    {
        out.push(from_chars(&tidy[k]));
        k += 1;
    }
    assert(strings_of(out@) =~= all.subrange(start as int, end as int));
    out
}

/// A pair of texts, each tidied.
pub open spec fn item_text(item: [String; 2]) -> (Seq<char>, Seq<char>) {
    (normalized(item@[0]@), normalized(item@[1]@))
}

/// The items of a section: each side of each item tidied, and the items of
/// which nothing is left on either side left out.
pub open spec fn section_items(items: Seq<[String; 2]>) -> Seq<(Seq<char>, Seq<char>)>
    decreases items.len(),
{
    if items.len() == 0 {
        Seq::<(Seq<char>, Seq<char>)>::empty()
    } else {
        let t = item_text(items.last());
        if t.0.len() == 0 && t.1.len() == 0 {
            section_items(items.drop_last())
        } else {
            section_items(items.drop_last()).push(t)
        }
    }
}

/// The texts of a list of pairs.
pub open spec fn pairs_of(items: Seq<[String; 2]>) -> Seq<(Seq<char>, Seq<char>)> {
    Seq::new(items.len(), |i: int| (items[i]@[0]@, items[i]@[1]@))
}

/// The items of a section: see `section_items`.
pub fn deserialize_items(items: &Vec<[String; 2]>) -> (out: Vec<[String; 2]>)
    ensures
        pairs_of(out@) == section_items(items@),
{
    let mut out: Vec<[String; 2]> = Vec::new();
    let mut i: usize = 0;
    assert(items@.take(0) =~= Seq::<[String; 2]>::empty());
    assert(pairs_of(out@) =~= section_items(items@.take(0)));
    while i < items.len()
        invariant
            i <= items@.len(),
            pairs_of(out@) == section_items(items@.take(i as int)),
        decreases items@.len() - i,
    {
        let item = &items[i];
        let ghost before = pairs_of(out@);
        assert(items@.take(i + 1).drop_last() =~= items@.take(i as int));
        assert(items@.take(i + 1).last() == *item);
        let a = normalize_chars(&to_chars(item[0].as_str()));
        let b = normalize_chars(&to_chars(item[1].as_str()));
        if a.len() != 0 || b.len() != 0 {
            let pair = [from_chars(&a), from_chars(&b)];
            out.push(pair);
            assert(pairs_of(out@) =~= before.push((a@, b@)));
        }
        i += 1;
    }
    assert(items@.take(items@.len() as int) =~= items@);
    out
}

/// The text with each character in upper case.
pub open spec fn upper_text(s: Seq<char>) -> Seq<char>
    decreases s.len(),
{
    if s.len() == 0 {
        Seq::<char>::empty()
    } else {
        upper_text(s.drop_last()) + upper_case(s.last())
    }
}

/// Whether a character is an ASCII punctuation mark.
pub open spec fn ascii_punctuation(c: char) -> bool {
    ('!' <= c && c <= '/') || (':' <= c && c <= '@') || ('[' <= c && c <= '`') || ('{' <= c && c
        <= '~')
}

/// The name of a section: the text tidied and put in upper case, with a colon
/// at the end unless it ends with a punctuation mark.
pub open spec fn section_name(s: Seq<char>) -> Seq<char> {
    let u = upper_text(normalized(s));
    if ascii_punctuation(u.last()) {
        u
    } else {
        u.push(':')
    }
}

/// The name of a section: see `section_name`. A name of which nothing is left
/// is an error.
pub fn deserialize_section_name(raw: &str) -> (r: Result<String, BashManError>)
    ensures
        match r {
            Ok(text) => upper_text(normalized(raw@)).len() > 0 && text@ == section_name(raw@),
            Err(e) => upper_text(normalized(raw@)).len() == 0 && (
            e matches BashManError::ParseCargoMetadata(t) && t@ == empty_value()),
        },
{
    let n = normalize_chars(&to_chars(raw));
    let mut out: Vec<char> = Vec::new();
    let mut i: usize = 0;
    assert(n@.take(0) =~= Seq::<char>::empty());
    while i < n.len()
        invariant
            i <= n@.len(),
            out@ == upper_text(n@.take(i as int)),
        decreases n@.len() - i,
    {
        assert(n@.take(i + 1).drop_last() =~= n@.take(i as int));
        assert(n@.take(i + 1).last() == n@[i as int]);
        let up = to_upper(n[i]);
        push_all(&mut out, &up);
        i += 1;
    }
    assert(n@.take(n@.len() as int) =~= n@);
    if out.len() == 0 {
        return Err(BashManError::ParseCargoMetadata("value cannot be empty".to_owned()));
    }
    let c = out[out.len() - 1];
    let mark = ('!' <= c && c <= '/') || (':' <= c && c <= '@') || ('[' <= c && c <= '`') || ('{'
        <= c && c <= '~');
    if !mark {
        out.push(':');
    }
    Ok(from_chars(&out))
}

/// A section as the manifest gives it, its texts tidied.
#[derive(Clone, Debug)]
pub struct RawSection {
    pub name: String,
    pub inside: bool,
    pub lines: Vec<String>,
    pub items: Vec<[String; 2]>,
}

/// What stands between the lines of a section on a manual page.
pub open spec fn line_break() -> Seq<char> {
    "\n.RE\n"@
}

impl Section {
    /// The section of a manual page: the lines are joined, with a break
    /// between each two.
    pub fn from(raw: RawSection) -> (r: Section)
        ensures
            r.name == raw.name,
            r.inside == raw.inside,
            r.lines@ == joined(strings_of(raw.lines@), line_break()),
            r.items == raw.items,
    {
        let lines = join(raw.lines.as_slice(), "\n.RE\n");
        Section { name: raw.name, inside: raw.inside, lines, items: raw.items }
    }
}

/// A switch as the manifest gives it, with the commands it is for.
#[derive(Clone, Debug)]
pub struct RawSwitch {
    pub short: Option<KeyWord>,
    pub long: Option<KeyWord>,
    pub description: String,
    pub duplicate: bool,
    pub subcommands: Vec<String>,
}

/// An option as the manifest gives it, with the commands it is for.
#[derive(Clone, Debug)]
pub struct RawOption {
    pub short: Option<KeyWord>,
    pub long: Option<KeyWord>,
    pub description: String,
    pub label: Option<String>,
    pub path: bool,
    pub duplicate: bool,
    pub subcommands: Vec<String>,
}

/// A trailing argument as the manifest gives it, with the commands it is
/// for.
#[derive(Clone, Debug)]
pub struct RawArg {
    pub label: Option<String>,
    pub description: String,
    pub subcommands: Vec<String>,
}

/// What the manifest says for this program.
#[derive(Clone, Debug)]
pub struct RawBashMan {
    pub nice_name: Option<String>,
    pub dir_bash: Option<String>,
    pub dir_man: Option<String>,
    pub dir_credits: Option<String>,
    pub subcommands: Vec<RawSubCmd>,
    pub flags: Vec<RawSwitch>,
    pub options: Vec<RawOption>,
    pub args: Vec<RawArg>,
    pub sections: Vec<RawSection>,
    pub credits: Vec<RawCredits>,
}

/// The commands that a line is for: the names it gives, in order, each once;
/// the main command, whose name is empty, where it gives none.
pub open spec fn line_names(subs: Seq<String>) -> Seq<Seq<char>> {
    if subs.len() == 0 {
        seq![Seq::<char>::empty()]
    } else {
        sorted_set(strings_of(subs))
    }
}

/// The commands that a line is for: see `line_names`.
pub fn name_set(subs: &Vec<String>) -> (out: Vec<String>)
    ensures
        strings_of(out@) == line_names(subs@),
{
    let mut out: Vec<String> = Vec::new();
    if subs.len() == 0 {
        out.push(String::new());
        assert(strings_of(out@) =~= seq![Seq::<char>::empty()]);
        return out;
    }
    let ghost all = strings_of(subs@);
    let mut list: Vec<Vec<char>> = Vec::new();
    let mut i: usize = 0;
    assert(all.take(0) =~= Seq::<Seq<char>>::empty());
    while i < subs.len()
        invariant
            i <= subs@.len(),
            all == strings_of(subs@),
            is_sorted_set(chars_of(list@), all.take(i as int)),
        decreases subs@.len() - i,
    {
        let ghost before = chars_of(list@);
        let ghost done = all.take(i as int);
        let item = to_chars(subs[i].as_str());
        let ghost it = item@;
        insert_text(&mut list, item);
        proof {
            let now = all.take(i + 1);
            assert(now =~= done.push(it));
            assert forall|x: Seq<char>| chars_of(list@).contains(x) <==> now.contains(x) by {
                if now.contains(x) {
                    let k = choose|k: int| 0 <= k < now.len() && now[k] == x;
                    if k < done.len() {
                        assert(done[k] == x);
                        assert(done.contains(x));
                    }
                }
                if done.contains(x) {
                    let k = choose|k: int| 0 <= k < done.len() && done[k] == x;
                    assert(now[k] == x);
                }
                if x == it {
                    assert(now[done.len() as int] == x);
                }
            }
        }
        i += 1;
    }
    assert(all.take(all.len() as int) =~= all);
    let mut k: usize = 0;
    while k < list.len()
        invariant
            k <= list@.len(),
            out@.len() == k,
            forall|j: int| 0 <= j < k ==> (#[trigger] out@[j])@ == list@[j]@,
        decreases list@.len() - k,
    {
        out.push(from_chars(&list[k]));
        k += 1;
    }
    assert(strings_of(out@) =~= chars_of(list@));
    proof {
        lemma_sorted_set(strings_of(out@), all);
    }
    out
}

/// A key as a value to reason with: what it is, and its text.
pub struct KeyView {
    pub kind: KeyKind,
    pub text: Seq<char>,
}

/// The value of an optional keyword.
pub open spec fn key_view(k: Option<KeyWord>) -> Option<KeyView> {
    match k {
        Some(w) => Some(KeyView { kind: w.kind(), text: w.text() }),
        None => None,
    }
}

/// What a line asks of a command: to be there, or to take a key.
pub struct ClaimView {
    pub name: Seq<char>,
    pub key: Option<KeyView>,
}

/// What goes wrong with a claim.
pub enum Fault {
    /// The keyword is taken already.
    Duplicate(KeyView),
    /// There is no such command.
    Unknown(Seq<char>),
    /// The command has a trailing argument already.
    Twice(Seq<char>),
}

/// What a line asks of one command: that it be there, and that it take the
/// short key and the long key of the line.
pub open spec fn name_claims(short: Option<KeyView>, long: Option<KeyView>, name: Seq<char>) -> Seq<
    ClaimView,
> {
    seq![ClaimView { name, key: None }] + (match short {
        Some(k) => seq![ClaimView { name, key: Some(k) }],
        None => Seq::<ClaimView>::empty(),
    }) + (match long {
        Some(k) => seq![ClaimView { name, key: Some(k) }],
        None => Seq::<ClaimView>::empty(),
    })
}

/// What a line asks of its commands, command after command.
pub open spec fn line_claims(
    short: Option<KeyView>,
    long: Option<KeyView>,
    names: Seq<Seq<char>>,
) -> Seq<ClaimView>
    decreases names.len(),
{
    if names.len() == 0 {
        Seq::<ClaimView>::empty()
    } else {
        line_claims(short, long, names.drop_last()) + name_claims(short, long, names.last())
    }
}

/// What the switches ask, switch after switch; a switch without a key asks
/// nothing.
pub open spec fn switch_claims(flags: Seq<RawSwitch>) -> Seq<ClaimView>
    decreases flags.len(),
{
    if flags.len() == 0 {
        Seq::<ClaimView>::empty()
    } else {
        let f = flags.last();
        switch_claims(flags.drop_last()) + (if f.short is Some || f.long is Some {
            line_claims(key_view(f.short), key_view(f.long), line_names(f.subcommands@))
        } else {
            Seq::<ClaimView>::empty()
        })
    }
}

/// What the options ask, option after option; an option without a key asks
/// nothing.
pub open spec fn option_claims(options: Seq<RawOption>) -> Seq<ClaimView>
    decreases options.len(),
{
    if options.len() == 0 {
        Seq::<ClaimView>::empty()
    } else {
        let f = options.last();
        option_claims(options.drop_last()) + (if f.short is Some || f.long is Some {
            line_claims(key_view(f.short), key_view(f.long), line_names(f.subcommands@))
        } else {
            Seq::<ClaimView>::empty()
        })
    }
}

/// The names of the commands: the empty name of the main command, and the
/// names of the subcommands.
pub open spec fn known_names(subs: Seq<RawSubCmd>) -> Seq<Seq<char>> {
    seq![Seq::<char>::empty()] + Seq::new(subs.len(), |i: int| subs[i].cmd.text())
}

/// What goes wrong with the subcommand at `i`: its name is taken, by the main
/// command or by a subcommand before it.
pub open spec fn sub_fault(subs: Seq<RawSubCmd>, i: int) -> Option<Fault> {
    if known_names(subs.take(i)).contains(subs[i].cmd.text()) {
        Some(Fault::Duplicate(KeyView { kind: subs[i].cmd.kind(), text: subs[i].cmd.text() }))
    } else {
        None
    }
}

/// What goes wrong with the claim at `i`: the command is not there, or has the
/// key already from a claim before.
pub open spec fn claim_fault(claims: Seq<ClaimView>, known: Seq<Seq<char>>, i: int) -> Option<
    Fault,
> {
    match claims[i].key {
        None => if known.contains(claims[i].name) {
            None
        } else {
            Some(Fault::Unknown(claims[i].name))
        },
        Some(k) => if exists|j: int| 0 <= j < i && #[trigger] claims[j] == claims[i] {
            Some(Fault::Duplicate(k))
        } else {
            None
        },
    }
}

/// The first thing that goes wrong among the first `upto` subcommands.
pub open spec fn first_sub_fault(subs: Seq<RawSubCmd>, upto: int) -> Option<Fault>
    decreases upto,
{
    if upto <= 0 {
        None
    } else {
        match first_sub_fault(subs, upto - 1) {
            Some(f) => Some(f),
            None => sub_fault(subs, upto - 1),
        }
    }
}

/// The first thing that goes wrong among the first `upto` claims.
pub open spec fn first_claim_fault(claims: Seq<ClaimView>, known: Seq<Seq<char>>, upto: int) -> Option<
    Fault,
>
    decreases upto,
{
    if upto <= 0 {
        None
    } else {
        match first_claim_fault(claims, known, upto - 1) {
            Some(f) => Some(f),
            None => claim_fault(claims, known, upto - 1),
        }
    }
}

/// A fault that is found stays the first as more is looked at.
pub proof fn lemma_sub_fault_stays(subs: Seq<RawSubCmd>, i: int, n: int)
    requires
        0 <= i <= n,
        first_sub_fault(subs, i) is Some,
    ensures
        first_sub_fault(subs, n) == first_sub_fault(subs, i),
    decreases n - i,
{
    if i < n {
        lemma_sub_fault_stays(subs, i, n - 1);
    }
}

/// A fault that is found stays the first as more is looked at.
pub proof fn lemma_claim_fault_stays(claims: Seq<ClaimView>, known: Seq<Seq<char>>, i: int, n: int)
    requires
        0 <= i <= n,
        first_claim_fault(claims, known, i) is Some,
    ensures
        first_claim_fault(claims, known, n) == first_claim_fault(claims, known, i),
    decreases n - i,
{
    if i < n {
        lemma_claim_fault_stays(claims, known, i, n - 1);
    }
}

/// The claims of the switches and then of the options.
pub open spec fn all_claims(raw: RawBashMan) -> Seq<ClaimView> {
    switch_claims(raw.flags@) + option_claims(raw.options@)
}

/// The first thing that is wrong with what the manifest says: a subcommand
/// whose name is taken; else a switch or an option for a command that is not
/// there, or with a key that its command has already.
pub open spec fn bashman_fault(raw: RawBashMan) -> Option<Fault> {
    match first_sub_fault(raw.subcommands@, raw.subcommands@.len() as int) {
        Some(f) => Some(f),
        None => first_claim_fault(
            all_claims(raw),
            known_names(raw.subcommands@),
            all_claims(raw).len() as int,
        ),
    }
}

/// The error says what the fault is.
pub open spec fn tells(e: BashManError, f: Fault) -> bool {
    match f {
        Fault::Duplicate(k) => e matches BashManError::DuplicateKeyWord(w) && w.kind() == k.kind
            && w.text() == k.text,
        Fault::Unknown(n) => e matches BashManError::UnknownCommand(t) && t@ == n,
        Fault::Twice(n) => e matches BashManError::MultipleArgs(t) && t@ == n,
    }
}

/// A claim as it is held while the claims are gone through.
pub struct Claim {
    pub name: String,
    pub key: Option<KeyWord>,
}

impl View for Claim {
    type V = ClaimView;

    open spec fn view(&self) -> ClaimView {
        ClaimView { name: self.name@, key: key_view(self.key) }
    }
}

/// The values of a list of claims.
pub open spec fn claim_views(claims: Seq<Claim>) -> Seq<ClaimView> {
    Seq::new(claims.len(), |i: int| claims[i]@)
}

/// Adds what a line asks of its commands.
fn push_line_claims(
    out: &mut Vec<Claim>,
    short: &Option<KeyWord>,
    long: &Option<KeyWord>,
    names: &Vec<String>,
)
    ensures
        claim_views(final(out)@) == claim_views(old(out)@) + line_claims(
            key_view(*short),
            key_view(*long),
            strings_of(names@),
        ),
{
    let ghost before = claim_views(out@);
    let ghost all = strings_of(names@);
    let ghost s = key_view(*short);
    let ghost l = key_view(*long);
    let mut i: usize = 0;
    assert(all.take(0) =~= Seq::<Seq<char>>::empty());
    assert(claim_views(out@) =~= before + line_claims(s, l, all.take(0)));
    while i < names.len()
        invariant
            i <= names@.len(),
            all == strings_of(names@),
            s == key_view(*short),
            l == key_view(*long),
            claim_views(out@) == before + line_claims(s, l, all.take(i as int)),
        decreases names@.len() - i,
    {
        let ghost text = claim_views(out@);
        assert(all.take(i + 1).drop_last() =~= all.take(i as int));
        assert(all.take(i + 1).last() == names@[i as int]@);
        out.push(Claim { name: names[i].clone(), key: None });
        let ghost t1 = claim_views(out@);
        assert(t1 =~= text + seq![ClaimView { name: names@[i as int]@, key: None }]);
        match short {
            Some(k) => {
                out.push(Claim { name: names[i].clone(), key: Some(k.copy()) });
            },
            None => {},
        }
        let ghost t2 = claim_views(out@);
        assert(t2 =~= t1 + (match s {
            Some(k) => seq![ClaimView { name: names@[i as int]@, key: Some(k) }],
            None => Seq::<ClaimView>::empty(),
        }));
        match long {
            Some(k) => {
                out.push(Claim { name: names[i].clone(), key: Some(k.copy()) });
            },
            None => {},
        }
        assert(claim_views(out@) =~= t2 + (match l {
            Some(k) => seq![ClaimView { name: names@[i as int]@, key: Some(k) }],
            None => Seq::<ClaimView>::empty(),
        }));
        assert(claim_views(out@) =~= text + name_claims(s, l, names@[i as int]@));
        assert(claim_views(out@) =~= before + line_claims(s, l, all.take(i + 1)));
        i += 1;
    }
    assert(all.take(all.len() as int) =~= all);
}

/// Whether the two claims are the same: for the same command, with the same
/// key or both with none.
fn same_claim(a: &Claim, b: &Claim) -> (r: bool)
    ensures
        r == (a@ == b@),
{
    if !str_eq(a.name.as_str(), b.name.as_str()) {
        return false;
    }
    match (&a.key, &b.key) {
        (Some(x), Some(y)) => x.same(y),
        (None, None) => true,
        _ => false,
    }
}

/// Whether the list holds the text.
pub fn holds_text(list: &Vec<String>, text: &str) -> (r: bool)
    ensures
        r == strings_of(list@).contains(text@),
{
    let mut i: usize = 0;
    while i < list.len()
        invariant
            i <= list@.len(),
            forall|j: int| 0 <= j < i ==> (#[trigger] list@[j])@ != text@,
        decreases list@.len() - i,
    {
        if str_eq(list[i].as_str(), text) {
            assert(strings_of(list@)[i as int] == text@);
            return true;
        }
        i += 1;
    }
    proof {
        if strings_of(list@).contains(text@) {
            let k = choose|k: int| 0 <= k < list@.len() && strings_of(list@)[k] == text@;
            assert(list@[k]@ == text@);
        }
    }
    false
}

/// Goes through the subcommands: the names of the commands where no name is
/// taken twice, else the first fault.
pub fn check_names(subs: &Vec<RawSubCmd>) -> (r: Result<Vec<String>, BashManError>)
    ensures
        match r {
            Ok(names) => first_sub_fault(subs@, subs@.len() as int) is None && strings_of(names@)
                == known_names(subs@),
            Err(e) => first_sub_fault(subs@, subs@.len() as int) matches Some(f) && tells(e, f),
        },
{
    let mut names: Vec<String> = Vec::new();
    names.push(String::new());
    assert(subs@.take(0) =~= Seq::<RawSubCmd>::empty());
    assert(strings_of(names@) =~= known_names(subs@.take(0)));
    let mut i: usize = 0;
    while i < subs.len()
        invariant
            i <= subs@.len(),
            strings_of(names@) == known_names(subs@.take(i as int)),
            first_sub_fault(subs@, i as int) is None,
        decreases subs@.len() - i,
    {
        let cmd = &subs[i].cmd;
        let ghost before = strings_of(names@);
        if holds_text(&names, cmd.as_str()) {
            proof {
                assert(subs@[i as int].cmd == *cmd);
                assert(sub_fault(subs@, i as int) is Some);
                assert(first_sub_fault(subs@, i + 1) == sub_fault(subs@, i as int));
                lemma_sub_fault_stays(subs@, i + 1, subs@.len() as int);
            }
            return Err(BashManError::DuplicateKeyWord(cmd.copy()));
        }
        proof {
            assert(subs@[i as int].cmd == *cmd);
            assert(sub_fault(subs@, i as int) is None);
        }
        names.push(cmd.as_str().to_owned());
        proof {
            assert(strings_of(names@) =~= before.push(cmd.text()));
            assert(known_names(subs@.take(i + 1)) =~= known_names(subs@.take(i as int)).push(
                cmd.text(),
            )) by {
                let a = known_names(subs@.take(i + 1));
                let b = known_names(subs@.take(i as int)).push(cmd.text());
                assert(a.len() == b.len());
                assert forall|k: int| 0 <= k < a.len() implies a[k] == b[k] by {
                    if 0 < k && k <= i {
                        assert(subs@.take(i + 1)[k - 1] == subs@.take(i as int)[k - 1]);
                    }
                }
            }
        }
        i += 1;
    }
    assert(subs@.take(subs@.len() as int) =~= subs@);
    Ok(names)
}

/// Goes through the claims: the first fault, if there is one.
pub fn check_claims(claims: &Vec<Claim>, known: &Vec<String>) -> (r: Result<(), BashManError>)
    ensures
        match r {
            Ok(()) => first_claim_fault(
                claim_views(claims@),
                strings_of(known@),
                claims@.len() as int,
            ) is None,
            Err(e) => first_claim_fault(
                claim_views(claims@),
                strings_of(known@),
                claims@.len() as int,
            ) matches Some(f) && tells(e, f),
        },
{
    let ghost views = claim_views(claims@);
    let ghost names = strings_of(known@);
    let mut i: usize = 0;
    while i < claims.len()
        invariant
            i <= claims@.len(),
            views == claim_views(claims@),
            names == strings_of(known@),
            first_claim_fault(views, names, i as int) is None,
        decreases claims@.len() - i,
    {
        let c = &claims[i];
        assert(views[i as int] == c@);
        match &c.key {
            None => {
                if !holds_text(known, c.name.as_str()) {
                    proof {
                        assert(claim_fault(views, names, i as int) == Some(
                            Fault::Unknown(c.name@),
                        ));
                        assert(first_claim_fault(views, names, i + 1) == claim_fault(
                            views,
                            names,
                            i as int,
                        ));
                        lemma_claim_fault_stays(views, names, i + 1, claims@.len() as int);
                    }
                    return Err(BashManError::UnknownCommand(c.name.clone()));
                }
                proof {
                    assert(claim_fault(views, names, i as int) is None);
                }
            },
            Some(k) => {
                let mut j: usize = 0;
                while j < i
                    invariant
                        j <= i,
                        i < claims@.len(),
                        views == claim_views(claims@),
                        names == strings_of(known@),
                        first_claim_fault(views, names, i as int) is None,
                        views[i as int] == c@,
                        c.key == Some(*k),
                        forall|m: int| 0 <= m < j ==> #[trigger] views[m] != views[i as int],
                    decreases i - j,
                {
                    assert(views[j as int] == claims@[j as int]@);
                    assert(views[i as int] == claims@[i as int]@);
                    if same_claim(&claims[j], &claims[i]) {
                        proof {
                            assert(views[j as int] == views[i as int]);
                            assert(claim_fault(views, names, i as int) == Some(
                                Fault::Duplicate(key_view(c.key)->0),
                            ));
                            assert(first_claim_fault(views, names, i + 1) == claim_fault(
                                views,
                                names,
                                i as int,
                            ));
                            lemma_claim_fault_stays(views, names, i + 1, claims@.len() as int);
                        }
                        return Err(BashManError::DuplicateKeyWord(k.copy()));
                    }
                    j += 1;
                }
                proof {
                    assert(claim_fault(views, names, i as int) is None);
                }
            },
        }
        i += 1;
    }
    Ok(())
}

/// The switches that have a key.
pub open spec fn keyed_switches(flags: Seq<RawSwitch>) -> Seq<RawSwitch>
    decreases flags.len(),
{
    if flags.len() == 0 {
        Seq::<RawSwitch>::empty()
    } else if flags.last().short is Some || flags.last().long is Some {
        keyed_switches(flags.drop_last()).push(flags.last())
    } else {
        keyed_switches(flags.drop_last())
    }
}

/// The options that have a key.
pub open spec fn keyed_options(options: Seq<RawOption>) -> Seq<RawOption>
    decreases options.len(),
{
    if options.len() == 0 {
        Seq::<RawOption>::empty()
    } else if options.last().short is Some || options.last().long is Some {
        keyed_options(options.drop_last()).push(options.last())
    } else {
        keyed_options(options.drop_last())
    }
}

/// The sections that have lines or items.
pub open spec fn full_sections(sections: Seq<RawSection>) -> Seq<RawSection>
    decreases sections.len(),
{
    if sections.len() == 0 {
        Seq::<RawSection>::empty()
    } else if sections.last().lines@.len() > 0 || sections.last().items@.len() > 0 {
        full_sections(sections.drop_last()).push(sections.last())
    } else {
        full_sections(sections.drop_last())
    }
}

/// The switch `a` is the switch `b` with the commands it is for in order.
pub open spec fn switch_ready(a: RawSwitch, b: RawSwitch) -> bool {
    &&& a.short == b.short
    &&& a.long == b.long
    &&& a.description == b.description
    &&& a.duplicate == b.duplicate
    &&& strings_of(a.subcommands@) == line_names(b.subcommands@)
}

/// The option `a` is the option `b` with the commands it is for in order.
pub open spec fn option_ready(a: RawOption, b: RawOption) -> bool {
    &&& a.short == b.short
    &&& a.long == b.long
    &&& a.description == b.description
    &&& a.label == b.label
    &&& a.path == b.path
    &&& a.duplicate == b.duplicate
    &&& strings_of(a.subcommands@) == line_names(b.subcommands@)
}

/// The argument `a` is the argument `b` with the commands it is for in
/// order.
pub open spec fn arg_ready(a: RawArg, b: RawArg) -> bool {
    &&& a.label == b.label
    &&& a.description == b.description
    &&& strings_of(a.subcommands@) == line_names(b.subcommands@)
}

/// `out` holds the switches of `raw` that have a key, each made ready.
pub open spec fn switches_ready(out: Seq<RawSwitch>, raw: Seq<RawSwitch>) -> bool {
    &&& out.len() == keyed_switches(raw).len()
    &&& forall|i: int| 0 <= i < out.len() ==> switch_ready(#[trigger] out[i], keyed_switches(raw)[i])
}

/// `out` holds the options of `raw` that have a key, each made ready.
pub open spec fn options_ready(out: Seq<RawOption>, raw: Seq<RawOption>) -> bool {
    &&& out.len() == keyed_options(raw).len()
    &&& forall|i: int| 0 <= i < out.len() ==> option_ready(#[trigger] out[i], keyed_options(raw)[i])
}

/// `out` holds the arguments of `raw`, each made ready.
pub open spec fn args_ready(out: Seq<RawArg>, raw: Seq<RawArg>) -> bool {
    &&& out.len() == raw.len()
    &&& forall|i: int| 0 <= i < out.len() ==> arg_ready(#[trigger] out[i], raw[i])
}

/// `out` is what the manifest says, made ready: without the switches and
/// options that have no key and the sections that have neither lines nor
/// items, and with the commands that each line is for in order.
pub open spec fn ready(out: RawBashMan, raw: RawBashMan) -> bool {
    &&& out.nice_name == raw.nice_name
    &&& out.dir_bash == raw.dir_bash
    &&& out.dir_man == raw.dir_man
    &&& out.dir_credits == raw.dir_credits
    &&& out.subcommands == raw.subcommands
    &&& switches_ready(out.flags@, raw.flags@)
    &&& options_ready(out.options@, raw.options@)
    &&& args_ready(out.args@, raw.args@)
    &&& out.sections@ == full_sections(raw.sections@)
    &&& out.credits == raw.credits
}

/// Makes the switches ready, and gathers what they ask.
fn ready_switches(flags: Vec<RawSwitch>, claims: &mut Vec<Claim>) -> (out: Vec<RawSwitch>)
    ensures
        switches_ready(out@, flags@),
        claim_views(final(claims)@) == claim_views(old(claims)@) + switch_claims(flags@),
{
    let ghost all = flags@;
    let ghost before = claim_views(claims@);
    let n = flags.len();
    let mut rest = reversed(flags);
    let mut out: Vec<RawSwitch> = Vec::new();
    let mut i: usize = 0;
    assert(all.take(0) =~= Seq::<RawSwitch>::empty());
    assert(claim_views(claims@) =~= before + switch_claims(all.take(0)));
    while rest.len() > 0
        invariant
            all.len() == n,
            i + rest@.len() == n,
            forall|j: int| 0 <= j < rest@.len() ==> #[trigger] rest@[j] == all[n - 1 - j],
            switches_ready(out@, all.take(i as int)),
            claim_views(claims@) == before + switch_claims(all.take(i as int)),
        decreases rest@.len(),
    {
        let f = rest.pop().unwrap();
        assert(f == all[i as int]);
        let ghost done = all.take(i as int);
        let ghost now = all.take(i + 1);
        let ghost old_out = out@;
        assert(now.drop_last() =~= done);
        assert(now.last() == f);
        let keyed = match (&f.short, &f.long) {
            (None, None) => false,
            _ => true,
        };
        if keyed {
            let names = name_set(&f.subcommands);
            push_line_claims(claims, &f.short, &f.long, &names);
            let g = RawSwitch {
                short: f.short,
                long: f.long,
                description: f.description,
                duplicate: f.duplicate,
                subcommands: names,
            };
            out.push(g);
            proof {
                assert(switch_ready(g, f));
                assert(keyed_switches(now) == keyed_switches(done).push(f));
                assert forall|k: int| 0 <= k < out@.len() implies switch_ready(
                    #[trigger] out@[k],
                    keyed_switches(now)[k],
                ) by {
                    if k < old_out.len() {
                        assert(out@[k] == old_out[k]);
                    }
                }
                assert(claim_views(claims@) =~= before + switch_claims(now));
            }
        } else {
            assert(claim_views(claims@) =~= before + switch_claims(now));
        }
        i += 1;
    }
    assert(all.take(all.len() as int) =~= all);
    out
}

/// Makes the options ready, and gathers what they ask.
fn ready_options(options: Vec<RawOption>, claims: &mut Vec<Claim>) -> (out: Vec<RawOption>)
    ensures
        options_ready(out@, options@),
        claim_views(final(claims)@) == claim_views(old(claims)@) + option_claims(options@),
{
    let ghost all = options@;
    let ghost before = claim_views(claims@);
    let n = options.len();
    let mut rest = reversed(options);
    let mut out: Vec<RawOption> = Vec::new();
    let mut i: usize = 0;
    assert(all.take(0) =~= Seq::<RawOption>::empty());
    assert(claim_views(claims@) =~= before + option_claims(all.take(0)));
    while rest.len() > 0
        invariant
            all.len() == n,
            i + rest@.len() == n,
            forall|j: int| 0 <= j < rest@.len() ==> #[trigger] rest@[j] == all[n - 1 - j],
            options_ready(out@, all.take(i as int)),
            claim_views(claims@) == before + option_claims(all.take(i as int)),
        decreases rest@.len(),
    {
        let f = rest.pop().unwrap();
        assert(f == all[i as int]);
        let ghost done = all.take(i as int);
        let ghost now = all.take(i + 1);
        let ghost old_out = out@;
        assert(now.drop_last() =~= done);
        assert(now.last() == f);
        let keyed = match (&f.short, &f.long) {
            (None, None) => false,
            _ => true,
        };
        if keyed {
            let names = name_set(&f.subcommands);
            push_line_claims(claims, &f.short, &f.long, &names);
            let g = RawOption {
                short: f.short,
                long: f.long,
                description: f.description,
                label: f.label,
                path: f.path,
                duplicate: f.duplicate,
                subcommands: names,
            };
            out.push(g);
            proof {
                assert(option_ready(g, f));
                assert(keyed_options(now) == keyed_options(done).push(f));
                assert forall|k: int| 0 <= k < out@.len() implies option_ready(
                    #[trigger] out@[k],
                    keyed_options(now)[k],
                ) by {
                    if k < old_out.len() {
                        assert(out@[k] == old_out[k]);
                    }
                }
                assert(claim_views(claims@) =~= before + option_claims(now));
            }
        } else {
            assert(claim_views(claims@) =~= before + option_claims(now));
        }
        i += 1;
    }
    assert(all.take(all.len() as int) =~= all);
    out
}

/// Makes the arguments ready.
fn ready_args(args: Vec<RawArg>) -> (out: Vec<RawArg>)
    ensures
        args_ready(out@, args@),
{
    let ghost all = args@;
    let n = args.len();
    let mut rest = reversed(args);
    let mut out: Vec<RawArg> = Vec::new();
    let mut i: usize = 0;
    while rest.len() > 0
        invariant
            all.len() == n,
            i + rest@.len() == n,
            forall|j: int| 0 <= j < rest@.len() ==> #[trigger] rest@[j] == all[n - 1 - j],
            out@.len() == i,
            forall|k: int| 0 <= k < i ==> arg_ready(#[trigger] out@[k], all[k]),
        decreases rest@.len(),
    {
        let a = rest.pop().unwrap();
        assert(a == all[i as int]);
        let names = name_set(&a.subcommands);
        out.push(RawArg { label: a.label, description: a.description, subcommands: names });
        i += 1;
    }
    out
}

/// Leaves out the sections that have neither lines nor items.
fn ready_sections(sections: Vec<RawSection>) -> (out: Vec<RawSection>)
    ensures
        out@ == full_sections(sections@),
{
    let ghost all = sections@;
    let n = sections.len();
    let mut rest = reversed(sections);
    let mut out: Vec<RawSection> = Vec::new();
    let mut i: usize = 0;
    assert(all.take(0) =~= Seq::<RawSection>::empty());
    while rest.len() > 0
        invariant
            all.len() == n,
            i + rest@.len() == n,
            forall|j: int| 0 <= j < rest@.len() ==> #[trigger] rest@[j] == all[n - 1 - j],
            out@ == full_sections(all.take(i as int)),
        decreases rest@.len(),
    {
        let s = rest.pop().unwrap();
        assert(s == all[i as int]);
        assert(all.take(i + 1).drop_last() =~= all.take(i as int));
        assert(all.take(i + 1).last() == s);
        if s.lines.len() > 0 || s.items.len() > 0 {
            out.push(s);
        }
        i += 1;
    }
    assert(all.take(all.len() as int) =~= all);
    out
}

/// Makes what the manifest says ready, and holds it to its rules. Switches
/// and options without a key and sections without text are left out; a line
/// that names no command is for the main command. No two commands may have
/// one name, a switch or an option may only be for commands that are there,
/// and no command may get one keyword twice: the first such fault is the
/// error.
pub fn deserialize_bashman(raw: RawBashMan) -> (r: Result<RawBashMan, BashManError>)
    ensures
        match r {
            Ok(out) => bashman_fault(raw) is None && ready(out, raw),
            Err(e) => bashman_fault(raw) matches Some(f) && tells(e, f),
        },
{
    let RawBashMan {
        nice_name,
        dir_bash,
        dir_man,
        dir_credits,
        subcommands,
        flags,
        options,
        args,
        sections,
        credits,
    } = raw;
    let mut claims: Vec<Claim> = Vec::new();
    assert(claim_views(claims@) =~= Seq::<ClaimView>::empty());
    let flags = ready_switches(flags, &mut claims);
    let options = ready_options(options, &mut claims);
    assert(claim_views(claims@) =~= all_claims(raw));
    let args = ready_args(args);
    let sections = ready_sections(sections);
    let known = match check_names(&subcommands) {
        Ok(k) => k,
        Err(e) => {
            return Err(e);
        },
    };
    match check_claims(&claims, &known) {
        Ok(()) => {},
        Err(e) => {
            return Err(e);
        },
    }
    Ok(
        RawBashMan {
            nice_name,
            dir_bash,
            dir_man,
            dir_credits,
            subcommands,
            flags,
            options,
            args,
            sections,
            credits,
        },
    )
}

} // verus!
