//! What a manifest says of a program: its (sub)commands with their flags,
//! options, trailing argument and extra sections.

use vstd::prelude::*;
use vstd::std_specs::cmp::PartialEqSpecImpl;
use vstd::string::StringExecFns;
use crate::err::BashManError;
use crate::keyword::KeyWord;
use crate::list::{insert_text, is_sorted_set, lemma_sorted_set, sorted_set};
use crate::order::{
    char_lt, keyed_less, lemma_keyed_asymmetric, lemma_keyed_total, lemma_keyed_transitive,
    lemma_text_total, text_compare, Order,
};
use crate::text::{chars_of, from_chars, lower_chars, lowered, str_eq, strings_of, to_chars};

verus! {

/// A switch: a short key, a long key, or both.
#[derive(Clone, Debug)]
pub struct Flag {
    pub short: Option<KeyWord>,
    pub long: Option<KeyWord>,
    pub description: String,
    pub duplicate: bool,
}

/// An option: a switch that takes a value.
#[derive(Clone, Debug)]
pub struct OptionFlag {
    pub flag: Flag,
    pub label: String,
    pub path: bool,
}

/// The trailing argument of a command.
#[derive(Clone, Debug)]
pub struct TrailingArg {
    pub label: String,
    pub description: String,
}

/// An extra section of the manual.
#[derive(Clone, Debug)]
pub struct Section {
    pub name: String,
    pub inside: bool,
    pub lines: String,
    pub items: Vec<[String; 2]>,
}

/// The flags, options, trailing argument and sections of a command.
#[derive(Debug)]
pub struct ManifestData {
    pub flags: Vec<Flag>,
    pub options: Vec<OptionFlag>,
    pub args: Option<TrailingArg>,
    pub sections: Vec<Section>,
}

/// A command or subcommand.
#[derive(Debug)]
pub struct Subcommand {
    pub nice_name: Option<String>,
    pub name: KeyWord,
    pub description: String,
    pub version: String,
    /// The nice name and the command of the parent, for a subcommand.
    pub parent: Option<(String, KeyWord)>,
    pub data: ManifestData,
}

/// A subcommand as the manifest gives it.
#[derive(Clone, Debug)]
pub struct RawSubCmd {
    pub name: Option<String>,
    pub cmd: KeyWord,
    pub description: String,
}

/// The text of an optional keyword.
pub open spec fn key_text(k: Option<KeyWord>) -> Option<Seq<char>> {
    match k {
        Some(w) => Some(w.text()),
        None => None,
    }
}

/// The text without its leading dashes.
pub open spec fn undashed(s: Seq<char>) -> Seq<char>
    decreases s.len(),
{
    if s.len() > 0 && s[0] == '-' {
        undashed(s.drop_first())
    } else {
        s
    }
}

/// The text of an optional string slice.
pub open spec fn opt_str(o: Option<&str>) -> Option<Seq<char>> {
    match o {
        Some(s) => Some(s@),
        None => None,
    }
}

impl ManifestData {
    /// Nothing at all.
    pub fn new() -> (r: Self)
        ensures
            r.flags@.len() == 0,
            r.options@.len() == 0,
            r.args is None,
            r.sections@.len() == 0,
    {
        ManifestData { flags: Vec::new(), options: Vec::new(), args: None, sections: Vec::new() }
    }

    /// The trailing argument.
    pub fn args(&self) -> (r: Option<&TrailingArg>)
        ensures
            match r {
                Some(a) => self.args == Some(*a),
                None => self.args is None,
            },
    {
        match &self.args {
            Some(a) => Some(a),
            None => None,
        }
    }

    /// The flags.
    pub fn flags(&self) -> (r: &Vec<Flag>)
        ensures
            *r == self.flags,
    {
        &self.flags
    }

    /// The options.
    pub fn options(&self) -> (r: &Vec<OptionFlag>)
        ensures
            *r == self.options,
    {
        &self.options
    }

    /// The sections.
    pub fn sections(&self) -> (r: &[Section])
        ensures
            r@ == self.sections@,
    {
        self.sections.as_slice()
    }
}

impl Subcommand {
    /// The command.
    pub fn bin(&self) -> (r: &str)
        ensures
            r@ == self.name.text(),
    {
        self.name.as_str()
    }

    /// The flags, options, argument and sections.
    pub fn data(&self) -> (r: &ManifestData)
        ensures
            *r == self.data,
    {
        &self.data
    }

    /// The description.
    pub fn description(&self) -> (r: &str)
        ensures
            r@ == self.description@,
    {
        self.description.as_str()
    }

    /// Whether this is the main command: it has no parent.
    pub fn is_main(&self) -> (r: bool)
        ensures
            r == (self.parent is None),
    {
        match &self.parent {
            Some(_) => false,
            None => true,
        }
    }

    /// The nice name; the command where there is none.
    pub fn nice_name(&self) -> (r: &str)
        ensures
            r@ == (match self.nice_name {
                Some(n) => n@,
                None => self.name.text(),
            }),
    {
        match &self.nice_name {
            Some(n) => n.as_str(),
            None => self.name.as_str(),
        }
    }

    /// The command of the parent.
    pub fn parent_bin(&self) -> (r: Option<&str>)
        ensures
            opt_str(r) == (match self.parent {
                Some(p) => Some(p.1.text()),
                None => None,
            }),
    {
        match &self.parent {
            Some(p) => Some(p.1.as_str()),
            None => None,
        }
    }

    /// The nice name of the parent.
    pub fn parent_nice_name(&self) -> (r: Option<&str>)
        ensures
            opt_str(r) == (match self.parent {
                Some(p) => Some(p.0@),
                None => None,
            }),
    {
        match &self.parent {
            Some(p) => Some(p.0.as_str()),
            None => None,
        }
    }

    /// The version.
    pub fn version(&self) -> (r: &str)
        ensures
            r@ == self.version@,
    {
        self.version.as_str()
    }
}

impl Flag {
    /// The text of the key to sort by: the long key, or the short one where
    /// there is no long one, or nothing.
    pub open spec fn sort_text(&self) -> Seq<char> {
        match self.long {
            Some(k) => undashed(k.text()),
            None => match self.short {
                Some(k) => undashed(k.text()),
                None => Seq::<char>::empty(),
            },
        }
    }

    /// The key to sort by, without its dashes.
    pub fn sort_key(&self) -> (r: &str)
        ensures
            r@ == self.sort_text(),
    {
        let key: &str = match &self.long {
            Some(k) => k.as_str(),
            None => match &self.short {
                Some(k) => k.as_str(),
                None => {
                    return "".substring_char(0, 0);
                },
            },
        };
        let chars = to_chars(key);
        let mut d: usize = 0;
        assert(chars@.skip(0) =~= chars@);
        while d < chars.len() && chars[d] == '-'
            invariant
                d <= chars@.len(),
                undashed(chars@.skip(d as int)) == undashed(chars@),
            decreases chars@.len() - d,
        {
            assert(chars@.skip(d as int).drop_first() =~= chars@.skip(d + 1));
            d += 1;
        }
        assert(chars@.skip(d as int) =~= key@.subrange(d as int, key@.len() as int));
        key.substring_char(d, chars.len())
    }

    /// The description.
    pub fn description(&self) -> (r: &str)
        ensures
            r@ == self.description@,
    {
        self.description.as_str()
    }

    /// Whether the key may be given more than once.
    pub fn duplicate(&self) -> (r: bool)
        ensures
            r == self.duplicate,
    {
        self.duplicate
    }

    /// The long key.
    pub fn long(&self) -> (r: Option<&str>)
        ensures
            opt_str(r) == key_text(self.long),
    {
        match &self.long {
            Some(k) => Some(k.as_str()),
            None => None,
        }
    }

    /// The short key.
    pub fn short(&self) -> (r: Option<&str>)
        ensures
            opt_str(r) == key_text(self.short),
    {
        match &self.short {
            Some(k) => Some(k.as_str()),
            None => None,
        }
    }
}

impl OptionFlag {
    /// Whether the key may be given more than once.
    pub fn duplicate(&self) -> (r: bool)
        ensures
            r == self.flag.duplicate,
    {
        self.flag.duplicate()
    }

    /// The description.
    pub fn description(&self) -> (r: &str)
        ensures
            r@ == self.flag.description@,
    {
        self.flag.description()
    }

    /// What to call the value.
    pub fn label(&self) -> (r: &str)
        ensures
            r@ == self.label@,
    {
        self.label.as_str()
    }

    /// The long key.
    pub fn long(&self) -> (r: Option<&str>)
        ensures
            opt_str(r) == key_text(self.flag.long),
    {
        self.flag.long()
    }

    /// Whether the value is a path.
    pub fn path(&self) -> (r: bool)
        ensures
            r == self.path,
    {
        self.path
    }

    /// The short key.
    pub fn short(&self) -> (r: Option<&str>)
        ensures
            opt_str(r) == key_text(self.flag.short),
    {
        self.flag.short()
    }
}

impl TrailingArg {
    /// The description.
    pub fn description(&self) -> (r: &str)
        ensures
            r@ == self.description@,
    {
        self.description.as_str()
    }

    /// What to call the argument.
    pub fn label(&self) -> (r: &str)
        ensures
            r@ == self.label@,
    {
        self.label.as_str()
    }
}

impl Section {
    /// Whether the section stands inside another.
    pub fn inside(&self) -> (r: bool)
        ensures
            r == self.inside,
    {
        self.inside
    }

    /// The items, where there are any.
    pub fn items(&self) -> (r: Option<&[[String; 2]]>)
        ensures
            match r {
                Some(list) => list@ == self.items@ && self.items@.len() > 0,
                None => self.items@.len() == 0,
            },
    {
        if self.items.len() == 0 {
            None
        } else {
            Some(self.items.as_slice())
        }
    }

    /// The lines, where there are any.
    pub fn lines(&self) -> (r: Option<&str>)
        ensures
            match r {
                Some(text) => text@ == self.lines@ && self.lines@.len() > 0,
                None => self.lines@.len() == 0,
            },
    {
        if self.lines.as_str().is_empty() {
            None
        } else {
            Some(self.lines.as_str())
        }
    }

    /// The name.
    pub fn name(&self) -> (r: &str)
        ensures
            r@ == self.name@,
    {
        self.name.as_str()
    }
}

impl RawSubCmd {
    /// The subcommand of the given parent, with the given version and
    /// nothing else yet.
    pub fn into_subcommand(self, version: String, parent: Option<(String, KeyWord)>) -> (r:
        Subcommand)
        ensures
            r.nice_name == self.name,
            r.name == self.cmd,
            r.description == self.description,
            r.version == version,
            r.parent == parent,
            r.data.flags@.len() == 0,
            r.data.options@.len() == 0,
            r.data.args is None,
            r.data.sections@.len() == 0,
    {
        Subcommand {
            nice_name: self.name,
            name: self.cmd,
            description: self.description,
            version,
            parent,
            data: ManifestData::new(),
        }
    }
}

/// Whether the key `a` comes before the key `b`: by their lower-case forms,
/// and by themselves where those are the same.
pub open spec fn flag_less(a: Seq<char>, b: Seq<char>) -> bool {
    keyed_less(lowered(a), a, lowered(b), b, char_lt())
}

/// How the key `a` stands to the key `b`.
pub open spec fn flag_order(a: Seq<char>, b: Seq<char>) -> Order {
    if a == b {
        Order::Equal
    } else if flag_less(a, b) {
        Order::Less
    } else {
        Order::Greater
    }
}

/// How one sort key stands to another.
pub fn key_compare(a: &str, b: &str) -> (r: Order)
    ensures
        r == flag_order(a@, b@),
{
    let x = to_chars(a);
    let y = to_chars(b);
    match text_compare(&lower_chars(&x), &lower_chars(&y)) {
        Order::Equal => text_compare(&x, &y),
        o => {
            proof {
                lemma_text_total(lowered(a@), lowered(b@));
            }
            o
        },
    }
}

/// The sort keys are in order, each before the next: so no key occurs
/// twice.
pub open spec fn keys_sorted(keys: Seq<Seq<char>>) -> bool {
    forall|i: int, j: int| 0 <= i < j < keys.len() ==> flag_less(#[trigger] keys[i], #[trigger] keys[j])
}

/// The sort keys of a list of flags.
pub open spec fn flag_keys(list: Seq<Flag>) -> Seq<Seq<char>> {
    Seq::new(list.len(), |i: int| list[i].sort_text())
}

/// The sort keys of a list of options.
pub open spec fn option_keys(list: Seq<OptionFlag>) -> Seq<Seq<char>> {
    Seq::new(list.len(), |i: int| list[i].flag.sort_text())
}

/// A key put between what comes before it and what comes after it keeps the
/// keys in order.
pub proof fn lemma_insert_key(keys: Seq<Seq<char>>, at: int, k: Seq<char>)
    requires
        keys_sorted(keys),
        0 <= at <= keys.len(),
        forall|j: int| 0 <= j < at ==> flag_less(#[trigger] keys[j], k),
        at < keys.len() ==> flag_less(k, keys[at]),
    ensures
        keys_sorted(keys.insert(at, k)),
{
    let after = keys.insert(at, k);
    assert forall|a: int, b: int| 0 <= a < b < after.len() implies flag_less(
        #[trigger] after[a],
        #[trigger] after[b],
    ) by {
        if b < at {
        } else if b == at {
        } else if a < at {
            assert(after[b] == keys[b - 1]);
        } else if a == at {
            assert(after[b] == keys[b - 1]);
            if b - 1 > at {
                lemma_keyed_transitive(
                    lowered(k),
                    k,
                    lowered(keys[at]),
                    keys[at],
                    lowered(keys[b - 1]),
                    keys[b - 1],
                    char_lt(),
                );
            }
        } else {
            assert(after[a] == keys[a - 1] && after[b] == keys[b - 1]);
        }
    }
}

/// Where a key belongs among keys in order: the place of the first that does
/// not come before it, and whether that one is the key itself.
pub proof fn lemma_key_slot(keys: Seq<Seq<char>>, at: int, k: Seq<char>)
    requires
        keys_sorted(keys),
        0 <= at < keys.len(),
        forall|j: int| 0 <= j < at ==> flag_less(#[trigger] keys[j], k),
        !flag_less(keys[at], k),
    ensures
        keys.contains(k) <==> keys[at] == k,
        keys[at] != k ==> flag_less(k, keys[at]),
{
    lemma_keyed_total(lowered(keys[at]), keys[at], lowered(k), k, char_lt());
    if keys.contains(k) && keys[at] != k {
        let i = choose|i: int| 0 <= i < keys.len() && keys[i] == k;
        if i < at {
            lemma_keyed_asymmetric(lowered(keys[i]), keys[i], lowered(k), k, char_lt());
        } else {
            assert(flag_less(keys[at], keys[i]));
        }
    }
}

/// A copy of an optional keyword.
pub fn copy_key(k: &Option<KeyWord>) -> (r: Option<KeyWord>)
    ensures
        r == *k,
{
    match k {
        Some(w) => Some(w.copy()),
        None => None,
    }
}

impl TrailingArg {
    /// A copy of the argument.
    pub fn copy(&self) -> (r: TrailingArg)
        ensures
            r == *self,
    {
        TrailingArg { label: self.label.clone(), description: self.description.clone() }
    }
}

impl OptionFlag {
    /// A copy of the option.
    pub fn copy(&self) -> (r: OptionFlag)
        ensures
            r == *self,
    {
        OptionFlag { flag: self.flag.copy(), label: self.label.clone(), path: self.path }
    }
}

/// How many of the keys come before the key `k`: in a list in order, the
/// place where `k` belongs.
pub open spec fn slot_of(keys: Seq<Seq<char>>, k: Seq<char>) -> int
    decreases keys.len(),
{
    if keys.len() == 0 {
        0
    } else {
        slot_of(keys.drop_last(), k) + (if flag_less(keys.last(), k) {
            1int
        } else {
            0int
        })
    }
}

/// In a list in order, the keys before the place of `k` are those that come
/// before `k`.
pub proof fn lemma_slot(keys: Seq<Seq<char>>, at: int, k: Seq<char>)
    requires
        keys_sorted(keys),
        0 <= at <= keys.len(),
        forall|j: int| 0 <= j < at ==> flag_less(#[trigger] keys[j], k),
        forall|j: int| at <= j < keys.len() ==> !flag_less(#[trigger] keys[j], k),
    ensures
        slot_of(keys, k) == at,
    decreases keys.len(),
{
    if keys.len() > 0 {
        let front = keys.drop_last();
        assert forall|i: int, j: int| 0 <= i < j < front.len() implies flag_less(
            #[trigger] front[i],
            #[trigger] front[j],
        ) by {
            assert(front[i] == keys[i] && front[j] == keys[j]);
        }
        if at == keys.len() {
            assert(flag_less(keys[keys.len() - 1], k));
            assert forall|j: int| 0 <= j < at - 1 implies flag_less(#[trigger] front[j], k) by {
                assert(front[j] == keys[j]);
            }
            lemma_slot(front, at - 1, k);
        } else {
            assert(!flag_less(keys[keys.len() - 1], k));
            assert forall|j: int| 0 <= j < at implies flag_less(#[trigger] front[j], k) by {
                assert(front[j] == keys[j]);
            }
            assert forall|j: int| at <= j < front.len() implies !flag_less(#[trigger] front[j], k) by {
                assert(front[j] == keys[j]);
            }
            lemma_slot(front, at, k);
        }
    }
}

/// The keys from the place `at` on do not come before `k`, where `k` comes
/// before the key at `at`.
proof fn lemma_rest_not_less(keys: Seq<Seq<char>>, at: int, k: Seq<char>)
    requires
        keys_sorted(keys),
        0 <= at <= keys.len(),
        at < keys.len() ==> flag_less(k, keys[at]),
    ensures
        forall|j: int| at <= j < keys.len() ==> !flag_less(#[trigger] keys[j], k),
{
    assert forall|j: int| at <= j < keys.len() implies !flag_less(#[trigger] keys[j], k) by {
        if j > at {
            lemma_keyed_transitive(
                lowered(k),
                k,
                lowered(keys[at]),
                keys[at],
                lowered(keys[j]),
                keys[j],
                char_lt(),
            );
        }
        lemma_keyed_asymmetric(lowered(k), k, lowered(keys[j]), keys[j], char_lt());
    }
}

/// The list of flags with one more put in its place, unless the list has a
/// flag of its key.
pub open spec fn with_flag(list: Seq<Flag>, f: Flag) -> Seq<Flag> {
    if flag_keys(list).contains(f.sort_text()) {
        list
    } else {
        list.insert(slot_of(flag_keys(list), f.sort_text()), f)
    }
}

/// The list of options with one more put in its place, unless the list has an
/// option of its key.
pub open spec fn with_option(list: Seq<OptionFlag>, o: OptionFlag) -> Seq<OptionFlag> {
    if option_keys(list).contains(o.flag.sort_text()) {
        list
    } else {
        list.insert(slot_of(option_keys(list), o.flag.sort_text()), o)
    }
}

impl Flag {
    /// A copy of the flag.
    pub fn copy(&self) -> (r: Flag)
        ensures
            r == *self,
    {
        Flag {
            short: copy_key(&self.short),
            long: copy_key(&self.long),
            description: self.description.clone(),
            duplicate: self.duplicate,
        }
    }

    /// How this flag stands to another: by their sort keys.
    pub fn compare(&self, other: &Flag) -> (r: Order)
        ensures
            r == flag_order(self.sort_text(), other.sort_text()),
    {
        key_compare(self.sort_key(), other.sort_key())
    }
}

impl PartialEqSpecImpl for Flag {
    open spec fn obeys_eq_spec() -> bool {
        true
    }

    open spec fn eq_spec(&self, other: &Flag) -> bool {
        self.sort_text() == other.sort_text()
    }
}

impl PartialEq for Flag {
    fn eq(&self, other: &Flag) -> (r: bool) {
        match self.compare(other) {
            Order::Equal => true,
            _ => false,
        }
    }
}

impl Eq for Flag {

}

/// Puts a flag in its place in the list, unless the list has one of its key:
/// then the list stays as it is and the answer is `false`.
pub fn insert_flag(list: &mut Vec<Flag>, flag: Flag) -> (added: bool)
    requires
        keys_sorted(flag_keys(old(list)@)),
    ensures
        keys_sorted(flag_keys(final(list)@)),
        added == !flag_keys(old(list)@).contains(flag.sort_text()),
        !added ==> final(list)@ == old(list)@,
        added ==> exists|at: int|
            0 <= at <= old(list)@.len() && final(list)@ == #[trigger] old(list)@.insert(at, flag),
        final(list)@ == with_flag(old(list)@, flag),
{
    let ghost keys = flag_keys(list@);
    let ghost k = flag.sort_text();
    let mut i: usize = 0;
    while i < list.len()
        invariant
            i <= list@.len(),
            list@ == old(list)@,
            keys == flag_keys(list@),
            keys_sorted(keys),
            k == flag.sort_text(),
            forall|j: int| 0 <= j < i ==> flag_less(#[trigger] keys[j], k),
        decreases list@.len() - i,
    {
        assert(keys[i as int] == list@[i as int].sort_text());
        match list[i].compare(&flag) {
            Order::Less => {},
            Order::Equal => {
                assert(keys.contains(k));
                return false;
            },
            Order::Greater => {
                proof {
                    lemma_keyed_total(lowered(keys[i as int]), keys[i as int], lowered(k), k, char_lt());
                    lemma_key_slot(keys, i as int, k);
                    lemma_insert_key(keys, i as int, k);
                    lemma_rest_not_less(keys, i as int, k);
                    lemma_slot(keys, i as int, k);
                }
                let ghost before = list@;
                list.insert(i, flag);
                assert(flag_keys(list@) =~= keys.insert(i as int, k));
                assert(list@ == before.insert(i as int, flag));
                return true;
            },
        }
        i += 1;
    }
    proof {
        lemma_insert_key(keys, i as int, k);
        if keys.contains(k) {
            let j = choose|j: int| 0 <= j < keys.len() && keys[j] == k;
            lemma_keyed_asymmetric(lowered(keys[j]), keys[j], lowered(k), k, char_lt());
        }
        lemma_slot(keys, i as int, k);
    }
    let ghost before = list@;
    list.insert(i, flag);
    assert(flag_keys(list@) =~= keys.insert(i as int, k));
    assert(list@ == before.insert(i as int, flag));
    true
}

/// Puts an option in its place in the list, unless the list has one of its
/// key: then the list stays as it is and the answer is `false`.
pub fn insert_option(list: &mut Vec<OptionFlag>, flag: OptionFlag) -> (added: bool)
    requires
        keys_sorted(option_keys(old(list)@)),
    ensures
        keys_sorted(option_keys(final(list)@)),
        added == !option_keys(old(list)@).contains(flag.flag.sort_text()),
        !added ==> final(list)@ == old(list)@,
        added ==> exists|at: int|
            0 <= at <= old(list)@.len() && final(list)@ == #[trigger] old(list)@.insert(at, flag),
        final(list)@ == with_option(old(list)@, flag),
{
    let ghost keys = option_keys(list@);
    let ghost k = flag.flag.sort_text();
    let mut i: usize = 0;
    while i < list.len()
        invariant
            i <= list@.len(),
            list@ == old(list)@,
            keys == option_keys(list@),
            keys_sorted(keys),
            k == flag.flag.sort_text(),
            forall|j: int| 0 <= j < i ==> flag_less(#[trigger] keys[j], k),
        decreases list@.len() - i,
    {
        assert(keys[i as int] == list@[i as int].flag.sort_text());
        match list[i].flag.compare(&flag.flag) {
            Order::Less => {},
            Order::Equal => {
                assert(keys.contains(k));
                return false;
            },
            Order::Greater => {
                proof {
                    lemma_keyed_total(lowered(keys[i as int]), keys[i as int], lowered(k), k, char_lt());
                    lemma_key_slot(keys, i as int, k);
                    lemma_insert_key(keys, i as int, k);
                    lemma_rest_not_less(keys, i as int, k);
                    lemma_slot(keys, i as int, k);
                }
                let ghost before = list@;
                list.insert(i, flag);
                assert(option_keys(list@) =~= keys.insert(i as int, k));
                assert(list@ == before.insert(i as int, flag));
                return true;
            },
        }
        i += 1;
    }
    proof {
        lemma_insert_key(keys, i as int, k);
        if keys.contains(k) {
            let j = choose|j: int| 0 <= j < keys.len() && keys[j] == k;
            lemma_keyed_asymmetric(lowered(keys[j]), keys[j], lowered(k), k, char_lt());
        }
        lemma_slot(keys, i as int, k);
    }
    let ghost before = list@;
    list.insert(i, flag);
    assert(option_keys(list@) =~= keys.insert(i as int, k));
    assert(list@ == before.insert(i as int, flag));
    true
}

/// By what a command is found when flags are handed out: nothing for the
/// main command, the command itself for a subcommand.
pub open spec fn sub_key(s: Subcommand) -> Seq<char> {
    match s.parent {
        Some(_) => s.name.text(),
        None => Seq::<char>::empty(),
    }
}

/// `i` is the first place of a command with the key `key`.
pub open spec fn is_sub_at(subs: Seq<Subcommand>, key: Seq<char>, i: int) -> bool {
    &&& 0 <= i < subs.len()
    &&& sub_key(subs[i]) == key
    &&& forall|j: int| 0 <= j < i ==> sub_key(#[trigger] subs[j]) != key
}

/// No command has the key `key`.
pub open spec fn no_sub(subs: Seq<Subcommand>, key: Seq<char>) -> bool {
    forall|j: int| 0 <= j < subs.len() ==> sub_key(#[trigger] subs[j]) != key
}

/// The flags and the options of every command are in order.
pub open spec fn subs_wf(subs: Seq<Subcommand>) -> bool {
    forall|i: int|
        0 <= i < subs.len() ==> keys_sorted(flag_keys((#[trigger] subs[i]).data.flags@))
            && keys_sorted(option_keys(subs[i].data.options@))
}

/// The command `b` is the command `a` but for its flags, options and
/// argument.
pub open spec fn same_command(a: Subcommand, b: Subcommand) -> bool {
    &&& a.nice_name == b.nice_name
    &&& a.name == b.name
    &&& a.description == b.description
    &&& a.version == b.version
    &&& a.parent == b.parent
    &&& a.data.sections == b.data.sections
}

/// `after` is `before` with the command at `i` replaced by `s`.
pub open spec fn replaced_at(
    before: Seq<Subcommand>,
    after: Seq<Subcommand>,
    i: int,
    s: Subcommand,
) -> bool {
    &&& 0 <= i < before.len()
    &&& after == before.update(i, s)
    &&& same_command(before[i], s)
}

/// The place of the command with the given key.
pub fn find_sub(subs: &Vec<Subcommand>, key: &str) -> (r: Option<usize>)
    ensures
        match r {
            Some(i) => is_sub_at(subs@, key@, i as int),
            None => no_sub(subs@, key@),
        },
{
    let mut i: usize = 0;
    while i < subs.len()
        invariant
            i <= subs@.len(),
            forall|j: int| 0 <= j < i ==> sub_key(#[trigger] subs@[j]) != key@,
        decreases subs@.len() - i,
    {
        let hit = match &subs[i].parent {
            Some(_) => str_eq(subs[i].name.as_str(), key),
            None => key.is_empty(),
        };
        proof {
            if subs@[i as int].parent is None {
                assert(hit == (key@.len() == 0));
                if key@.len() == 0 {
                    assert(key@ =~= Seq::<char>::empty());
                }
            }
        }
        if hit {
            return Some(i);
        }
        i += 1;
    }
    None
}

/// Gives a flag to the command with the given key. A flag whose key the
/// command has already is passed over. A key that no command has is an
/// error, and nothing changes.
pub fn add_subcommand_flag(subs: &mut Vec<Subcommand>, key: &str, flag: Flag) -> (r: Result<
    (),
    BashManError,
>)
    requires
        subs_wf(old(subs)@),
    ensures
        subs_wf(final(subs)@),
        match r {
            Ok(()) => exists|i: int, s: Subcommand|
                is_sub_at(old(subs)@, key@, i) && #[trigger] replaced_at(
                    old(subs)@,
                    final(subs)@,
                    i,
                    s,
                ) && s.data.options == old(subs)@[i].data.options && s.data.args == old(
                    subs,
                )@[i].data.args && s.data.flags@ == with_flag(old(subs)@[i].data.flags@, flag),
            Err(e) => no_sub(old(subs)@, key@) && final(subs)@ == old(subs)@ && (
            e matches BashManError::UnknownCommand(t) && t@ == key@),
        },
{
    let i = match find_sub(subs, key) {
        Some(i) => i,
        None => {
            return Err(BashManError::UnknownCommand(key.to_owned()));
        },
    };
    let ghost before = subs@;
    let mut s = subs.remove(i);
    let ghost s0 = s;
    assert(s0 == before[i as int]);
    let added = insert_flag(&mut s.data.flags, flag);
    let ghost s1 = s;
    subs.insert(i, s);
    proof {
        assert(subs@ =~= before.update(i as int, s1));
        assert(replaced_at(before, subs@, i as int, s1));
        assert forall|j: int| 0 <= j < subs@.len() implies keys_sorted(
            flag_keys((#[trigger] subs@[j]).data.flags@),
        ) && keys_sorted(option_keys(subs@[j].data.options@)) by {
            if j != i {
                assert(subs@[j] == before[j]);
            }
        }
    }
    Ok(())
}

/// Gives an option to the command with the given key. An option whose key
/// the command has already is passed over. A key that no command has is an
/// error, and nothing changes.
pub fn add_subcommand_option(subs: &mut Vec<Subcommand>, key: &str, flag: OptionFlag) -> (r:
    Result<(), BashManError>)
    requires
        subs_wf(old(subs)@),
    ensures
        subs_wf(final(subs)@),
        match r {
            Ok(()) => exists|i: int, s: Subcommand|
                is_sub_at(old(subs)@, key@, i) && #[trigger] replaced_at(
                    old(subs)@,
                    final(subs)@,
                    i,
                    s,
                ) && s.data.flags == old(subs)@[i].data.flags && s.data.args == old(
                    subs,
                )@[i].data.args && s.data.options@ == with_option(
                    old(subs)@[i].data.options@,
                    flag,
                ),
            Err(e) => no_sub(old(subs)@, key@) && final(subs)@ == old(subs)@ && (
            e matches BashManError::UnknownCommand(t) && t@ == key@),
        },
{
    let i = match find_sub(subs, key) {
        Some(i) => i,
        None => {
            return Err(BashManError::UnknownCommand(key.to_owned()));
        },
    };
    let ghost before = subs@;
    let mut s = subs.remove(i);
    let ghost s0 = s;
    assert(s0 == before[i as int]);
    let added = insert_option(&mut s.data.options, flag);
    let ghost s1 = s;
    subs.insert(i, s);
    proof {
        assert(subs@ =~= before.update(i as int, s1));
        assert(replaced_at(before, subs@, i as int, s1));
        assert forall|j: int| 0 <= j < subs@.len() implies keys_sorted(
            flag_keys((#[trigger] subs@[j]).data.flags@),
        ) && keys_sorted(option_keys(subs@[j].data.options@)) by {
            if j != i {
                assert(subs@[j] == before[j]);
            }
        }
    }
    Ok(())
}

/// Gives a trailing argument to the command with the given key. A key that
/// no command has is an error, and nothing changes. A command that has an
/// argument already gets the new one in its place, and that is an error
/// too.
pub fn add_subcommand_arg(subs: &mut Vec<Subcommand>, key: &str, flag: TrailingArg) -> (r: Result<
    (),
    BashManError,
>)
    requires
        subs_wf(old(subs)@),
    ensures
        subs_wf(final(subs)@),
        no_sub(old(subs)@, key@) ==> final(subs)@ == old(subs)@ && (
        r matches Err(BashManError::UnknownCommand(t)) && t@ == key@),
        !no_sub(old(subs)@, key@) ==> exists|i: int, s: Subcommand|
            is_sub_at(old(subs)@, key@, i) && #[trigger] replaced_at(
                old(subs)@,
                final(subs)@,
                i,
                s,
            ) && s.data.flags == old(subs)@[i].data.flags && s.data.options == old(
                subs,
            )@[i].data.options && s.data.args == Some(flag) && (match r {
                Ok(()) => old(subs)@[i].data.args is None,
                Err(e) => old(subs)@[i].data.args is Some && (e matches BashManError::MultipleArgs(
                    t,
                ) && t@ == key@),
            }),
{
    let i = match find_sub(subs, key) {
        Some(i) => i,
        None => {
            return Err(BashManError::UnknownCommand(key.to_owned()));
        },
    };
    let ghost before = subs@;
    let mut s = subs.remove(i);
    let ghost s0 = s;
    assert(s0 == before[i as int]);
    let fresh = match &s.data.args {
        Some(_) => false,
        None => true,
    };
    s.data.args = Some(flag);
    let ghost s1 = s;
    subs.insert(i, s);
    proof {
        assert(subs@ =~= before.update(i as int, s1));
        assert(replaced_at(before, subs@, i as int, s1));
        assert(is_sub_at(before, key@, i as int));
        assert(sub_key(before[i as int]) == key@);
        assert forall|j: int| 0 <= j < subs@.len() implies keys_sorted(
            flag_keys((#[trigger] subs@[j]).data.flags@),
        ) && keys_sorted(option_keys(subs@[j].data.options@)) by {
            if j != i {
                assert(subs@[j] == before[j]);
            }
        }
    }
    if fresh {
        Ok(())
    } else {
        Err(BashManError::MultipleArgs(key.to_owned()))
    }
}

/// The keys of the options that take a path: for each such option its short
/// key and its long key, as far as it has them.
pub open spec fn path_key_items(options: Seq<OptionFlag>) -> Seq<Seq<char>>
    decreases options.len(),
{
    if options.len() == 0 {
        Seq::<Seq<char>>::empty()
    } else {
        let front = path_key_items(options.drop_last());
        let o = options.last();
        if !o.path {
            front
        } else {
            let with_short = match o.flag.short {
                Some(k) => front.push(k.text()),
                None => front,
            };
            match o.flag.long {
                Some(k) => with_short.push(k.text()),
                None => with_short,
            }
        }
    }
}

/// What `list` holds once `x` is added to `items`.
proof fn lemma_set_push(list: Seq<Seq<char>>, before: Seq<Seq<char>>, items: Seq<Seq<char>>, x: Seq<char>)
    requires
        forall|y: Seq<char>| before.contains(y) <==> items.contains(y),
        forall|y: Seq<char>| list.contains(y) <==> (before.contains(y) || y == x),
    ensures
        forall|y: Seq<char>| list.contains(y) <==> items.push(x).contains(y),
{
    let now = items.push(x);
    assert forall|y: Seq<char>| list.contains(y) <==> now.contains(y) by {
        if now.contains(y) {
            let k = choose|k: int| 0 <= k < now.len() && now[k] == y;
            if k < items.len() {
                assert(items[k] == y);
                assert(items.contains(y));
            }
        }
        if items.contains(y) {
            let k = choose|k: int| 0 <= k < items.len() && items[k] == y;
            assert(now[k] == y);
        }
        if y == x {
            assert(now[items.len() as int] == y);
        }
    }
}

impl Subcommand {
    /// The keys that take a path for a value, in order, each once.
    pub fn path_keys(&self) -> (out: Vec<String>)
        ensures
            strings_of(out@) == sorted_set(path_key_items(self.data.options@)),
            is_sorted_set(strings_of(out@), path_key_items(self.data.options@)),
    {
        let options = &self.data.options;
        let ghost all = options@;
        let mut list: Vec<Vec<char>> = Vec::new();
        let mut i: usize = 0;
        assert(all.take(0) =~= Seq::<OptionFlag>::empty());
        while i < options.len()
            invariant
                i <= options@.len(),
                all == options@,
                is_sorted_set(chars_of(list@), path_key_items(all.take(i as int))),
            decreases options@.len() - i,
        {
            let o = &options[i];
            let ghost done = path_key_items(all.take(i as int));
            assert(all.take(i + 1).drop_last() =~= all.take(i as int));
            assert(all.take(i + 1).last() == all[i as int]);
            if o.path {
                let ghost l0 = chars_of(list@);
                match &o.flag.short {
                    Some(k) => {
                        insert_text(&mut list, to_chars(k.as_str()));
                        proof {
                            lemma_set_push(chars_of(list@), l0, done, k.text());
                        }
                    },
                    None => {},
                }
                let ghost mid = match all[i as int].flag.short {
                    Some(k) => done.push(k.text()),
                    None => done,
                };
                let ghost l1 = chars_of(list@);
                match &o.flag.long {
                    Some(k) => {
                        insert_text(&mut list, to_chars(k.as_str()));
                        proof {
                            lemma_set_push(chars_of(list@), l1, mid, k.text());
                        }
                    },
                    None => {},
                }
            }
            i += 1;
        }
        assert(all.take(all.len() as int) =~= all);
        let mut out: Vec<String> = Vec::new();
        let mut k: usize = 0;
        while k < list.len()
            invariant
                k <= list@.len(),
                out@.len() == k,
                forall|j: int| 0 <= j < k ==> (#[trigger] out@[j])@ == list@[j]@,
            decreases list@.len() - k,
        {
            out.push(from_chars(&list[k]));
            k += 1;
        }
        assert(strings_of(out@) =~= chars_of(list@));
        proof {
            lemma_sorted_set(strings_of(out@), path_key_items(self.data.options@));
        }
        out
    }
}

/// The name of the file of a manual page: the command, or the command of
/// the parent, a hyphen and the command, and `.1`.
pub open spec fn man_file(parent_cmd: Option<Seq<char>>, cmd: Seq<char>) -> Seq<char> {
    match parent_cmd {
        Some(p) => p + "-"@ + cmd + ".1"@,
        None => cmd + ".1"@,
    }
}

/// The name of the file of the manual page of a command.
pub fn output_file(parent_cmd: Option<&str>, cmd: &str) -> (out: String)
    ensures
        out@ == man_file(opt_str(parent_cmd), cmd@),
{
    let mut out = String::new();
    match parent_cmd {
        Some(p) => {
            out.append(p);
            out.append("-");
        },
        None => {},
    }
    out.append(cmd);
    out.append(".1");
    proof {
        match parent_cmd {
            Some(p) => {
                assert(out@ =~= p@ + "-"@ + cmd@ + ".1"@);
            },
            None => {
                assert(out@ =~= cmd@ + ".1"@);
            },
        }
    }
    out
}

} // verus!
