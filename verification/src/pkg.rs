//! Package names and dependencies.

use vstd::prelude::*;
use vstd::std_specs::cmp::PartialEqSpecImpl;
use crate::context::{
    build_only, carries, lemma_carries_or, lemma_masks, target_only, FLAG_CTX_BUILD,
    FLAG_CTX_NORMAL, FLAG_DIRECT, FLAG_OPTIONAL, FLAG_TARGET_ANY, FLAG_TARGET_CFG, MASK_CTX,
    MASK_TARGET,
};
use crate::err::BashManError;
use crate::order::{
    lemma_text_asymmetric, lemma_text_irreflexive, lemma_text_total, lemma_text_transitive,
    text_compare, text_less, Order,
};
use crate::text::{from_chars, lower_chars, lowered, to_chars, trim_chars, trimmed};
use crate::version::{
    lemma_version_asymmetric, lemma_version_irreflexive, lemma_version_total,
    lemma_version_transitive, version_less, Version, VersionView,
};

verus! {

/// Whether a character may stand in a package name: a lower-case ASCII
/// letter, a digit, `_` or `-`.
pub open spec fn name_char(c: char) -> bool {
    ('a' <= c && c <= 'z') || ('0' <= c && c <= '9') || c == '_' || c == '-'
}

/// Whether the text is a package name: not empty, a letter first, and
/// nothing but letters, digits, `_` and `-`.
pub open spec fn valid_name(s: Seq<char>) -> bool {
    &&& s.len() > 0
    &&& 'a' <= s[0] && s[0] <= 'z'
    &&& forall|i: int| 0 <= i < s.len() ==> name_char(#[trigger] s[i])
}

/// Whether the text holds a hyphen.
pub open spec fn has_hyphen(s: Seq<char>) -> bool {
    exists|i: int| 0 <= i < s.len() && #[trigger] s[i] == '-'
}

/// The text by which names are compared: `-` counts as `_`.
pub open spec fn name_key(s: Seq<char>) -> Seq<char> {
    Seq::new(
        s.len(),
        |i: int|
            if s[i] == '-' {
                '_'
            } else {
                s[i]
            },
    )
}

/// The name key of a text.
pub fn key_chars(v: &Vec<char>) -> (out: Vec<char>)
    ensures
        out@ == name_key(v@),
{
    let mut out: Vec<char> = Vec::new();
    let mut i: usize = 0;
    while i < v.len()
        invariant
            i <= v@.len(),
            out@.len() == i,
            forall|j: int| 0 <= j < i ==> out@[j] == name_key(v@)[j],
        decreases v@.len() - i,
    {
        let c = v[i];
        if c == '-' {
            out.push('_');
        } else {
            out.push(c);
        }
        i += 1;
    }
    assert(out@ =~= name_key(v@));
    out
}

/// A package name: lower case, and equal to another where the two differ
/// in `-` and `_` only.
#[derive(Clone, Debug)]
pub struct PackageName {
    name: String,
    hyphens: bool,
}

impl View for PackageName {
    type V = Seq<char>;

    closed spec fn view(&self) -> Seq<char> {
        self.name@
    }
}

impl PackageName {
    /// The name is a package name, and the note on hyphens is right.
    pub closed spec fn wf(&self) -> bool {
        &&& valid_name(self.name@)
        &&& self.hyphens == has_hyphen(self.name@)
    }

    /// Reads a package name: the text is trimmed and its ASCII capitals put
    /// in lower case, and must then be a package name. Anything else is
    /// refused, with the text so far in the error.
    pub fn try_from(name: String) -> (r: Result<PackageName, BashManError>)
        ensures
            match r {
                Ok(p) => valid_name(lowered(trimmed(name@))) && p@ == lowered(trimmed(name@))
                    && p.wf(),
                Err(e) => !valid_name(lowered(trimmed(name@))) && (e matches BashManError::PackageName(
                    t,
                ) && t@ == lowered(trimmed(name@))),
            },
    {
        let raw = to_chars(name.as_str());
        let cut = trim_chars(&raw);
        let chars = lower_chars(&cut);
        let text = from_chars(&chars);
        if chars.len() == 0 || !('a' <= chars[0] && chars[0] <= 'z') {
            return Err(BashManError::PackageName(text));
        }
        let mut hyphens = false;
        let mut i: usize = 0;
        while i < chars.len()
            invariant
                i <= chars@.len(),
                forall|j: int| 0 <= j < i ==> name_char(#[trigger] chars@[j]),
                hyphens == has_hyphen(chars@.take(i as int)),
                text@ == chars@,
                chars@ == lowered(trimmed(name@)),
                chars@.len() > 0,
                'a' <= chars@[0] && chars@[0] <= 'z',
            decreases chars@.len() - i,
        {
            let c = chars[i];
            let ghost before = chars@.take(i as int);
            let ghost after = chars@.take(i + 1);
            if c == '-' {
                hyphens = true;
                assert(after[i as int] == '-');
            } else if !(('a' <= c && c <= 'z') || ('0' <= c && c <= '9') || c == '_') {
                assert(!name_char(chars@[i as int]));
                return Err(BashManError::PackageName(text));
            } else {
                proof {
                    if has_hyphen(before) {
                        let j = choose|j: int| 0 <= j < before.len() && #[trigger] before[j] == '-';
                        assert(after[j] == '-');
                    }
                    if has_hyphen(after) {
                        let j = choose|j: int| 0 <= j < after.len() && #[trigger] after[j] == '-';
                        assert(before[j] == '-');
                    }
                }
            }
            i += 1;
        }
        assert(chars@.take(chars@.len() as int) =~= chars@);
        Ok(PackageName { name: text, hyphens })
    }

    /// The name.
    pub fn as_str(&self) -> (r: &str)
        ensures
            r@ == self@,
    {
        self.name.as_str()
    }

    /// How this name stands to another, `-` counting as `_`.
    pub fn compare(&self, other: &PackageName) -> (r: Order)
        ensures
            r == crate::order::text_order(name_key(self@), name_key(other@)),
    {
        let a = key_chars(&to_chars(self.name.as_str()));
        let b = key_chars(&to_chars(other.name.as_str()));
        text_compare(&a, &b)
    }
}

impl PartialEqSpecImpl for PackageName {
    open spec fn obeys_eq_spec() -> bool {
        true
    }

    open spec fn eq_spec(&self, other: &PackageName) -> bool {
        name_key(self@) == name_key(other@)
    }
}

impl PartialEq for PackageName {
    fn eq(&self, other: &PackageName) -> (r: bool) {
        match self.compare(other) {
            Order::Equal => true,
            _ => false,
        }
    }
}

impl Eq for PackageName {

}

/// By what dependencies are ordered and told apart: the name key, then the
/// version.
pub struct DepKey {
    pub name: Seq<char>,
    pub version: VersionView,
}

/// Whether the key `a` comes before `b`: by name, and by version where the
/// names are the same.
pub open spec fn key_less(a: DepKey, b: DepKey) -> bool {
    if a.name != b.name {
        text_less(a.name, b.name)
    } else {
        version_less(a.version, b.version)
    }
}

/// How the key `a` stands to `b`.
pub open spec fn key_order(a: DepKey, b: DepKey) -> Order {
    if a == b {
        Order::Equal
    } else if key_less(a, b) {
        Order::Less
    } else {
        Order::Greater
    }
}

/// No key comes before itself.
pub proof fn lemma_key_irreflexive(a: DepKey)
    ensures
        !key_less(a, a),
{
    lemma_version_irreflexive(a.version);
}

/// Of two different keys one comes before the other.
pub proof fn lemma_key_total(a: DepKey, b: DepKey)
    ensures
        a == b || key_less(a, b) || key_less(b, a),
{
    lemma_text_total(a.name, b.name);
    lemma_version_total(a.version, b.version);
}

/// Two keys do not each come before the other.
pub proof fn lemma_key_asymmetric(a: DepKey, b: DepKey)
    requires
        key_less(a, b),
    ensures
        !key_less(b, a),
{
    if a.name != b.name {
        lemma_text_asymmetric(a.name, b.name);
    } else {
        lemma_version_asymmetric(a.version, b.version);
    }
}

/// Before is transitive.
pub proof fn lemma_key_transitive(a: DepKey, b: DepKey, c: DepKey)
    requires
        key_less(a, b),
        key_less(b, c),
    ensures
        key_less(a, c),
{
    if a.name == b.name && b.name == c.name {
        lemma_version_transitive(a.version, b.version, c.version);
    } else if a.name != b.name && b.name != c.name {
        lemma_text_transitive(a.name, b.name, c.name);
        lemma_text_irreflexive(a.name);
        if a.name == c.name {
            lemma_text_asymmetric(a.name, b.name);
        }
    }
}

/// A used package of the graph, and how it is used.
#[derive(Clone, Debug)]
pub struct Dependency {
    pub name: PackageName,
    pub version: Version,
    pub license: Option<String>,
    pub authors: Vec<String>,
    pub url: Option<String>,
    pub context: u8,
}

impl Dependency {
    /// A direct dependency of a workspace member.
    pub const FLAG_DIRECT: u8 = 0b0000_0001;

    /// Only there with optional features.
    pub const FLAG_OPTIONAL: u8 = 0b0000_0010;

    /// Applies whatever the target.
    pub const FLAG_TARGET_ANY: u8 = 0b0000_0100;

    /// Applies under a target condition.
    pub const FLAG_TARGET_CFG: u8 = 0b0000_1000;

    /// Needed at runtime.
    pub const FLAG_CTX_NORMAL: u8 = 0b0001_0000;

    /// Needed to build.
    pub const FLAG_CTX_BUILD: u8 = 0b0010_0000;

    /// Both kind bits.
    pub const MASK_CTX: u8 = 0b0011_0000;

    /// Both target bits.
    pub const MASK_TARGET: u8 = 0b0000_1100;

    /// The key of the dependency.
    pub open spec fn key(&self) -> DepKey {
        DepKey { name: name_key(self.name@), version: self.version@ }
    }

    /// The license, where there is one.
    pub fn license(&self) -> (r: Option<&str>)
        ensures
            match r {
                Some(s) => self.license is Some && s@ == self.license->0@,
                None => self.license is None,
            },
    {
        match &self.license {
            Some(s) => Some(s.as_str()),
            None => None,
        }
    }

    /// The authors.
    pub fn authors(&self) -> (r: &[String])
        ensures
            r@ == self.authors@,
    {
        self.authors.as_slice()
    }

    /// The address of the repository, where there is one.
    pub fn url(&self) -> (r: Option<&str>)
        ensures
            match r {
                Some(s) => self.url is Some && s@ == self.url->0@,
                None => self.url is None,
            },
    {
        match &self.url {
            Some(s) => Some(s.as_str()),
            None => None,
        }
    }

    /// Whether a workspace member depends on it directly.
    pub fn direct(&self) -> (r: bool)
        ensures
            r == carries(self.context, FLAG_DIRECT),
    {
        Self::FLAG_DIRECT == self.context & Self::FLAG_DIRECT
    }

    /// Whether it is only there with optional features.
    pub fn optional(&self) -> (r: bool)
        ensures
            r == carries(self.context, FLAG_OPTIONAL),
    {
        Self::FLAG_OPTIONAL == self.context & Self::FLAG_OPTIONAL
    }

    /// Whether it is needed to build and not at runtime.
    pub fn build(&self) -> (r: bool)
        ensures
            r == build_only(self.context),
            r == (carries(self.context, FLAG_CTX_BUILD) && !carries(self.context, FLAG_CTX_NORMAL)),
    {
        proof {
            lemma_masks(self.context);
        }
        Self::FLAG_CTX_BUILD == self.context & Self::MASK_CTX
    }

    /// Whether it applies under a target condition and never without one.
    pub fn target_specific(&self) -> (r: bool)
        ensures
            r == target_only(self.context),
            r == (carries(self.context, FLAG_TARGET_CFG) && !carries(
                self.context,
                FLAG_TARGET_ANY,
            )),
    {
        proof {
            lemma_masks(self.context);
        }
        Self::FLAG_TARGET_CFG == self.context & Self::MASK_TARGET
    }

    /// Whether it is optional or target-specific.
    pub fn conditional(&self) -> (r: bool)
        ensures
            r == (carries(self.context, FLAG_OPTIONAL) || target_only(self.context)),
    {
        self.optional() || self.target_specific()
    }

    /// How this dependency stands to another: by name, `-` counting as
    /// `_`, then by version.
    pub fn compare(&self, other: &Dependency) -> (r: Order)
        ensures
            r == key_order(self.key(), other.key()),
    {
        match self.name.compare(&other.name) {
            Order::Equal => {
                let o = self.version.compare(&other.version);
                proof {
                    if o == Order::Equal {
                        assert(self.key() == other.key());
                    }
                }
                o
            },
            o => {
                proof {
                    lemma_text_total(name_key(self.name@), name_key(other.name@));
                }
                o
            },
        }
    }
}

impl PartialEqSpecImpl for Dependency {
    open spec fn obeys_eq_spec() -> bool {
        true
    }

    open spec fn eq_spec(&self, other: &Dependency) -> bool {
        self.key() == other.key()
    }
}

impl PartialEq for Dependency {
    fn eq(&self, other: &Dependency) -> (r: bool) {
        match self.compare(other) {
            Order::Equal => true,
            _ => false,
        }
    }
}

impl Eq for Dependency {

}

} // verus!
