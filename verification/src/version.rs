//! Semantic versions, held as plain numbers and texts.

use vstd::prelude::*;
use crate::order::{
    keyed_less, lemma_keyed_asymmetric, lemma_keyed_total, lemma_keyed_transitive,
    lemma_lex_total, lemma_text_irreflexive, num_lt, nums_compare, text_compare, Order,
};
use crate::text::{chars_of, pieces, split_chars, to_chars};

verus! {

/// A semantic version: three numbers, a pre-release tag and build metadata,
/// the last two empty where the version has none.
#[derive(Clone, Debug)]
pub struct Version {
    pub major: u64,
    pub minor: u64,
    pub patch: u64,
    pub pre: String,
    pub build: String,
}

/// A version as numbers and texts.
pub struct VersionView {
    pub major: nat,
    pub minor: nat,
    pub patch: nat,
    pub pre: Seq<char>,
    pub build: Seq<char>,
}

impl View for Version {
    type V = VersionView;

    open spec fn view(&self) -> VersionView {
        VersionView {
            major: self.major as nat,
            minor: self.minor as nat,
            patch: self.patch as nat,
            pre: self.pre@,
            build: self.build@,
        }
    }
}

/// What the text of a version parses to, by the rules of semantic
/// versioning; nothing where the text is no version.
pub uninterp spec fn semver_parse(text: Seq<char>) -> Option<VersionView>;

/// `semver::Version::parse` reads a version from its text. Its result
/// depends on the text alone; the parts of the version are handed on as they
/// are.
#[verifier::external_body]
fn parse_semver(text: &str) -> (r: Option<Version>)
    ensures
        match r {
            Some(v) => semver_parse(text@) == Some(v@),
            None => semver_parse(text@) is None,
        },
{
    match semver::Version::parse(text) {
        Ok(v) => Some(
            Version {
                major: v.major,
                minor: v.minor,
                patch: v.patch,
                pre: v.pre.as_str().to_owned(),
                build: v.build.as_str().to_owned(),
            },
        ),
        Err(_) => None,
    }
}

/// Whether a character is an ASCII digit.
pub open spec fn is_digit(c: char) -> bool {
    '0' <= c && c <= '9'
}

/// Whether the identifier is made of digits only.
pub open spec fn all_digits(p: Seq<char>) -> bool {
    forall|k: int| 0 <= k < p.len() ==> is_digit(#[trigger] p[k])
}

/// The number that stands for a character in a key: one more than its code,
/// so that nothing stands before every character.
pub open spec fn code(c: char) -> u64 {
    ((c as u32) as u64 + 1) as u64
}

/// The numbers that stand for the characters of an identifier.
pub open spec fn codes(p: Seq<char>) -> Seq<u64> {
    Seq::new(p.len(), |k: int| code(p[k]))
}

/// How many zeros the identifier starts with.
pub open spec fn lead_zeros(p: Seq<char>) -> nat
    decreases p.len(),
{
    if p.len() > 0 && p[0] == '0' {
        1 + lead_zeros(p.drop_first())
    } else {
        0
    }
}

/// The key of one identifier of a pre-release tag. A numeric identifier
/// orders by its length and then by its digits, and stands before every
/// other identifier; another identifier orders by its characters, a prefix
/// first.
pub open spec fn pre_ident(p: Seq<char>) -> Seq<u64> {
    if all_digits(p) {
        seq![1u64, p.len() as u64] + codes(p)
    } else {
        seq![2u64] + codes(p) + seq![0u64]
    }
}

/// The key of one identifier of build metadata. A numeric identifier orders
/// by its value, zeros in front left aside, and then by its length, and
/// stands before every other identifier; another identifier orders by its
/// characters, a prefix first.
pub open spec fn build_ident(p: Seq<char>) -> Seq<u64> {
    if all_digits(p) {
        let z = lead_zeros(p);
        seq![1u64, (p.len() - z) as u64] + codes(p.skip(z as int)) + seq![p.len() as u64]
    } else {
        seq![2u64] + codes(p) + seq![0u64]
    }
}

/// The keys of the identifiers, one after the other.
pub open spec fn idents_key(parts: Seq<Seq<char>>, build: bool) -> Seq<u64>
    decreases parts.len(),
{
    if parts.len() == 0 {
        Seq::<u64>::empty()
    } else {
        idents_key(parts.drop_last(), build) + (if build {
            build_ident(parts.last())
        } else {
            pre_ident(parts.last())
        })
    }
}

/// The key of a tag: the keys of its identifiers, which dots part. Tags
/// stand to each other as their keys do, number by number, a prefix first:
/// this is the precedence of semantic versioning, and for build metadata the
/// order that goes with it.
pub open spec fn tag_key(s: Seq<char>, build: bool) -> Seq<u64> {
    idents_key(pieces(s, '.'), build)
}

/// Whether the tag `a` comes before the tag `b`: by their keys, and by
/// their texts where the keys are the same.
pub open spec fn tag_less(a: Seq<char>, b: Seq<char>, build: bool) -> bool {
    keyed_less(tag_key(a, build), a, tag_key(b, build), b, num_lt())
}

/// How the tag `a` stands to the tag `b`.
pub open spec fn tag_order(a: Seq<char>, b: Seq<char>, build: bool) -> Order {
    if a == b {
        Order::Equal
    } else if tag_less(a, b, build) {
        Order::Less
    } else {
        Order::Greater
    }
}

/// Of two different tags one comes before the other.
pub proof fn lemma_tag_total(a: Seq<char>, b: Seq<char>, build: bool)
    ensures
        a == b || tag_less(a, b, build) || tag_less(b, a, build),
{
    lemma_keyed_total(tag_key(a, build), a, tag_key(b, build), b, num_lt());
}

/// Two tags do not each come before the other, and no tag comes before
/// itself.
pub proof fn lemma_tag_asymmetric(a: Seq<char>, b: Seq<char>, build: bool)
    requires
        tag_less(a, b, build),
    ensures
        !tag_less(b, a, build),
        a != b,
{
    lemma_keyed_asymmetric(tag_key(a, build), a, tag_key(b, build), b, num_lt());
}

/// Before is transitive.
pub proof fn lemma_tag_transitive(a: Seq<char>, b: Seq<char>, c: Seq<char>, build: bool)
    requires
        tag_less(a, b, build),
        tag_less(b, c, build),
    ensures
        tag_less(a, c, build),
{
    lemma_keyed_transitive(
        tag_key(a, build),
        a,
        tag_key(b, build),
        b,
        tag_key(c, build),
        c,
        num_lt(),
    );
}

/// The key of one identifier.
fn ident_key(p: &Vec<char>, build: bool) -> (out: Vec<u64>)
    ensures
        out@ == (if build {
            build_ident(p@)
        } else {
            pre_ident(p@)
        }),
{
    let n = p.len();
    let mut digits = true;
    let mut i: usize = 0;
    while i < n
        invariant
            i <= n,
            n == p@.len(),
            digits == all_digits(p@.take(i as int)),
        decreases n - i,
    {
        let c = p[i];
        let ghost before = p@.take(i as int);
        let ghost after = p@.take(i + 1);
        proof {
            assert(after[i as int] == c);
            if all_digits(after) {
                assert forall|k: int| 0 <= k < before.len() implies is_digit(#[trigger] before[k]) by {
                    assert(after[k] == before[k]);
                }
            }
            if all_digits(before) && is_digit(c) {
                assert forall|k: int| 0 <= k < after.len() implies is_digit(#[trigger] after[k]) by {
                    if k < i {
                        assert(after[k] == before[k]);
                    }
                }
            }
        }
        if !('0' <= c && c <= '9') {
            digits = false;
        }
        i += 1;
    }
    assert(p@.take(n as int) =~= p@);
    let mut out: Vec<u64> = Vec::new();
    let mut from: usize = 0;
    if digits {
        out.push(1);
        if build {
            assert(p@.skip(0) =~= p@);
            while from < n && p[from] == '0'
                invariant
                    from <= n,
                    n == p@.len(),
                    lead_zeros(p@) == from + lead_zeros(p@.skip(from as int)),
                decreases n - from,
            {
                assert(p@.skip(from as int)[0] == p@[from as int]);
                assert(p@.skip(from as int).drop_first() =~= p@.skip(from + 1));
                from += 1;
            }
            proof {
                if from < n {
                    assert(p@.skip(from as int)[0] == p@[from as int]);
                }
            }
        }
        out.push((n - from) as u64);
    } else {
        out.push(2);
    }
    let ghost head = out@;
    let mut k: usize = from;
    while k < n
        invariant
            from <= k <= n,
            n == p@.len(),
            out@ == head + codes(p@.subrange(from as int, k as int)),
        decreases n - k,
    {
        let c = p[k];
        let n32: u32 = c as u32;
        out.push((n32 as u64) + 1);
        assert(codes(p@.subrange(from as int, k + 1)) =~= codes(
            p@.subrange(from as int, k as int),
        ).push(code(c)));
        k += 1;
    }
    assert(p@.subrange(from as int, n as int) =~= p@.skip(from as int));
    if digits {
        if build {
            out.push(n as u64);
        }
    } else {
        out.push(0);
    }
    proof {
        if digits {
            if build {
                assert(out@ =~= build_ident(p@));
            } else {
                assert(p@.skip(0) =~= p@);
                assert(out@ =~= pre_ident(p@));
            }
        } else {
            assert(p@.skip(0) =~= p@);
            assert(out@ =~= seq![2u64] + codes(p@) + seq![0u64]);
        }
    }
    out
}

/// The key of a tag.
pub fn tag_key_of(tag: &str, build: bool) -> (out: Vec<u64>)
    ensures
        out@ == tag_key(tag@, build),
{
    let chars = to_chars(tag);
    let parts = split_chars(&chars, '.');
    let ghost all = pieces(tag@, '.');
    let mut out: Vec<u64> = Vec::new();
    let mut i: usize = 0;
    assert(all.take(0) =~= Seq::<Seq<char>>::empty());
    while i < parts.len()
        invariant
            i <= parts@.len(),
            chars_of(parts@) == all,
            out@ == idents_key(all.take(i as int), build),
        decreases parts@.len() - i,
    {
        let key = ident_key(&parts[i], build);
        let ghost before = out@;
        assert(all[i as int] == parts@[i as int]@);
        assert(all.take(i + 1).drop_last() =~= all.take(i as int));
        assert(all.take(i + 1).last() == all[i as int]);
        let mut k: usize = 0;
        while k < key.len()
            invariant
                k <= key@.len(),
                out@ == before + key@.take(k as int),
            decreases key@.len() - k,
        {
            out.push(key[k]);
            assert(before + key@.take(k + 1) =~= (before + key@.take(k as int)).push(key@[k as int]));
            k += 1;
        }
        assert(key@.take(key@.len() as int) =~= key@);
        i += 1;
    }
    assert(all.take(all.len() as int) =~= all);
    out
}

/// How the tag `a` stands to the tag `b`.
pub fn tag_compare(a: &str, b: &str, build: bool) -> (r: Order)
    ensures
        r == tag_order(a@, b@, build),
{
    let ka = tag_key_of(a, build);
    let kb = tag_key_of(b, build);
    match nums_compare(&ka, &kb) {
        Order::Equal => {
            let x = to_chars(a);
            let y = to_chars(b);
            text_compare(&x, &y)
        },
        o => {
            proof {
                lemma_lex_total(ka@, kb@, num_lt());
            }
            o
        },
    }
}

/// Whether the pre-release tag `a` comes before the different tag `b`: a
/// version without a tag is the release and comes last; two tags stand as
/// `tag_less` says.
pub open spec fn pre_less(a: Seq<char>, b: Seq<char>) -> bool {
    if a.len() == 0 {
        false
    } else if b.len() == 0 {
        true
    } else {
        tag_less(a, b, false)
    }
}

/// Whether the version `a` comes before `b`: by the first of major, minor,
/// patch, pre-release tag and build metadata in which they differ.
pub open spec fn version_less(a: VersionView, b: VersionView) -> bool {
    if a.major != b.major {
        a.major < b.major
    } else if a.minor != b.minor {
        a.minor < b.minor
    } else if a.patch != b.patch {
        a.patch < b.patch
    } else if a.pre != b.pre {
        pre_less(a.pre, b.pre)
    } else {
        tag_less(a.build, b.build, true)
    }
}

/// How the version `a` stands to `b`.
pub open spec fn version_order(a: VersionView, b: VersionView) -> Order {
    if a == b {
        Order::Equal
    } else if version_less(a, b) {
        Order::Less
    } else {
        Order::Greater
    }
}

/// No version comes before itself.
pub proof fn lemma_version_irreflexive(a: VersionView)
    ensures
        !version_less(a, a),
{
    lemma_text_irreflexive(a.build);
}

/// Of two different versions one comes before the other.
pub proof fn lemma_version_total(a: VersionView, b: VersionView)
    ensures
        a == b || version_less(a, b) || version_less(b, a),
{
    lemma_tag_total(a.pre, b.pre, false);
    lemma_tag_total(a.build, b.build, true);
}

/// Two versions do not each come before the other.
pub proof fn lemma_version_asymmetric(a: VersionView, b: VersionView)
    requires
        version_less(a, b),
    ensures
        !version_less(b, a),
{
    if a.major == b.major && a.minor == b.minor && a.patch == b.patch {
        if a.pre != b.pre {
            if a.pre.len() > 0 && b.pre.len() > 0 {
                lemma_tag_asymmetric(a.pre, b.pre, false);
            }
        } else {
            lemma_tag_asymmetric(a.build, b.build, true);
        }
    }
}

/// Before is transitive.
pub proof fn lemma_version_transitive(a: VersionView, b: VersionView, c: VersionView)
    requires
        version_less(a, b),
        version_less(b, c),
    ensures
        version_less(a, c),
{
    if a.major == b.major && b.major == c.major && a.minor == b.minor && b.minor == c.minor
        && a.patch == b.patch && b.patch == c.patch {
        if a.pre == b.pre && b.pre == c.pre {
            lemma_tag_transitive(a.build, b.build, c.build, true);
        } else if a.pre != b.pre && b.pre != c.pre {
            if a.pre.len() > 0 && b.pre.len() > 0 && c.pre.len() > 0 {
                lemma_tag_transitive(a.pre, b.pre, c.pre, false);
                lemma_tag_asymmetric(a.pre, c.pre, false);
            }
            if a.pre == c.pre {
                if a.pre.len() > 0 && b.pre.len() > 0 {
                    lemma_tag_asymmetric(a.pre, b.pre, false);
                }
            }
        }
    }
}

impl Version {
    /// Reads a version from its text; nothing where the text is no
    /// version.
    pub fn parse(text: &str) -> (r: Option<Version>)
        ensures
            match r {
                Some(v) => semver_parse(text@) == Some(v@),
                None => semver_parse(text@) is None,
            },
    {
        parse_semver(text)
    }

    /// How this version stands to another.
    pub fn compare(&self, other: &Version) -> (r: Order)
        ensures
            r == version_order(self@, other@),
    {
        if self.major != other.major {
            return if self.major < other.major {
                Order::Less
            } else {
                Order::Greater
            };
        }
        if self.minor != other.minor {
            return if self.minor < other.minor {
                Order::Less
            } else {
                Order::Greater
            };
        }
        if self.patch != other.patch {
            return if self.patch < other.patch {
                Order::Less
            } else {
                Order::Greater
            };
        }
        if self.pre.as_str().is_empty() {
            if !other.pre.as_str().is_empty() {
                return Order::Greater;
            }
        } else if other.pre.as_str().is_empty() {
            return Order::Less;
        } else {
            match tag_compare(self.pre.as_str(), other.pre.as_str(), false) {
                Order::Equal => {},
                o => {
                    proof {
                        lemma_tag_total(self.pre@, other.pre@, false);
                    }
                    return o;
                },
            }
        }
        let o = tag_compare(self.build.as_str(), other.build.as_str(), true);
        proof {
            assert(self.pre@ =~= other.pre@);
            if o == Order::Equal {
                assert(self@ == other@);
            } else {
                lemma_tag_total(self.build@, other.build@, true);
            }
        }
        o
    }
}

} // verus!
