//! The list of dependencies: ordered by name and version, each name and
//! version once.

use vstd::prelude::*;
use crate::context::{
    carries, lemma_carries_or, lemma_single_carries, target_only, FLAG_OPTIONAL,
};
use crate::list::reversed;
use crate::pkg::PackageName;
use crate::version::Version;
use vstd::std_specs::convert::FromSpecImpl;
use crate::order::{lemma_text_asymmetric, Order};
use crate::pkg::{
    key_less, lemma_key_asymmetric, lemma_key_irreflexive, lemma_key_total, lemma_key_transitive,
    DepKey, Dependency,
};

verus! {

/// The keys of a list of dependencies.
pub open spec fn keys(list: Seq<Dependency>) -> Seq<DepKey> {
    Seq::new(list.len(), |i: int| list[i].key())
}

/// The list is in order, each entry before the next: so no key occurs
/// twice.
pub open spec fn sorted(list: Seq<Dependency>) -> bool {
    forall|i: int, j: int|
        0 <= i < j < list.len() ==> key_less(#[trigger] list[i].key(), #[trigger] list[j].key())
}

/// Whether some entry of the list has the key `k`.
pub open spec fn has_key(list: Seq<Dependency>, k: DepKey) -> bool {
    exists|i: int| 0 <= i < list.len() && #[trigger] list[i].key() == k
}

/// The place of the entry with the key `k`, where there is one.
pub open spec fn place_of(list: Seq<Dependency>, k: DepKey) -> int {
    choose|i: int| 0 <= i < list.len() && #[trigger] list[i].key() == k
}

/// In a sorted list two entries with the same key are the same entry.
pub proof fn lemma_sorted_unique(list: Seq<Dependency>, i: int, j: int)
    requires
        sorted(list),
        0 <= i < list.len(),
        0 <= j < list.len(),
        list[i].key() == list[j].key(),
    ensures
        i == j,
{
    lemma_key_irreflexive(list[i].key());
    if i < j {
        assert(key_less(list[i].key(), list[j].key()));
    }
    if j < i {
        assert(key_less(list[j].key(), list[i].key()));
    }
}

/// Where a key belongs in a sorted list: the place of the first entry that
/// does not come before it, and whether that entry has the key itself.
pub fn search(deps: &Vec<Dependency>, dep: &Dependency) -> (r: (usize, bool))
    requires
        sorted(deps@),
    ensures
        r.0 <= deps@.len(),
        forall|i: int| 0 <= i < r.0 ==> key_less(#[trigger] deps@[i].key(), dep.key()),
        r.1 ==> r.0 < deps@.len() && deps@[r.0 as int].key() == dep.key(),
        !r.1 ==> forall|i: int|
            r.0 <= i < deps@.len() ==> key_less(dep.key(), #[trigger] deps@[i].key()),
        r.1 == has_key(deps@, dep.key()),
{
    let mut i: usize = 0;
    while i < deps.len()
        invariant
            i <= deps@.len(),
            sorted(deps@),
            forall|j: int| 0 <= j < i ==> key_less(#[trigger] deps@[j].key(), dep.key()),
        decreases deps@.len() - i,
    {
        match deps[i].compare(dep) {
            Order::Less => {},
            Order::Equal => {
                return (i, true);
            },
            Order::Greater => {
                proof {
                    let k = dep.key();
                    lemma_key_total(deps@[i as int].key(), k);
                    assert forall|j: int| i <= j < deps@.len() implies key_less(
                        k,
                        #[trigger] deps@[j].key(),
                    ) by {
                        if j > i {
                            lemma_key_transitive(k, deps@[i as int].key(), deps@[j].key());
                        }
                    }
                    if has_key(deps@, k) {
                        let j = place_of(deps@, k);
                        lemma_key_irreflexive(k);
                    }
                }
                return (i, false);
            },
        }
        i += 1;
    }
    proof {
        let k = dep.key();
        if has_key(deps@, k) {
            let j = place_of(deps@, k);
            lemma_key_irreflexive(k);
        }
    }
    (i, false)
}

/// Puts a dependency in its place in the list, unless the list already has
/// one of the same name and version: then the list stays as it is and the
/// answer is `false`.
pub fn insert(deps: &mut Vec<Dependency>, dep: Dependency) -> (added: bool)
    requires
        sorted(old(deps)@),
    ensures
        sorted(final(deps)@),
        added == !has_key(old(deps)@, dep.key()),
        !added ==> final(deps)@ == old(deps)@,
        added ==> exists|at: int|
            0 <= at <= old(deps)@.len() && final(deps)@ == #[trigger] old(deps)@.insert(at, dep),
{
    let (at, found) = search(deps, &dep);
    if found {
        return false;
    }
    let ghost before = deps@;
    let ghost k = dep.key();
    deps.insert(at, dep);
    proof {
        let after = deps@;
        assert(after == before.insert(at as int, dep));
        assert forall|i: int, j: int| 0 <= i < j < after.len() implies key_less(
            #[trigger] after[i].key(),
            #[trigger] after[j].key(),
        ) by {
            if j < at {
                assert(after[i] == before[i] && after[j] == before[j]);
            } else if j == at {
                assert(after[i] == before[i]);
            } else if i < at {
                assert(after[i] == before[i] && after[j] == before[j - 1]);
            } else if i == at {
                assert(after[j] == before[j - 1]);
            } else {
                assert(after[i] == before[i - 1] && after[j] == before[j - 1]);
            }
        }
    }
    true
}

/// The two dependencies are the same but for their flags.
pub open spec fn same_record(a: Dependency, b: Dependency) -> bool {
    &&& a.name == b.name
    &&& a.version == b.version
    &&& a.license == b.license
    &&& a.authors == b.authors
    &&& a.url == b.url
}

/// The flags of a dependency that both results have: its flags where the
/// two agree, else the union of the two with the optional bit.
pub open spec fn merged_context(base: u8, extra: u8) -> u8 {
    if base == extra {
        base
    } else {
        base | extra | FLAG_OPTIONAL
    }
}

/// `f` is what the dependency `d` of the default result becomes once the
/// entries of `extra` are taken in: the same record, with its own flags
/// where `extra` has no entry of its key, else with the merged flags.
pub open spec fn kept_entry(f: Dependency, d: Dependency, extra: Seq<Dependency>) -> bool {
    &&& f.key() == d.key()
    &&& same_record(f, d)
    &&& if has_key(extra, d.key()) {
        exists|b: int|
            0 <= b < extra.len() && #[trigger] extra[b].key() == d.key() && f.context
                == merged_context(d.context, extra[b].context)
    } else {
        f.context == d.context
    }
}

/// `f` is the entry `e` of `extra` as it is taken in where the default
/// result has none of its key: the same record, with the optional bit added.
pub open spec fn added_entry(f: Dependency, e: Dependency) -> bool {
    &&& f.key() == e.key()
    &&& same_record(f, e)
    &&& f.context == e.context | FLAG_OPTIONAL
}

/// Where the entry `f` of the merged list comes from.
pub open spec fn merged_entry(f: Dependency, base: Seq<Dependency>, extra: Seq<Dependency>) -> bool {
    if has_key(base, f.key()) {
        exists|a: int| 0 <= a < base.len() && #[trigger] kept_entry(f, base[a], extra)
    } else {
        exists|b: int| 0 <= b < extra.len() && #[trigger] added_entry(f, extra[b])
    }
}

/// `list` is `base` with the entries of `extra` taken in.
pub open spec fn is_merged(list: Seq<Dependency>, base: Seq<Dependency>, extra: Seq<Dependency>) -> bool {
    &&& sorted(list)
    &&& forall|k: DepKey| #[trigger] has_key(list, k) == (has_key(base, k) || has_key(extra, k))
    &&& forall|i: int| 0 <= i < list.len() ==> merged_entry(#[trigger] list[i], base, extra)
}

proof fn lemma_take_keys(extra: Seq<Dependency>, j: int, k: DepKey)
    requires
        0 <= j < extra.len(),
    ensures
        has_key(extra.take(j + 1), k) == (has_key(extra.take(j), k) || extra[j].key() == k),
{
    let a = extra.take(j);
    let b = extra.take(j + 1);
    if has_key(a, k) {
        let i = choose|i: int| 0 <= i < a.len() && #[trigger] a[i].key() == k;
        assert(b[i].key() == k);
    }
    if extra[j].key() == k {
        assert(b[j].key() == k);
    }
    if has_key(b, k) {
        let i = choose|i: int| 0 <= i < b.len() && #[trigger] b[i].key() == k;
        if i < j {
            assert(a[i].key() == k);
        }
    }
}

proof fn lemma_fresh_key(extra: Seq<Dependency>, j: int)
    requires
        sorted(extra),
        0 <= j < extra.len(),
    ensures
        !has_key(extra.take(j), extra[j].key()),
{
    let a = extra.take(j);
    if has_key(a, extra[j].key()) {
        let i = choose|i: int| 0 <= i < a.len() && #[trigger] a[i].key() == extra[j].key();
        assert(a[i] == extra[i]);
        lemma_sorted_unique(extra, i, j);
    }
}

/// An entry of another key is not touched by taking in `extra[j]`.
proof fn lemma_entry_stays(f: Dependency, base: Seq<Dependency>, extra: Seq<Dependency>, j: int)
    requires
        0 <= j < extra.len(),
        merged_entry(f, base, extra.take(j)),
        f.key() != extra[j].key(),
    ensures
        merged_entry(f, base, extra.take(j + 1)),
{
    let x = extra.take(j);
    let y = extra.take(j + 1);
    lemma_take_keys(extra, j, f.key());
    if has_key(base, f.key()) {
        let a = choose|a: int| 0 <= a < base.len() && #[trigger] kept_entry(f, base[a], x);
        if has_key(x, base[a].key()) {
            let b = choose|b: int|
                0 <= b < x.len() && #[trigger] x[b].key() == base[a].key() && f.context
                    == merged_context(base[a].context, x[b].context);
            assert(y[b] == x[b]);
        }
        assert(kept_entry(f, base[a], y));
    } else {
        let b = choose|b: int| 0 <= b < x.len() && #[trigger] added_entry(f, x[b]);
        assert(y[b] == x[b]);
        assert(added_entry(f, y[b]));
    }
}

/// Takes the dependencies of the result with all features into the default
/// result. One that the default result lacks is added with the optional
/// bit. One that it has with other flags gets the union of both flags and
/// the optional bit. One that it has with the same flags stays as it is.
pub fn merge_optional(deps: &mut Vec<Dependency>, extra: Vec<Dependency>)
    requires
        sorted(old(deps)@),
        sorted(extra@),
    ensures
        is_merged(final(deps)@, old(deps)@, extra@),
{
    let ghost base = deps@;
    let mut extra = extra;
    let ghost all = extra@;
    proof {
        assert forall|k: DepKey| !has_key(all.take(0), k) by {}
        assert forall|i: int| 0 <= i < deps@.len() implies merged_entry(
            #[trigger] deps@[i],
            base,
            all.take(0),
        ) by {
            assert(kept_entry(deps@[i], base[i], all.take(0)));
        }
    }
    let n = extra.len();
    let mut rest: Vec<Dependency> = Vec::new();
    // Turn the list round, so that its entries can be taken off the end in
    // their own order.
    while extra.len() > 0
        invariant
            all.len() == n,
            extra@.len() + rest@.len() == all.len(),
            extra@ == all.take(extra@.len() as int),
            forall|i: int|
                0 <= i < rest@.len() ==> #[trigger] rest@[i] == all[all.len() - 1 - i],
        decreases extra@.len(),
    {
        let e = extra.pop().unwrap();
        rest.push(e);
    }
    let mut j: usize = 0;
    while rest.len() > 0
        invariant
            all.len() == n,
            j + rest@.len() == all.len(),
            forall|i: int|
                0 <= i < rest@.len() ==> #[trigger] rest@[i] == all[all.len() - 1 - i],
            sorted(all),
            sorted(base),
            is_merged(deps@, base, all.take(j as int)),
        decreases rest@.len(),
    {
        let e = rest.pop().unwrap();
        assert(e == all[j as int]);
        let ghost before = deps@;
        let ghost x = all.take(j as int);
        let ghost y = all.take(j + 1);
        let ghost k = e.key();
        proof {
            lemma_fresh_key(all, j as int);
        }
        let (at, found) = search(deps, &e);
        if found {
            let mut d = deps.remove(at);
            let ghost d0 = d;
            if d.context != e.context {
                d.context = d.context | e.context | Dependency::FLAG_OPTIONAL;
            }
            deps.insert(at, d);
            proof {
                let after = deps@;
                assert(after =~= before.update(at as int, d));
                assert(after[at as int] == d);
                assert(d.key() == k);
                assert(y[j as int] == e);
                assert(has_key(y, k));
                assert forall|i: int, i2: int| 0 <= i < i2 < after.len() implies key_less(
                    #[trigger] after[i].key(),
                    #[trigger] after[i2].key(),
                ) by {
                    assert(before[i].key() == after[i].key());
                    assert(before[i2].key() == after[i2].key());
                }
                assert forall|q: DepKey| #[trigger]
                    has_key(after, q) == (has_key(base, q) || has_key(y, q)) by {
                    lemma_take_keys(all, j as int, q);
                    if has_key(after, q) {
                        let i = choose|i: int| 0 <= i < after.len() && #[trigger] after[i].key() == q;
                        assert(before[i].key() == q);
                    }
                    if has_key(before, q) {
                        let i = choose|i: int|
                            0 <= i < before.len() && #[trigger] before[i].key() == q;
                        assert(after[i].key() == q);
                    }
                    assert(has_key(before, q) == (has_key(base, q) || has_key(x, q)));
                    if q == k {
                        assert(before[at as int].key() == k);
                        assert(has_key(before, k));
                    }
                }
                assert forall|i: int| 0 <= i < after.len() implies merged_entry(
                    #[trigger] after[i],
                    base,
                    y,
                ) by {
                    if i == at {
                        // The entry came from the default result, untouched so far.
                        assert(merged_entry(before[i], base, x));
                        assert(has_key(before, k));
                        assert(has_key(before, k) == (has_key(base, k) || has_key(x, k)));
                        let a = choose|a: int|
                            0 <= a < base.len() && #[trigger] kept_entry(d0, base[a], x);
                        assert(d0.context == base[a].context);
                        assert(y[j as int].key() == base[a].key());
                        assert(d.context == merged_context(base[a].context, y[j as int].context));
                        assert(kept_entry(d, base[a], y));
                    } else {
                        assert(after[i] == before[i]);
                        if before[i].key() == k {
                            lemma_sorted_unique(before, i, at as int);
                        }
                        lemma_entry_stays(before[i], base, all, j as int);
                    }
                }
            }
        } else {
            let mut d = e;
            d.context = d.context | Dependency::FLAG_OPTIONAL;
            deps.insert(at, d);
            proof {
                let after = deps@;
                assert(after == before.insert(at as int, d));
                assert(d.key() == k);
                assert(y[j as int] == e);
                assert forall|i: int, i2: int| 0 <= i < i2 < after.len() implies key_less(
                    #[trigger] after[i].key(),
                    #[trigger] after[i2].key(),
                ) by {
                    if i2 < at {
                        assert(after[i] == before[i] && after[i2] == before[i2]);
                    } else if i2 == at {
                        assert(after[i] == before[i]);
                    } else if i < at {
                        assert(after[i] == before[i] && after[i2] == before[i2 - 1]);
                    } else if i == at {
                        assert(after[i2] == before[i2 - 1]);
                    } else {
                        assert(after[i] == before[i - 1] && after[i2] == before[i2 - 1]);
                    }
                }
                assert forall|q: DepKey| #[trigger]
                    has_key(after, q) == (has_key(base, q) || has_key(y, q)) by {
                    lemma_take_keys(all, j as int, q);
                    assert(has_key(before, q) == (has_key(base, q) || has_key(x, q)));
                    if has_key(after, q) {
                        let i = choose|i: int| 0 <= i < after.len() && #[trigger] after[i].key() == q;
                        if i < at {
                            assert(before[i].key() == q);
                        } else if i > at {
                            assert(before[i - 1].key() == q);
                        }
                    }
                    if has_key(before, q) {
                        let i = choose|i: int|
                            0 <= i < before.len() && #[trigger] before[i].key() == q;
                        if i < at {
                            assert(after[i].key() == q);
                        } else {
                            assert(after[i + 1].key() == q);
                        }
                    }
                    if q == k {
                        assert(after[at as int].key() == q);
                    }
                }
                assert(has_key(before, k) == (has_key(base, k) || has_key(x, k)));
                assert forall|i: int| 0 <= i < after.len() implies merged_entry(
                    #[trigger] after[i],
                    base,
                    y,
                ) by {
                    if i == at {
                        assert(!has_key(base, k));
                        assert(added_entry(d, y[j as int]));
                    } else {
                        let i0 = if i < at {
                            i
                        } else {
                            i - 1
                        };
                        assert(after[i] == before[i0]);
                        if before[i0].key() == k {
                            assert(has_key(before, k));
                        }
                        lemma_entry_stays(before[i0], base, all, j as int);
                    }
                }
            }
        }
        j += 1;
    }
    assert(all.take(all.len() as int) =~= all);
}

/// Where an entry of the extended list comes from: the list as it was, or
/// the first entry of its key among those added.
pub open spec fn extended_entry(f: Dependency, base: Seq<Dependency>, more: Seq<Dependency>) -> bool {
    if has_key(base, f.key()) {
        exists|a: int| 0 <= a < base.len() && #[trigger] base[a] == f
    } else {
        exists|b: int|
            0 <= b < more.len() && #[trigger] more[b] == f && forall|c: int|
                0 <= c < b ==> (#[trigger] more[c]).key() != f.key()
    }
}

/// `list` is `base` with the entries of `more` put in, each unless its name
/// and version are there already.
pub open spec fn is_extended(list: Seq<Dependency>, base: Seq<Dependency>, more: Seq<Dependency>) -> bool {
    &&& sorted(list)
    &&& forall|k: DepKey| #[trigger] has_key(list, k) == (has_key(base, k) || has_key(more, k))
    &&& forall|i: int| 0 <= i < list.len() ==> extended_entry(#[trigger] list[i], base, more)
}

proof fn lemma_extended_stays(f: Dependency, base: Seq<Dependency>, more: Seq<Dependency>, j: int)
    requires
        0 <= j < more.len(),
        extended_entry(f, base, more.take(j)),
    ensures
        extended_entry(f, base, more.take(j + 1)),
{
    let x = more.take(j);
    let y = more.take(j + 1);
    if !has_key(base, f.key()) {
        let b = choose|b: int|
            0 <= b < x.len() && #[trigger] x[b] == f && forall|c: int|
                0 <= c < b ==> (#[trigger] x[c]).key() != f.key();
        assert(y[b] == f);
        assert forall|c: int| 0 <= c < b implies (#[trigger] y[c]).key() != f.key() by {
            assert(y[c] == x[c]);
        }
    }
}

/// Puts each of the dependencies `more` in its place in the list, in their
/// order, unless the list already has one of the same name and version.
///
/// On an empty list, and with dependencies that are in order already, the
/// result is those dependencies as they were.
pub fn extend(deps: &mut Vec<Dependency>, more: Vec<Dependency>)
    requires
        sorted(old(deps)@),
    ensures
        is_extended(final(deps)@, old(deps)@, more@),
        old(deps)@.len() == 0 && sorted(more@) ==> final(deps)@ == more@,
{
    let ghost base = deps@;
    let ghost all = more@;
    let n = more.len();
    let mut rest = reversed(more);
    proof {
        assert forall|k: DepKey| !has_key(all.take(0), k) by {}
        assert forall|i: int| 0 <= i < deps@.len() implies extended_entry(
            #[trigger] deps@[i],
            base,
            all.take(0),
        ) by {
            assert(base[i] == deps@[i]);
        }
        assert(all.take(0) =~= Seq::<Dependency>::empty());
    }
    let mut j: usize = 0;
    while rest.len() > 0
        invariant
            all.len() == n,
            j + rest@.len() == all.len(),
            forall|i: int| 0 <= i < rest@.len() ==> #[trigger] rest@[i] == all[all.len() - 1 - i],
            is_extended(deps@, base, all.take(j as int)),
            base.len() == 0 && sorted(all) ==> deps@ == all.take(j as int),
        decreases rest@.len(),
    {
        let e = rest.pop().unwrap();
        assert(e == all[j as int]);
        let ghost before = deps@;
        let ghost x = all.take(j as int);
        let ghost y = all.take(j + 1);
        let ghost k = e.key();
        let ghost e0 = e;
        let added = insert(deps, e);
        proof {
            let after = deps@;
            assert(y[j as int] == e0);
            assert forall|q: DepKey| #[trigger]
                has_key(after, q) == (has_key(base, q) || has_key(y, q)) by {
                lemma_take_keys(all, j as int, q);
                assert(has_key(before, q) == (has_key(base, q) || has_key(x, q)));
                if added {
                    let at = choose|at: int|
                        0 <= at <= before.len() && after == #[trigger] before.insert(at, e0);
                    if has_key(after, q) {
                        let i = choose|i: int| 0 <= i < after.len() && #[trigger] after[i].key() == q;
                        if i < at {
                            assert(before[i].key() == q);
                        } else if i > at {
                            assert(before[i - 1].key() == q);
                        }
                    }
                    if has_key(before, q) {
                        let i = choose|i: int|
                            0 <= i < before.len() && #[trigger] before[i].key() == q;
                        if i < at {
                            assert(after[i].key() == q);
                        } else {
                            assert(after[i + 1].key() == q);
                        }
                    }
                    if q == k {
                        assert(after[at].key() == q);
                    }
                }
            }
            assert forall|i: int| 0 <= i < after.len() implies extended_entry(
                #[trigger] after[i],
                base,
                y,
            ) by {
                if added {
                    let at = choose|at: int|
                        0 <= at <= before.len() && after == #[trigger] before.insert(at, e0);
                    if i == at {
                        assert(after[i] == e0);
                        assert(!has_key(before, k));
                        assert(!has_key(base, k) && !has_key(x, k));
                        assert forall|c: int| 0 <= c < j implies (#[trigger] y[c]).key() != k by {
                            if y[c].key() == k {
                                assert(x[c].key() == k);
                            }
                        }
                    } else {
                        let i0 = if i < at {
                            i
                        } else {
                            i - 1
                        };
                        assert(after[i] == before[i0]);
                        lemma_extended_stays(before[i0], base, all, j as int);
                    }
                } else {
                    lemma_extended_stays(before[i], base, all, j as int);
                }
            }
            if base.len() == 0 && sorted(all) {
                assert(before == x);
                lemma_fresh_key(all, j as int);
                assert(added);
                let at = choose|at: int|
                    0 <= at <= before.len() && after == #[trigger] before.insert(at, e0);
                if at < before.len() {
                    // The entry at `at` would come after the new one, and before it.
                    assert(key_less(after[at].key(), after[at + 1].key()));
                    assert(after[at + 1] == x[at]);
                    assert(x[at] == all[at]);
                    assert(key_less(all[at].key(), all[j as int].key()));
                    lemma_key_asymmetric(all[at].key(), all[j as int].key());
                }
                assert(after =~= y);
            }
        }
        j += 1;
    }
    assert(all.take(all.len() as int) =~= all);
}

/// In an ordered list the entries of one name stand together: between two
/// entries of the same name, `-` counting as `_`, there is no entry of
/// another name.
pub proof fn lemma_same_name_adjacent(list: Seq<Dependency>, i: int, m: int, j: int)
    requires
        sorted(list),
        0 <= i < m < j < list.len(),
        list[i].key().name == list[j].key().name,
    ensures
        list[m].key().name == list[i].key().name,
{
    let a = list[i].key();
    let b = list[m].key();
    let c = list[j].key();
    assert(key_less(a, b));
    assert(key_less(b, c));
    if b.name != a.name {
        lemma_text_asymmetric(a.name, b.name);
    }
}

/// Two ordered lists with the same keys have them in the same places.
pub proof fn lemma_sorted_same_keys(a: Seq<Dependency>, b: Seq<Dependency>)
    requires
        sorted(a),
        sorted(b),
        forall|k: DepKey| has_key(a, k) == has_key(b, k),
    ensures
        a.len() == b.len(),
        forall|i: int| 0 <= i < a.len() ==> (#[trigger] a[i]).key() == b[i].key(),
    decreases a.len(),
{
    if a.len() == 0 {
        if b.len() > 0 {
            assert(has_key(b, b[0].key()));
            assert(has_key(a, b[0].key()));
        }
    } else {
        assert(has_key(a, a[0].key()));
        assert(has_key(b, a[0].key()));
        let j = choose|j: int| 0 <= j < b.len() && #[trigger] b[j].key() == a[0].key();
        assert(has_key(b, b[0].key()));
        assert(has_key(a, b[0].key()));
        let i = choose|i: int| 0 <= i < a.len() && #[trigger] a[i].key() == b[0].key();
        if j > 0 {
            assert(key_less(b[0].key(), b[j].key()));
            if i > 0 {
                assert(key_less(a[0].key(), a[i].key()));
                lemma_key_asymmetric(a[0].key(), a[i].key());
            } else {
                lemma_key_irreflexive(a[0].key());
            }
        }
        assert(a[0].key() == b[0].key());
        let a1 = a.skip(1);
        let b1 = b.skip(1);
        assert forall|x: int, y: int| 0 <= x < y < a1.len() implies key_less(
            #[trigger] a1[x].key(),
            #[trigger] a1[y].key(),
        ) by {
            assert(a1[x] == a[x + 1] && a1[y] == a[y + 1]);
        }
        assert forall|x: int, y: int| 0 <= x < y < b1.len() implies key_less(
            #[trigger] b1[x].key(),
            #[trigger] b1[y].key(),
        ) by {
            assert(b1[x] == b[x + 1] && b1[y] == b[y + 1]);
        }
        assert forall|k: DepKey| has_key(a1, k) == has_key(b1, k) by {
            lemma_skip_keys(a, k);
            lemma_skip_keys(b, k);
        }
        lemma_sorted_same_keys(a1, b1);
        assert forall|x: int| 0 <= x < a.len() implies (#[trigger] a[x]).key() == b[x].key() by {
            if x > 0 {
                assert(a1[x - 1] == a[x]);
                assert(b1[x - 1] == b[x]);
            }
        }
    }
}

proof fn lemma_skip_keys(a: Seq<Dependency>, k: DepKey)
    requires
        sorted(a),
        a.len() > 0,
    ensures
        has_key(a.skip(1), k) == (has_key(a, k) && k != a[0].key()),
{
    let a1 = a.skip(1);
    if has_key(a1, k) {
        let x = choose|x: int| 0 <= x < a1.len() && #[trigger] a1[x].key() == k;
        assert(a[x + 1].key() == k);
        if k == a[0].key() {
            lemma_sorted_unique(a, 0, x + 1);
        }
    }
    if has_key(a, k) && k != a[0].key() {
        let x = choose|x: int| 0 <= x < a.len() && #[trigger] a[x].key() == k;
        assert(a1[x - 1].key() == k);
    }
}

/// A dependency that the manifest adds by hand.
#[derive(Clone, Debug)]
pub struct RawCredits {
    pub name: PackageName,
    pub version: Version,
    pub license: Option<String>,
    pub authors: Vec<String>,
    pub repository: Option<String>,
    pub optional: bool,
}

impl FromSpecImpl<RawCredits> for Dependency {
    open spec fn obeys_from_spec() -> bool {
        true
    }

    /// A dependency added by hand is direct, and optional where it says so.
    open spec fn from_spec(src: RawCredits) -> Dependency {
        Dependency {
            name: src.name,
            version: src.version,
            license: src.license,
            authors: src.authors,
            url: src.repository,
            context: if src.optional {
                0b0000_0011
            } else {
                0b0000_0001
            },
        }
    }
}

impl From<RawCredits> for Dependency {
    fn from(src: RawCredits) -> (r: Dependency) {
        Dependency {
            name: src.name,
            version: src.version,
            license: src.license,
            authors: src.authors,
            url: src.repository,
            context: if src.optional {
                0b0000_0011
            } else {
                0b0000_0001
            },
        }
    }
}

/// Whether a dependency is optional or target-specific.
pub open spec fn is_conditional(d: Dependency) -> bool {
    carries(d.context, FLAG_OPTIONAL) || target_only(d.context)
}

/// The entries of the list that are conditional, or those that are not, in
/// their order.
pub open spec fn only(list: Seq<Dependency>, conditional: bool) -> Seq<Dependency>
    decreases list.len(),
{
    if list.len() == 0 {
        Seq::<Dependency>::empty()
    } else if is_conditional(list.last()) == conditional {
        only(list.drop_last(), conditional).push(list.last())
    } else {
        only(list.drop_last(), conditional)
    }
}

/// Puts the conditional dependencies after the others; within each of the two
/// the order stays.
pub fn conditional_last(deps: Vec<Dependency>) -> (out: Vec<Dependency>)
    ensures
        out@ == only(deps@, false) + only(deps@, true),
{
    let ghost all = deps@;
    let n = deps.len();
    let mut rest = reversed(deps);
    let mut plain: Vec<Dependency> = Vec::new();
    let mut cond: Vec<Dependency> = Vec::new();
    let mut j: usize = 0;
    assert(all.take(0) =~= Seq::<Dependency>::empty());
    while rest.len() > 0
        invariant
            all.len() == n,
            j + rest@.len() == all.len(),
            forall|i: int| 0 <= i < rest@.len() ==> #[trigger] rest@[i] == all[all.len() - 1 - i],
            plain@ == only(all.take(j as int), false),
            cond@ == only(all.take(j as int), true),
        decreases rest@.len(),
    {
        let d = rest.pop().unwrap();
        assert(d == all[j as int]);
        assert(all.take(j + 1).drop_last() =~= all.take(j as int));
        assert(all.take(j + 1).last() == d);
        if d.conditional() {
            cond.push(d);
        } else {
            plain.push(d);
        }
        j += 1;
    }
    assert(all.take(all.len() as int) =~= all);
    let ghost first = plain@;
    let ghost second = cond@;
    let m = cond.len();
    let mut more = reversed(cond);
    let mut k: usize = 0;
    while more.len() > 0
        invariant
            second.len() == m,
            k + more@.len() == second.len(),
            forall|i: int|
                0 <= i < more@.len() ==> #[trigger] more@[i] == second[second.len() - 1 - i],
            plain@ == first + second.take(k as int),
        decreases more@.len(),
    {
        let d = more.pop().unwrap();
        plain.push(d);
        assert(first + second.take(k + 1) =~= (first + second.take(k as int)).push(
            second[k as int],
        ));
        k += 1;
    }
    assert(second.take(second.len() as int) =~= second);
    plain
}

/// The list of a manifest: the dependencies found, with those that the
/// manifest adds by hand put in, and the conditional ones last.
pub fn with_credits(deps: Vec<Dependency>, credits: Vec<Dependency>) -> (out: Vec<Dependency>)
    requires
        sorted(deps@),
    ensures
        exists|list: Seq<Dependency>| #[trigger]
            is_extended(list, deps@, credits@) && out@ == only(list, false) + only(list, true),
{
    let mut deps = deps;
    let ghost base = deps@;
    extend(&mut deps, credits);
    let ghost list = deps@;
    let out = conditional_last(deps);
    assert(is_extended(list, base, credits@));
    out
}

/// Whether the list is in order, each entry before the next.
pub fn is_sorted(deps: &Vec<Dependency>) -> (r: bool)
    ensures
        r == sorted(deps@),
{
    if deps.len() < 2 {
        return true;
    }
    let mut i: usize = 1;
    while i < deps.len()
        invariant
            1 <= i <= deps@.len(),
            forall|a: int, b: int|
                0 <= a < b < i ==> key_less(#[trigger] deps@[a].key(), #[trigger] deps@[b].key()),
        decreases deps@.len() - i,
    {
        match deps[i - 1].compare(&deps[i]) {
            Order::Less => {
                proof {
                    assert forall|a: int, b: int| 0 <= a < b < i + 1 implies key_less(
                        #[trigger] deps@[a].key(),
                        #[trigger] deps@[b].key(),
                    ) by {
                        if b == i && a < i - 1 {
                            lemma_key_transitive(
                                deps@[a].key(),
                                deps@[i - 1].key(),
                                deps@[i as int].key(),
                            );
                        }
                    }
                }
            },
            _ => {
                proof {
                    lemma_key_total(deps@[i - 1].key(), deps@[i as int].key());
                    if sorted(deps@) {
                        assert(key_less(deps@[i - 1].key(), deps@[i as int].key()));
                        lemma_key_asymmetric(deps@[i - 1].key(), deps@[i as int].key());
                        lemma_key_irreflexive(deps@[i - 1].key());
                    }
                }
                return false;
            },
        }
        i += 1;
    }
    true
}

/// What only the result with all features has is optional: an entry of the
/// merged list whose name and version the default result lacks carries the
/// optional bit; and an entry that the result with all features lacks is an
/// entry of the default result, as it was.
pub proof fn lemma_merged_optional(
    list: Seq<Dependency>,
    base: Seq<Dependency>,
    extra: Seq<Dependency>,
    i: int,
)
    requires
        is_merged(list, base, extra),
        0 <= i < list.len(),
    ensures
        !has_key(base, list[i].key()) ==> carries(list[i].context, FLAG_OPTIONAL),
        !has_key(extra, list[i].key()) ==> exists|a: int|
            0 <= a < base.len() && same_record(list[i], #[trigger] base[a]) && list[i].context
                == base[a].context,
{
    let f = list[i];
    assert(merged_entry(f, base, extra));
    assert(has_key(list, f.key()));
    if !has_key(base, f.key()) {
        let b = choose|b: int| 0 <= b < extra.len() && #[trigger] added_entry(f, extra[b]);
        lemma_carries_or(extra[b].context, FLAG_OPTIONAL, FLAG_OPTIONAL);
        lemma_single_carries(FLAG_OPTIONAL, FLAG_OPTIONAL);
    }
    if !has_key(extra, f.key()) {
        let a = choose|a: int| 0 <= a < base.len() && #[trigger] kept_entry(f, base[a], extra);
        assert(same_record(f, base[a]) && f.context == base[a].context);
    }
}

} // verus!
