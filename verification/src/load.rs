//! Loading a payload: from the identities that the metadata uses to the
//! numbered nodes of the graph.
//!
//! The identities are kept in a table. The packages come first, each at its
//! own place; any other identity that a node, a kept edge, the root or a
//! workspace member names follows, once. The number of an identity is its
//! first place in the table.

use vstd::prelude::*;
use crate::cargo::{Raw, RawPackage};
use crate::context::{deserialize_dep_kinds, edge_retained, union_flags, RawNodeDepKind};
use crate::graph::{graph_of, valid_graph, valid_seeds, Edges, RawNodeDep};
use crate::resolve::{edges_retained, RawResolve};
use crate::text::str_eq;

verus! {

/// An edge as the metadata gives it: the identity of the child and the
/// declarations behind the edge.
#[derive(Clone, Debug)]
pub struct RawDep {
    pub pkg: String,
    pub dep_kinds: Vec<RawNodeDepKind>,
}

/// A node as the metadata gives it: its identity and its edges.
#[derive(Clone, Debug)]
pub struct RawNode {
    pub id: String,
    pub deps: Vec<RawDep>,
}

/// `i` is the first place of the identity `s` in the table.
pub open spec fn is_index(ids: Seq<String>, s: Seq<char>, i: int) -> bool {
    &&& 0 <= i < ids.len()
    &&& ids[i]@ == s
    &&& forall|j: int| 0 <= j < i ==> (#[trigger] ids[j])@ != s
}

/// The table holds the identity `s`.
pub open spec fn known(ids: Seq<String>, s: Seq<char>) -> bool {
    exists|i: int| 0 <= i < ids.len() && (#[trigger] ids[i])@ == s
}

/// The number of the identity `s`: its first place in the table.
pub open spec fn index_in(ids: Seq<String>, s: Seq<char>) -> int {
    choose|i: int| is_index(ids, s, i)
}

/// The table `b` starts with the table `a`.
pub open spec fn starts_with(b: Seq<String>, a: Seq<String>) -> bool {
    &&& a.len() <= b.len()
    &&& forall|i: int| 0 <= i < a.len() ==> #[trigger] b[i] == a[i]
}

/// An identity has one number.
pub proof fn lemma_index_is(ids: Seq<String>, s: Seq<char>, i: int)
    requires
        is_index(ids, s, i),
    ensures
        index_in(ids, s) == i,
        known(ids, s),
{
    let j = index_in(ids, s);
    assert(is_index(ids, s, j));
    if j < i {
        assert(ids[j]@ != s);
    }
    if i < j {
        assert(ids[i]@ != s);
    }
}

/// The number of an identity stays as the table grows.
pub proof fn lemma_index_stable(a: Seq<String>, b: Seq<String>, s: Seq<char>, i: int)
    requires
        starts_with(b, a),
        is_index(a, s, i),
    ensures
        is_index(b, s, i),
{
    assert(b[i] == a[i]);
    assert forall|j: int| 0 <= j < i implies (#[trigger] b[j])@ != s by {
        assert(b[j] == a[j]);
    }
}

/// The number of an identity, where the table holds it.
pub fn find_id(ids: &Vec<String>, s: &str) -> (r: Option<usize>)
    ensures
        match r {
            Some(i) => is_index(ids@, s@, i as int),
            None => !known(ids@, s@),
        },
{
    let mut i: usize = 0;
    while i < ids.len()
        invariant
            i <= ids@.len(),
            forall|j: int| 0 <= j < i ==> (#[trigger] ids@[j])@ != s@,
        decreases ids@.len() - i,
    {
        if str_eq(ids[i].as_str(), s) {
            return Some(i);
        }
        i += 1;
    }
    None
}

/// Each identity that `b` holds beyond `a` differs from all before it.
pub open spec fn new_are_fresh(a: Seq<String>, b: Seq<String>) -> bool {
    forall|i: int, j: int|
        a.len() <= i < b.len() && 0 <= j < i ==> (#[trigger] b[j])@ != (#[trigger] b[i])@
}

/// The number of an identity; the identity is added to the table where the
/// table does not hold it yet.
pub fn add_id(ids: &mut Vec<String>, s: &str) -> (r: usize)
    ensures
        starts_with(final(ids)@, old(ids)@),
        is_index(final(ids)@, s@, r as int),
        known(old(ids)@, s@) ==> final(ids)@ == old(ids)@,
        !known(old(ids)@, s@) ==> final(ids)@ == old(ids)@.push(final(ids)@[old(ids)@.len() as int])
            && r == old(ids)@.len(),
        new_are_fresh(old(ids)@, final(ids)@),
{
    match find_id(ids, s) {
        Some(i) => {
            proof {
                lemma_index_is(ids@, s@, i as int);
            }
            i
        },
        None => {
            let ghost before = ids@;
            let i = ids.len();
            ids.push(s.to_owned());
            proof {
                assert(ids@[i as int]@ == s@);
                assert forall|j: int| 0 <= j < i implies (#[trigger] ids@[j])@ != s@ by {
                    assert(ids@[j] == before[j]);
                }
                assert(ids@ =~= before.push(ids@[i as int]));
            }
            i
        },
    }
}

/// The edges of a node with numbered children: the edges whose declarations
/// leave a flag, each with the number of its child and that flag.
pub open spec fn kept_row(ids: Seq<String>, deps: Seq<RawDep>) -> Seq<RawNodeDep>
    decreases deps.len(),
{
    if deps.len() == 0 {
        Seq::<RawNodeDep>::empty()
    } else {
        let d = deps.last();
        let front = kept_row(ids, deps.drop_last());
        if union_flags(d.dep_kinds@) != 0 {
            front.push(
                RawNodeDep {
                    id: index_in(ids, d.pkg@) as usize,
                    dep_kinds: union_flags(d.dep_kinds@),
                },
            )
        } else {
            front
        }
    }
}

/// The table holds the child of every kept edge.
pub open spec fn row_known(ids: Seq<String>, deps: Seq<RawDep>) -> bool {
    forall|k: int|
        0 <= k < deps.len() && union_flags((#[trigger] deps[k]).dep_kinds@) != 0 ==> known(
            ids,
            deps[k].pkg@,
        )
}

/// The first place of an identity that the table holds.
proof fn lemma_known_index(ids: Seq<String>, s: Seq<char>) -> (i: int)
    requires
        known(ids, s),
    ensures
        is_index(ids, s, i),
    decreases ids.len(),
{
    let w = choose|i: int| 0 <= i < ids.len() && (#[trigger] ids[i])@ == s;
    let front = ids.drop_last();
    if w < ids.len() - 1 {
        assert(front[w] == ids[w]);
        assert(known(front, s));
        let i = lemma_known_index(front, s);
        assert(ids[i] == front[i]);
        assert forall|j: int| 0 <= j < i implies (#[trigger] ids[j])@ != s by {
            assert(ids[j] == front[j]);
        }
        i
    } else if known(front, s) {
        let i = lemma_known_index(front, s);
        assert(ids[i] == front[i]);
        assert forall|j: int| 0 <= j < i implies (#[trigger] ids[j])@ != s by {
            assert(ids[j] == front[j]);
        }
        i
    } else {
        assert forall|j: int| 0 <= j < w implies (#[trigger] ids[j])@ != s by {
            if ids[j]@ == s {
                assert(front[j] == ids[j]);
                assert(known(front, s));
            }
        }
        w
    }
}

/// The edges of a node stay as the table grows.
pub proof fn lemma_row_stable(a: Seq<String>, b: Seq<String>, deps: Seq<RawDep>)
    requires
        starts_with(b, a),
        row_known(a, deps),
    ensures
        kept_row(b, deps) == kept_row(a, deps),
        row_known(b, deps),
    decreases deps.len(),
{
    assert forall|k: int|
        0 <= k < deps.len() && union_flags((#[trigger] deps[k]).dep_kinds@) != 0 implies known(
        b,
        deps[k].pkg@,
    ) by {
        let i = lemma_known_index(a, deps[k].pkg@);
        lemma_index_stable(a, b, deps[k].pkg@, i);
        lemma_index_is(b, deps[k].pkg@, i);
    }
    if deps.len() > 0 {
        let front = deps.drop_last();
        assert forall|k: int|
            0 <= k < front.len() && union_flags((#[trigger] front[k]).dep_kinds@) != 0 implies known(
            a,
            front[k].pkg@,
        ) by {
            assert(front[k] == deps[k]);
        }
        lemma_row_stable(a, b, front);
        let d = deps.last();
        if union_flags(d.dep_kinds@) != 0 {
            assert(deps[deps.len() - 1] == d);
            let i = lemma_known_index(a, d.pkg@);
            lemma_index_is(a, d.pkg@, i);
            lemma_index_stable(a, b, d.pkg@, i);
            lemma_index_is(b, d.pkg@, i);
        }
    }
}

/// One of the first `upto` edges is kept and has the child `s`.
pub open spec fn names_child(deps: Seq<RawDep>, upto: int, s: Seq<char>) -> bool {
    exists|j: int|
        0 <= j < upto && j < deps.len() && union_flags((#[trigger] deps[j]).dep_kinds@) != 0
            && deps[j].pkg@ == s
}

/// Every edge of the row leads to a node below `n` and carries a
/// classified flag.
pub open spec fn row_sound(row: Seq<RawNodeDep>, n: nat) -> bool {
    forall|k: int|
        0 <= k < row.len() ==> (#[trigger] row[k]).id < n && edge_retained(row[k].dep_kinds)
}

/// The kept edges of a node, with numbered children. An edge whose
/// declarations are all for development, or can never apply, is dropped.
pub fn deserialize_deps(ids: &mut Vec<String>, deps: &Vec<RawDep>) -> (row: Vec<RawNodeDep>)
    ensures
        starts_with(final(ids)@, old(ids)@),
        row@ == kept_row(final(ids)@, deps@),
        row_known(final(ids)@, deps@),
        row_sound(row@, final(ids)@.len()),
        forall|i: int|
            old(ids)@.len() <= i < final(ids)@.len() ==> names_child(
                deps@,
                deps@.len() as int,
                (#[trigger] final(ids)@[i])@,
            ),
        new_are_fresh(old(ids)@, final(ids)@),
{
    let ghost start = ids@;
    let mut row: Vec<RawNodeDep> = Vec::new();
    let mut k: usize = 0;
    assert(deps@.take(0) =~= Seq::<RawDep>::empty());
    while k < deps.len()
        invariant
            k <= deps@.len(),
            starts_with(ids@, start),
            row@ == kept_row(ids@, deps@.take(k as int)),
            row_known(ids@, deps@.take(k as int)),
            row_sound(row@, ids@.len()),
            forall|i: int|
                start.len() <= i < ids@.len() ==> names_child(
                    deps@,
                    k as int,
                    (#[trigger] ids@[i])@,
                ),
            new_are_fresh(start, ids@),
        decreases deps@.len() - k,
    {
        let ghost table = ids@;
        let ghost done = deps@.take(k as int);
        let ghost next = deps@.take(k + 1);
        let ghost before = row@;
        let d = &deps[k];
        assert(next.drop_last() =~= done);
        assert(next.last() == deps@[k as int]);
        let f = deserialize_dep_kinds(&d.dep_kinds);
        if f != 0 {
            let c = add_id(ids, d.pkg.as_str());
            row.push(RawNodeDep { id: c, dep_kinds: f });
            proof {
                lemma_fresh_grows(start, table, ids@);
                lemma_row_stable(table, ids@, done);
                lemma_index_is(ids@, d.pkg@, c as int);
                assert(row@ == kept_row(ids@, next));
                assert forall|j: int|
                    0 <= j < next.len() && union_flags((#[trigger] next[j]).dep_kinds@)
                        != 0 implies known(ids@, next[j].pkg@) by {
                    if j < k {
                        assert(done[j] == next[j]);
                    }
                }
                assert forall|j: int| 0 <= j < row@.len() implies (#[trigger] row@[j]).id < ids@.len()
                    && edge_retained(row@[j].dep_kinds) by {
                    if j < before.len() {
                        assert(row@[j] == before[j]);
                    }
                }
                assert forall|i: int| start.len() <= i < ids@.len() implies names_child(
                    deps@,
                    k + 1,
                    (#[trigger] ids@[i])@,
                ) by {
                    if i < table.len() {
                        assert(ids@[i] == table[i]);
                        assert(names_child(deps@, k as int, table[i]@));
                        let j = choose|j: int|
                            0 <= j < k && j < deps@.len() && union_flags(
                                (#[trigger] deps@[j]).dep_kinds@,
                            ) != 0 && deps@[j].pkg@ == table[i]@;
                        assert(union_flags(deps@[j].dep_kinds@) != 0 && deps@[j].pkg@ == ids@[i]@);
                    } else {
                        assert(!known(table, d.pkg@));
                        assert(i == table.len());
                        assert(ids@[i]@ == d.pkg@);
                        assert(union_flags(deps@[k as int].dep_kinds@) != 0 && deps@[k as int].pkg@
                            == ids@[i]@);
                    }
                }
            }
        } else {
            proof {
                assert(row@ == kept_row(ids@, next));
                assert forall|j: int|
                    0 <= j < next.len() && union_flags((#[trigger] next[j]).dep_kinds@)
                        != 0 implies known(ids@, next[j].pkg@) by {
                    if j < k {
                        assert(done[j] == next[j]);
                    }
                }
                assert forall|i: int| start.len() <= i < ids@.len() implies names_child(
                    deps@,
                    k + 1,
                    (#[trigger] ids@[i])@,
                ) by {
                    assert(names_child(deps@, k as int, ids@[i]@));
                    let j = choose|j: int|
                        0 <= j < k && j < deps@.len() && union_flags(
                            (#[trigger] deps@[j]).dep_kinds@,
                        ) != 0 && deps@[j].pkg@ == ids@[i]@;
                    assert(union_flags(deps@[j].dep_kinds@) != 0 && deps@[j].pkg@ == ids@[i]@);
                }
            }
        }
        k += 1;
    }
    assert(deps@.take(deps@.len() as int) =~= deps@);
    row
}

/// Freshness goes on as the table grows.
pub proof fn lemma_fresh_grows(a: Seq<String>, b: Seq<String>, c: Seq<String>)
    requires
        starts_with(b, a),
        starts_with(c, b),
        new_are_fresh(a, b),
        new_are_fresh(b, c),
    ensures
        starts_with(c, a),
        new_are_fresh(a, c),
{
    assert forall|i: int| 0 <= i < a.len() implies #[trigger] c[i] == a[i] by {
        assert(c[i] == b[i]);
    }
    assert forall|i: int, j: int| a.len() <= i < c.len() && 0 <= j < i implies (#[trigger] c[j])@ != (
    #[trigger] c[i])@ by {
        if i < b.len() {
            assert(c[i] == b[i] && c[j] == b[j]);
        }
    }
}

/// The table of the identities of the packages, each at its own place.
pub fn table_of(packages: &Vec<RawPackage>) -> (ids: Vec<String>)
    ensures
        ids@.len() == packages@.len(),
        forall|i: int| 0 <= i < ids@.len() ==> (#[trigger] ids@[i])@ == packages@[i].id@,
{
    let mut ids: Vec<String> = Vec::new();
    let mut i: usize = 0;
    while i < packages.len()
        invariant
            i <= packages@.len(),
            ids@.len() == i,
            forall|j: int| 0 <= j < i ==> (#[trigger] ids@[j])@ == packages@[j].id@,
        decreases packages@.len() - i,
    {
        ids.push(packages[i].id.clone());
        i += 1;
    }
    ids
}

/// What holds of the numbered nodes so far: each has its number and its
/// kept edges, by the table as it stands.
pub open spec fn rows_ok(
    ids: Seq<String>,
    nodes: Seq<RawNode>,
    idx: Seq<usize>,
    rows: Seq<Vec<RawNodeDep>>,
) -> bool {
    &&& idx.len() == rows.len()
    &&& idx.len() <= nodes.len()
    &&& forall|j: int| 0 <= j < idx.len() ==> is_index(ids, nodes[j].id@, #[trigger] idx[j] as int)
    &&& forall|j: int|
        0 <= j < rows.len() ==> (#[trigger] rows[j])@ == kept_row(ids, nodes[j].deps@) && row_known(
            ids,
            nodes[j].deps@,
        ) && row_sound(rows[j]@, ids.len())
}

proof fn lemma_rows_stable(
    a: Seq<String>,
    b: Seq<String>,
    nodes: Seq<RawNode>,
    idx: Seq<usize>,
    rows: Seq<Vec<RawNodeDep>>,
)
    requires
        starts_with(b, a),
        rows_ok(a, nodes, idx, rows),
    ensures
        rows_ok(b, nodes, idx, rows),
{
    assert forall|j: int| 0 <= j < idx.len() implies is_index(
        b,
        nodes[j].id@,
        #[trigger] idx[j] as int,
    ) by {
        lemma_index_stable(a, b, nodes[j].id@, idx[j] as int);
    }
    assert forall|j: int| 0 <= j < rows.len() implies (#[trigger] rows[j])@ == kept_row(
        b,
        nodes[j].deps@,
    ) && row_known(b, nodes[j].deps@) && row_sound(rows[j]@, b.len()) by {
        assert(rows[j]@ == kept_row(a, nodes[j].deps@) && row_known(a, nodes[j].deps@)
            && row_sound(rows[j]@, a.len()));
        lemma_row_stable(a, b, nodes[j].deps@);
        assert forall|k: int| 0 <= k < rows[j]@.len() implies (#[trigger] rows[j]@[k]).id < b.len()
            && edge_retained(rows[j]@[k].dep_kinds) by {}
    }
}

/// The identity `s` is that of one of the first `upto` nodes, or of the child
/// of a kept edge of one of them.
pub open spec fn named_by_nodes(nodes: Seq<RawNode>, upto: int, s: Seq<char>) -> bool {
    exists|j: int|
        0 <= j < upto && j < nodes.len() && ((#[trigger] nodes[j]).id@ == s || names_child(
            nodes[j].deps@,
            nodes[j].deps@.len() as int,
            s,
        ))
}

/// Numbers the nodes and their kept edges.
pub fn number_nodes(ids: &mut Vec<String>, nodes: &Vec<RawNode>) -> (r: (
    Vec<usize>,
    Vec<Vec<RawNodeDep>>,
))
    ensures
        starts_with(final(ids)@, old(ids)@),
        new_are_fresh(old(ids)@, final(ids)@),
        r.0@.len() == nodes@.len(),
        rows_ok(final(ids)@, nodes@, r.0@, r.1@),
        forall|i: int|
            old(ids)@.len() <= i < final(ids)@.len() ==> named_by_nodes(
                nodes@,
                nodes@.len() as int,
                (#[trigger] final(ids)@[i])@,
            ),
{
    let ghost start = ids@;
    let mut idx: Vec<usize> = Vec::new();
    let mut rows: Vec<Vec<RawNodeDep>> = Vec::new();
    let mut j: usize = 0;
    while j < nodes.len()
        invariant
            j <= nodes@.len(),
            idx@.len() == j,
            starts_with(ids@, start),
            new_are_fresh(start, ids@),
            rows_ok(ids@, nodes@, idx@, rows@),
            forall|i: int|
                start.len() <= i < ids@.len() ==> named_by_nodes(
                    nodes@,
                    j as int,
                    (#[trigger] ids@[i])@,
                ),
        decreases nodes@.len() - j,
    {
        let ghost t0 = ids@;
        let ghost idx0 = idx@;
        let ghost rows0 = rows@;
        let node = &nodes[j];
        let a = add_id(ids, node.id.as_str());
        let ghost t1 = ids@;
        let row = deserialize_deps(ids, &node.deps);
        let ghost t2 = ids@;
        idx.push(a);
        rows.push(row);
        proof {
            lemma_fresh_grows(start, t0, t1);
            lemma_fresh_grows(start, t1, t2);
            lemma_fresh_grows(t0, t1, t2);
            lemma_rows_stable(t0, t2, nodes@, idx0, rows0);
            lemma_index_stable(t1, t2, node.id@, a as int);
            assert forall|m: int| 0 <= m < idx@.len() implies is_index(
                t2,
                nodes@[m].id@,
                #[trigger] idx@[m] as int,
            ) by {
                if m < j {
                    assert(idx@[m] == idx0[m]);
                }
            }
            assert forall|m: int| 0 <= m < rows@.len() implies (#[trigger] rows@[m])@ == kept_row(
                t2,
                nodes@[m].deps@,
            ) && row_known(t2, nodes@[m].deps@) && row_sound(rows@[m]@, t2.len()) by {
                if m < j {
                    assert(rows@[m] == rows0[m]);
                }
            }
            assert forall|i: int| start.len() <= i < t2.len() implies named_by_nodes(
                nodes@,
                j + 1,
                (#[trigger] t2[i])@,
            ) by {
                if i < t0.len() {
                    assert(t2[i] == t0[i]);
                    assert(named_by_nodes(nodes@, j as int, t0[i]@));
                    let m = choose|m: int|
                        0 <= m < j && m < nodes@.len() && ((#[trigger] nodes@[m]).id@ == t0[i]@
                            || names_child(nodes@[m].deps@, nodes@[m].deps@.len() as int, t0[i]@));
                    assert(nodes@[m].id@ == t2[i]@ || names_child(
                        nodes@[m].deps@,
                        nodes@[m].deps@.len() as int,
                        t2[i]@,
                    ));
                } else if i < t1.len() {
                    assert(t2[i] == t1[i]);
                    assert(!known(t0, node.id@));
                    assert(i == t0.len());
                    assert(t1[i]@ == node.id@);
                    assert(nodes@[j as int].id@ == t2[i]@);
                } else {
                    assert(names_child(node.deps@, node.deps@.len() as int, t2[i]@));
                    assert(nodes@[j as int].id@ == t2[i]@ || names_child(
                        nodes@[j as int].deps@,
                        nodes@[j as int].deps@.len() as int,
                        t2[i]@,
                    ));
                }
            }
        }
        j += 1;
    }
    (idx, rows)
}

/// `j` is the last place of `a` in the list.
pub open spec fn last_at(idx: Seq<usize>, a: int, j: int) -> bool {
    &&& 0 <= j < idx.len()
    &&& idx[j] == a
    &&& forall|m: int| j < m < idx.len() ==> #[trigger] idx[m] != a
}

/// Puts the rows at the places of their nodes, in a table of `n` nodes: of
/// several rows for one node the last counts, and a node without a row has no
/// edges.
pub fn place_rows(n: usize, idx: &Vec<usize>, rows: Vec<Vec<RawNodeDep>>) -> (out: Vec<
    Vec<RawNodeDep>,
>)
    requires
        idx@.len() == rows@.len(),
        forall|j: int| 0 <= j < idx@.len() ==> #[trigger] idx@[j] < n,
    ensures
        out@.len() == n,
        forall|a: int, j: int|
            0 <= a < n && #[trigger] last_at(idx@, a, j) ==> out@[a]@ == rows@[j]@,
        forall|a: int|
            0 <= a < n && (forall|j: int| 0 <= j < idx@.len() ==> #[trigger] idx@[j] != a)
                ==> (#[trigger] out@[a])@.len() == 0,
        forall|a: int|
            0 <= a < n ==> (#[trigger] out@[a])@.len() == 0 || exists|j: int| #[trigger]
                last_at(idx@, a, j) && out@[a]@ == rows@[j]@,
{
    let ghost all = rows@;
    let mut rows = rows;
    let mut out: Vec<Vec<RawNodeDep>> = Vec::new();
    let mut filled: Vec<bool> = Vec::new();
    while out.len() < n
        invariant
            out@.len() <= n,
            filled@.len() == out@.len(),
            forall|a: int| 0 <= a < out@.len() ==> (#[trigger] out@[a])@.len() == 0,
            forall|a: int| 0 <= a < filled@.len() ==> !#[trigger] filled@[a],
        decreases n - out@.len(),
    {
        out.push(Vec::new());
        filled.push(false);
    }
    let mut j: usize = rows.len();
    while j > 0
        invariant
            j <= all.len(),
            all.len() == idx@.len(),
            rows@ == all.take(j as int),
            out@.len() == n,
            filled@.len() == n,
            forall|m: int| 0 <= m < idx@.len() ==> #[trigger] idx@[m] < n,
            forall|a: int|
                0 <= a < n ==> (#[trigger] filled@[a] <==> exists|m: int|
                    j <= m < idx@.len() && #[trigger] idx@[m] == a),
            forall|a: int| 0 <= a < n && !filled@[a] ==> (#[trigger] out@[a])@.len() == 0,
            forall|a: int, m: int|
                0 <= a < n && j <= m && #[trigger] last_at(idx@, a, m) ==> out@[a]@ == all[m]@,
            forall|a: int|
                0 <= a < n && #[trigger] filled@[a] ==> exists|m: int| #[trigger]
                    last_at(idx@, a, m) && out@[a]@ == all[m]@,
        decreases j,
    {
        let ghost before = out@;
        let ghost was = filled@;
        let row = rows.pop().unwrap();
        j -= 1;
        assert(row == all[j as int]);
        let a = idx[j];
        if !filled[a] {
            out.set(a, row);
            filled.set(a, true);
            proof {
                assert(last_at(idx@, a as int, j as int)) by {
                    assert forall|m: int| j < m < idx@.len() implies #[trigger] idx@[m] != a by {
                        if idx@[m] == a {
                            assert(was[a as int]);
                        }
                    }
                }
            }
        }
        proof {
            assert forall|b: int| 0 <= b < n implies (#[trigger] filled@[b] <==> exists|m: int|
                j <= m < idx@.len() && #[trigger] idx@[m] == b) by {
                if filled@[b] {
                    if was[b] {
                        let m = choose|m: int| j + 1 <= m < idx@.len() && #[trigger] idx@[m] == b;
                        assert(j <= m && idx@[m] == b);
                    } else {
                        assert(idx@[j as int] == b);
                    }
                }
                if exists|m: int| j <= m < idx@.len() && #[trigger] idx@[m] == b {
                    let m = choose|m: int| j <= m < idx@.len() && #[trigger] idx@[m] == b;
                    if m > j {
                        assert(was[b]);
                    }
                }
            }
            assert forall|b: int| 0 <= b < n && #[trigger] filled@[b] implies exists|m: int| #[trigger]
                last_at(idx@, b, m) && out@[b]@ == all[m]@ by {
                if was[b] {
                    let m = choose|m: int| #[trigger] last_at(idx@, b, m) && before[b]@ == all[m]@;
                    assert(out@[b] == before[b]);
                    assert(last_at(idx@, b, m) && out@[b]@ == all[m]@);
                } else {
                    assert(last_at(idx@, b, j as int) && out@[b]@ == all[j as int]@);
                }
            }
            assert forall|b: int, m: int|
                0 <= b < n && j <= m && #[trigger] last_at(idx@, b, m) implies out@[b]@ == all[m]@ by {
                if m == j {
                    assert(!was[b]) by {
                        if was[b] {
                            let m2 = choose|m2: int|
                                j + 1 <= m2 < idx@.len() && #[trigger] idx@[m2] == b;
                            assert(idx@[m2] != b);
                        }
                    }
                } else {
                    assert(was[b]) by {
                        assert(idx@[m] == b);
                    }
                    assert(out@[b] == before[b]);
                }
            }
        }
    }
    proof {
        assert forall|a: int|
            0 <= a < n && (forall|m: int| 0 <= m < idx@.len() ==> #[trigger] idx@[m] != a) implies (
        #[trigger] out@[a])@.len() == 0 by {
            if filled@[a] {
                let m = choose|m: int| 0 <= m < idx@.len() && #[trigger] idx@[m] == a;
                assert(idx@[m] != a);
            }
        }
    }
    out
}

/// Node `a` of the graph is named by node `j` of the metadata and by none
/// after it.
pub open spec fn is_last_node(ids: Seq<String>, nodes: Seq<RawNode>, a: int, j: int) -> bool {
    &&& 0 <= j < nodes.len()
    &&& index_in(ids, nodes[j].id@) == a
    &&& forall|m: int| j < m < nodes.len() ==> index_in(ids, (#[trigger] nodes[m]).id@) != a
}

/// No node of the metadata names node `a` of the graph.
pub open spec fn unnamed(ids: Seq<String>, nodes: Seq<RawNode>, a: int) -> bool {
    forall|j: int| 0 <= j < nodes.len() ==> index_in(ids, (#[trigger] nodes[j]).id@) != a
}

/// The graph holds, for each identity of the table, the kept edges of the
/// last node of the metadata with that identity, and no edges where there is
/// no such node.
pub open spec fn loaded(ids: Seq<String>, nodes: Seq<RawNode>, g: Edges) -> bool {
    &&& g.len() == ids.len()
    &&& forall|a: int, j: int|
        0 <= a < g.len() && #[trigger] is_last_node(ids, nodes, a, j) ==> g[a] == kept_row(
            ids,
            nodes[j].deps@,
        )
    &&& forall|a: int| 0 <= a < g.len() && unnamed(ids, nodes, a) ==> (#[trigger] g[a]).len() == 0
}

/// The identity `s` is the root, or one of the first `upto` members.
pub open spec fn named_as_seed(
    root: Option<&str>,
    members: Seq<String>,
    upto: int,
    s: Seq<char>,
) -> bool {
    ||| (root matches Some(r) && r@ == s)
    ||| exists|j: int| 0 <= j < upto && j < members.len() && (#[trigger] members[j])@ == s
}

/// The metadata names the identity `s`: as a node, as the child of a kept
/// edge, as the root or as a workspace member.
pub open spec fn mentioned(
    nodes: Seq<RawNode>,
    root: Option<&str>,
    members: Seq<String>,
    s: Seq<char>,
) -> bool {
    named_by_nodes(nodes, nodes.len() as int, s) || named_as_seed(
        root,
        members,
        members.len() as int,
        s,
    )
}

/// The members are numbered by the table.
pub open spec fn members_numbered(ids: Seq<String>, members: Seq<String>, out: Seq<usize>) -> bool {
    &&& out.len() == members.len()
    &&& forall|i: int| 0 <= i < out.len() ==> is_index(ids, members[i]@, #[trigger] out[i] as int)
}

impl Raw {
    /// Loads a payload. The result holds the packages as they are, the graph
    /// with numbered nodes, and with it the table of identities: the number
    /// of a node is the first place of its identity there.
    ///
    /// - The packages stand first in the table, each at its own place; what
    ///   follows is named somewhere in the metadata, each identity once.
    /// - An edge is kept where its declarations leave a flag, and carries
    ///   that flag.
    /// - Of several nodes of one identity the last counts.
    pub fn new(
        packages: Vec<RawPackage>,
        nodes: &Vec<RawNode>,
        root: Option<&str>,
        members: &Vec<String>,
    ) -> (r: (Raw, Vec<String>))
        ensures
            r.0.wf(),
            r.0.packages == packages,
            packages@.len() <= r.1@.len(),
            forall|i: int| 0 <= i < packages@.len() ==> (#[trigger] r.1@[i])@ == packages@[i].id@,
            forall|i: int, j: int|
                packages@.len() <= i < r.1@.len() && 0 <= j < i ==> (#[trigger] r.1@[j])@ != (
                #[trigger] r.1@[i])@,
            forall|i: int|
                packages@.len() <= i < r.1@.len() ==> mentioned(
                    nodes@,
                    root,
                    members@,
                    (#[trigger] r.1@[i])@,
                ),
            loaded(r.1@, nodes@, r.0.graph()),
            match root {
                Some(s) => r.0.resolve.root matches Some(x) && is_index(r.1@, s@, x as int),
                None => r.0.resolve.root is None,
            },
            members_numbered(r.1@, members@, r.0.workspace_members@),
    {
        let mut ids = table_of(&packages);
        let ghost t0 = ids@;
        let (idx, rows) = number_nodes(&mut ids, nodes);
        let ghost t1 = ids@;
        let root_at: Option<usize> = match root {
            Some(s) => Some(add_id(&mut ids, s)),
            None => None,
        };
        let ghost t2 = ids@;
        proof {
            lemma_fresh_grows(t0, t1, t2);
            assert forall|i: int| t0.len() <= i < t2.len() implies named_by_nodes(
                nodes@,
                nodes@.len() as int,
                (#[trigger] t2[i])@,
            ) || named_as_seed(root, members@, 0, t2[i]@) by {
                if i < t1.len() {
                    assert(t2[i] == t1[i]);
                } else {
                    assert(!known(t1, root->0@));
                    assert(i == t1.len());
                }
            }
        }
        let mut ms: Vec<usize> = Vec::new();
        let mut k: usize = 0;
        while k < members.len()
            invariant
                k <= members@.len(),
                ms@.len() == k,
                starts_with(ids@, t2),
                starts_with(ids@, t0),
                new_are_fresh(t0, ids@),
                forall|i: int|
                    0 <= i < k ==> is_index(ids@, members@[i]@, #[trigger] ms@[i] as int),
                forall|i: int|
                    t0.len() <= i < ids@.len() ==> named_by_nodes(
                        nodes@,
                        nodes@.len() as int,
                        (#[trigger] ids@[i])@,
                    ) || named_as_seed(root, members@, k as int, ids@[i]@),
            decreases members@.len() - k,
        {
            let ghost t = ids@;
            let ghost ms0 = ms@;
            let m = add_id(&mut ids, members[k].as_str());
            ms.push(m);
            proof {
                lemma_fresh_grows(t0, t, ids@);
                assert forall|i: int| 0 <= i < t2.len() implies #[trigger] ids@[i] == t2[i] by {
                    assert(ids@[i] == t[i]);
                }
                assert forall|i: int| 0 <= i < k + 1 implies is_index(
                    ids@,
                    members@[i]@,
                    #[trigger] ms@[i] as int,
                ) by {
                    if i < k {
                        assert(ms@[i] == ms0[i]);
                        lemma_index_stable(t, ids@, members@[i]@, ms0[i] as int);
                    }
                }
                assert forall|i: int| t0.len() <= i < ids@.len() implies named_by_nodes(
                    nodes@,
                    nodes@.len() as int,
                    (#[trigger] ids@[i])@,
                ) || named_as_seed(root, members@, k + 1, ids@[i]@) by {
                    if i < t.len() {
                        assert(ids@[i] == t[i]);
                        if named_as_seed(root, members@, k as int, t[i]@) {
                            if !(root matches Some(r) && r@ == t[i]@) {
                                let j = choose|j: int|
                                    0 <= j < k && j < members@.len() && (#[trigger] members@[j])@
                                        == t[i]@;
                                assert(members@[j]@ == ids@[i]@);
                            }
                        }
                    } else {
                        assert(!known(t, members@[k as int]@));
                        assert(i == t.len());
                        assert(members@[k as int]@ == ids@[i]@);
                    }
                }
            }
            k += 1;
        }
        let n = ids.len();
        proof {
            lemma_rows_stable(t1, ids@, nodes@, idx@, rows@);
            assert forall|j: int| 0 <= j < idx@.len() implies #[trigger] idx@[j] < n by {
                assert(is_index(ids@, nodes@[j].id@, idx@[j] as int));
            }
        }
        let ghost rows0 = rows@;
        let out = place_rows(n, &idx, rows);
        let ghost g = graph_of(out@);
        proof {
            let table = ids@;
            assert forall|a: int, e: int| 0 <= a < g.len() && 0 <= e < g[a].len() implies (
            #[trigger] g[a][e]).id < g.len() && edge_retained(g[a][e].dep_kinds) by {
                assert(g[a] == out@[a]@);
                let j = choose|j: int| #[trigger] last_at(idx@, a, j) && out@[a]@ == rows0[j]@;
                assert(row_sound(rows0[j]@, table.len()));
                assert(rows0[j]@[e] == g[a][e]);
            }
            assert forall|a: int, j: int|
                0 <= a < g.len() && #[trigger] is_last_node(table, nodes@, a, j) implies g[a]
                == kept_row(table, nodes@[j].deps@) by {
                assert(is_index(table, nodes@[j].id@, idx@[j] as int));
                lemma_index_is(table, nodes@[j].id@, idx@[j] as int);
                assert forall|m: int| j < m < idx@.len() implies #[trigger] idx@[m] != a by {
                    assert(is_index(table, nodes@[m].id@, idx@[m] as int));
                    lemma_index_is(table, nodes@[m].id@, idx@[m] as int);
                    assert(index_in(table, nodes@[m].id@) != a);
                }
                assert(last_at(idx@, a, j));
                assert(g[a] == out@[a]@);
                assert(rows0[j]@ == kept_row(table, nodes@[j].deps@));
            }
            assert forall|a: int| 0 <= a < g.len() && unnamed(table, nodes@, a) implies (
            #[trigger] g[a]).len() == 0 by {
                assert forall|j: int| 0 <= j < idx@.len() implies #[trigger] idx@[j] != a by {
                    assert(is_index(table, nodes@[j].id@, idx@[j] as int));
                    lemma_index_is(table, nodes@[j].id@, idx@[j] as int);
                    assert(index_in(table, nodes@[j].id@) != a);
                }
                assert(out@[a]@.len() == 0);
            }
            match root {
                Some(s) => {
                    lemma_index_stable(t2, table, s@, root_at->0 as int);
                },
                None => {},
            }
            assert forall|i: int| 0 <= i < ms@.len() implies #[trigger] ms@[i] < n by {
                assert(is_index(table, members@[i]@, ms@[i] as int));
            }
            assert forall|i: int| 0 <= i < packages@.len() implies (#[trigger] table[i])@
                == packages@[i].id@ by {
                assert(table[i] == t0[i]);
            }
        }
        let raw = Raw {
            packages,
            workspace_members: ms,
            resolve: RawResolve { nodes: out, root: root_at },
        };
        (raw, ids)
    }
}

} // verus!
