//! Settling the graph: which nodes are used, and with what flags.
//!
//! The graph is walked three times from the same seeds: over every edge, to
//! find the used nodes; over the runtime edges, to find what is live at
//! runtime; and over the unconditional edges, to find what applies whatever
//! the target. The edges of a used node that is not live at runtime count as
//! build edges, and those of a used node that no unconditional path reaches
//! count as conditional.

use vstd::prelude::*;
use crate::context::{
    build_only, carries, edge_retained, force_build, force_cfg, lemma_carries_or,
    lemma_carries_zero, lemma_clear_cfg, lemma_edge_bits, lemma_force_build, lemma_force_cfg,
    lemma_join_bits, lemma_masks, lemma_same_bits, lemma_single_carries, lemma_single_zero,
    single, target_only, CLEAR_CTX, CLEAR_TARGET,
    CLEAR_TARGET_CFG, FLAG_CTX_BUILD, FLAG_CTX_NORMAL, FLAG_DIRECT, FLAG_OPTIONAL,
    FLAG_TARGET_ANY, FLAG_TARGET_CFG,
};
use crate::graph::{
    has_edge, lemma_edge_at, lemma_edge_place, lemma_reach_any_mask, lemma_reach_parent,
    lemma_reach_step, graph_of, reach, reachable, valid_graph, valid_seeds, Edges, RawNodeDep,
};

verus! {

/// The resolved graph: the edges of each node, and the root where there is
/// one.
pub struct RawResolve {
    /// For each node, its edges.
    pub nodes: Vec<Vec<RawNodeDep>>,
    /// The root package.
    pub root: Option<usize>,
}

/// Where a walk starts: at the root, or, without a root, at every workspace
/// member.
pub open spec fn seeds_of(root: Option<usize>, members: Seq<usize>) -> Seq<usize> {
    match root {
        Some(r) => seq![r],
        None => members,
    }
}

/// Whether `p` is one of the workspace members.
pub open spec fn is_member(members: Seq<usize>, p: int) -> bool {
    exists|i: int| 0 <= i < members.len() && #[trigger] members[i] == p
}

/// The flags of an edge of parent `p` once the graph is settled.
pub open spec fn settled(g: Edges, seeds: Seq<usize>, members: Seq<usize>, p: int, f: u8) -> u8 {
    let a = if reachable(g, FLAG_CTX_NORMAL, seeds, p) {
        f
    } else {
        force_build(f)
    };
    let b = if reachable(g, FLAG_TARGET_ANY, seeds, p) {
        a
    } else {
        force_cfg(a)
    };
    if is_member(members, p) {
        b | FLAG_DIRECT
    } else {
        b
    }
}

/// The `k`-th edge of `p` once the graph is settled.
pub open spec fn settled_edge(
    g: Edges,
    seeds: Seq<usize>,
    members: Seq<usize>,
    p: int,
    k: int,
) -> RawNodeDep {
    RawNodeDep { id: g[p][k].id, dep_kinds: settled(g, seeds, members, p, g[p][k].dep_kinds) }
}

/// The edges of `p` once the graph is settled: none for a node that is not
/// used, else the same edges with their settled flags.
pub open spec fn settled_edges(
    g: Edges,
    seeds: Seq<usize>,
    members: Seq<usize>,
    p: int,
) -> Seq<RawNodeDep> {
    if reachable(g, 0, seeds, p) {
        Seq::new(g[p].len(), |k: int| settled_edge(g, seeds, members, p, k))
    } else {
        Seq::empty()
    }
}

/// Some node has an edge to `c` that carries `mask`.
pub open spec fn has_parent(g: Edges, mask: u8, c: int) -> bool {
    exists|a: int| #[trigger] has_edge(g, mask, a, c)
}

/// Some edge to `c` that carries `mask` stands before the `k`-th edge of
/// node `p`, in the order of nodes and of their edges.
#[verifier::opaque]
pub open spec fn edge_before(g: Edges, p: int, k: int, mask: u8, c: int) -> bool {
    exists|a: int, j: int|
        0 <= a < g.len() && 0 <= j < g[a].len() && (a < p || (a == p && j < k)) && (
        #[trigger] g[a][j]).id == c && carries(g[a][j].dep_kinds, mask)
}

proof fn lemma_before_none(g: Edges, mask: u8, c: int)
    ensures
        !edge_before(g, 0, 0, mask, c),
{
    reveal(edge_before);
}

proof fn lemma_before_step(g: Edges, p: int, k: int, mask: u8, c: int)
    requires
        0 <= p < g.len(),
        0 <= k < g[p].len(),
    ensures
        edge_before(g, p, k + 1, mask, c) == (edge_before(g, p, k, mask, c) || (g[p][k].id == c
            && carries(g[p][k].dep_kinds, mask))),
{
    reveal(edge_before);
    if edge_before(g, p, k + 1, mask, c) {
        let (a, j) = choose|a: int, j: int|
            0 <= a < g.len() && 0 <= j < g[a].len() && (a < p || (a == p && j < k + 1)) && (
            #[trigger] g[a][j]).id == c && carries(g[a][j].dep_kinds, mask);
        if !(a == p && j == k) {
            assert(a < p || (a == p && j < k));
        }
    }
    if g[p][k].id == c && carries(g[p][k].dep_kinds, mask) {
        assert(edge_before(g, p, k + 1, mask, c));
    }
}

proof fn lemma_before_row(g: Edges, p: int, mask: u8, c: int)
    requires
        0 <= p < g.len(),
    ensures
        edge_before(g, p + 1, 0, mask, c) == edge_before(g, p, g[p].len() as int, mask, c),
{
    reveal(edge_before);
    if edge_before(g, p + 1, 0, mask, c) {
        let (a, j) = choose|a: int, j: int|
            0 <= a < g.len() && 0 <= j < g[a].len() && (a < p + 1 || (a == p + 1 && j < 0)) && (
            #[trigger] g[a][j]).id == c && carries(g[a][j].dep_kinds, mask);
        assert(a < p || (a == p && j < g[p].len()));
    }
    if edge_before(g, p, g[p].len() as int, mask, c) {
        let (a, j) = choose|a: int, j: int|
            0 <= a < g.len() && 0 <= j < g[a].len() && (a < p || (a == p && j < g[p].len())) && (
            #[trigger] g[a][j]).id == c && carries(g[a][j].dep_kinds, mask);
        assert(a < p + 1);
    }
}

proof fn lemma_before_all(g: Edges, mask: u8, c: int)
    ensures
        edge_before(g, g.len() as int, 0, mask, c) == has_parent(g, mask, c),
{
    reveal(edge_before);
    if edge_before(g, g.len() as int, 0, mask, c) {
        let (a, j) = choose|a: int, j: int|
            0 <= a < g.len() && 0 <= j < g[a].len() && (a < g.len() || (a == g.len() && j < 0))
                && (#[trigger] g[a][j]).id == c && carries(g[a][j].dep_kinds, mask);
        lemma_edge_at(g, mask, a, j);
    }
    if has_parent(g, mask, c) {
        let a = choose|a: int| #[trigger] has_edge(g, mask, a, c);
        let j = lemma_edge_place(g, mask, a, c);
        assert(g[a][j].id == c);
    }
}

proof fn lemma_before_zero(g: Edges, p: int, k: int, mask: u8, c: int)
    requires
        edge_before(g, p, k, mask, c),
    ensures
        edge_before(g, p, k, 0, c),
{
    reveal(edge_before);
    let (a, j) = choose|a: int, j: int|
        0 <= a < g.len() && 0 <= j < g[a].len() && (a < p || (a == p && j < k)) && (
        #[trigger] g[a][j]).id == c && carries(g[a][j].dep_kinds, mask);
    lemma_carries_zero(g[a][j].dep_kinds);
}

/// What the flags gathered so far say, when the walk stands before the
/// `k`-th edge of node `p`.
spec fn gathered(g: Edges, p: int, k: int, acc: Seq<Option<u8>>) -> bool {
    &&& acc.len() == g.len()
    &&& forall|c: int| 0 <= c < acc.len() ==> (#[trigger] acc[c] is Some) == edge_before(g, p, k, 0, c)
    &&& forall|c: int, bit: u8|
        0 <= c < acc.len() && acc[c] is Some && single(bit) ==> #[trigger] carries(acc[c]->0, bit)
            == edge_before(g, p, k, bit, c)
}

proof fn lemma_gather_step(g: Edges, p: int, k: int, acc: Seq<Option<u8>>) -> (f: u8)
    requires
        valid_graph(g),
        0 <= p < g.len(),
        0 <= k < g[p].len(),
        gathered(g, p, k, acc),
    ensures
        f == match acc[g[p][k].id as int] {
            Some(x) => x | g[p][k].dep_kinds,
            None => g[p][k].dep_kinds,
        },
        gathered(g, p, k + 1, acc.update(g[p][k].id as int, Some(f))),
{
    let e = g[p][k];
    let t = e.id as int;
    let f = match acc[t] {
        Some(x) => x | e.dep_kinds,
        None => e.dep_kinds,
    };
    let acc2 = acc.update(t, Some(f));
    assert forall|c: int| 0 <= c < acc2.len() implies (#[trigger] acc2[c] is Some) == edge_before(
        g,
        p,
        k + 1,
        0,
        c,
    ) by {
        lemma_before_step(g, p, k, 0, c);
        lemma_carries_zero(e.dep_kinds);
        assert((acc[c] is Some) == edge_before(g, p, k, 0, c));
    }
    assert forall|c: int, bit: u8|
        0 <= c < acc2.len() && acc2[c] is Some && single(bit) implies #[trigger] carries(
        acc2[c]->0,
        bit,
    ) == edge_before(g, p, k + 1, bit, c) by {
        lemma_before_step(g, p, k, bit, c);
        if c == t {
            match acc[t] {
                Some(x) => {
                    lemma_carries_or(x, e.dep_kinds, bit);
                    assert(carries(acc[t]->0, bit) == edge_before(g, p, k, bit, c));
                },
                None => {
                    assert((acc[c] is Some) == edge_before(g, p, k, 0, c));
                    if edge_before(g, p, k, bit, c) {
                        lemma_before_zero(g, p, k, bit, c);
                    }
                },
            }
        } else {
            assert(acc[c] is Some);
            assert(carries(acc[c]->0, bit) == edge_before(g, p, k, bit, c));
        }
    }
    f
}

proof fn lemma_gather_row(g: Edges, p: int, acc: Seq<Option<u8>>)
    requires
        0 <= p < g.len(),
        gathered(g, p, g[p].len() as int, acc),
    ensures
        gathered(g, p + 1, 0, acc),
{
    assert forall|c: int| 0 <= c < acc.len() implies (#[trigger] acc[c] is Some) == edge_before(
        g,
        p + 1,
        0,
        0,
        c,
    ) by {
        lemma_before_row(g, p, 0, c);
    }
    assert forall|c: int, bit: u8|
        0 <= c < acc.len() && acc[c] is Some && single(bit) implies #[trigger] carries(
        acc[c]->0,
        bit,
    ) == edge_before(g, p + 1, 0, bit, c) by {
        lemma_before_row(g, p, bit, c);
    }
}

/// Marks the workspace members among `n` nodes.
pub fn mark(members: &Vec<usize>, n: usize) -> (out: Vec<bool>)
    requires
        valid_seeds(members@, n as nat),
    ensures
        out@.len() == n,
        forall|p: int| 0 <= p < n ==> #[trigger] out@[p] == is_member(members@, p),
{
    let mut out: Vec<bool> = Vec::new();
    while out.len() < n
        invariant
            out@.len() <= n,
            forall|i: int| 0 <= i < out@.len() ==> !out@[i],
        decreases n - out@.len(),
    {
        out.push(false);
    }
    let mut i: usize = 0;
    while i < members.len()
        invariant
            i <= members@.len(),
            out@.len() == n,
            valid_seeds(members@, n as nat),
            forall|p: int|
                0 <= p < n ==> #[trigger] out@[p] == is_member(members@.take(i as int), p),
        decreases members@.len() - i,
    {
        let ghost before = out@;
        let m = members[i];
        out.set(m, true);
        proof {
            let a = members@.take(i as int);
            let b = members@.take(i + 1);
            assert forall|p: int| 0 <= p < n implies #[trigger] out@[p] == is_member(b, p) by {
                assert(before[p] == is_member(a, p));
                if is_member(a, p) {
                    let j = choose|j: int| 0 <= j < a.len() && #[trigger] a[j] == p;
                    assert(b[j] == p);
                }
                if is_member(b, p) {
                    let j = choose|j: int| 0 <= j < b.len() && #[trigger] b[j] == p;
                    if j < i {
                        assert(a[j] == p);
                    }
                }
                if p == m {
                    assert(b[i as int] == p);
                }
            }
        }
        i += 1;
    }
    assert(members@.take(members@.len() as int) =~= members@);
    out
}

impl RawResolve {
    /// The edges lead to nodes of the graph, and so does the root.
    pub open spec fn wf(&self) -> bool {
        &&& valid_graph(graph_of(self.nodes@))
        &&& (self.root matches Some(r) ==> r < self.nodes@.len())
    }

    /// The seeds of the walks: the root, or, without one, the workspace
    /// members.
    pub fn seeds(&self, members: &Vec<usize>) -> (out: Vec<usize>)
        ensures
            out@ == seeds_of(self.root, members@),
    {
        let mut out: Vec<usize> = Vec::new();
        match self.root {
            Some(r) => {
                out.push(r);
                assert(out@ =~= seq![r]);
            },
            None => {
                let mut i: usize = 0;
                while i < members.len()
                    invariant
                        i <= members@.len(),
                        out@ == members@.take(i as int),
                    decreases members@.len() - i,
                {
                    out.push(members[i]);
                    i += 1;
                }
                assert(out@ =~= members@);
            },
        }
        out
    }

    /// Settles the graph. The edges of a node that is not used are dropped.
    /// Those of a used node that no runtime path reaches become build
    /// edges, those of a used node that no unconditional path reaches become
    /// conditional, and those of a used workspace member are marked as
    /// direct.
    pub fn finalize(&mut self, members: &Vec<usize>) -> (used: Vec<bool>)
        requires
            old(self).wf(),
            valid_seeds(members@, old(self).nodes@.len()),
        ensures
            final(self).root == old(self).root,
            final(self).wf(),
            is_settled(
                graph_of(old(self).nodes@),
                graph_of(final(self).nodes@),
                seeds_of(old(self).root, members@),
                members@,
            ),
            used@.len() == old(self).nodes@.len(),
            forall|v: int|
                0 <= v < used@.len() ==> used@[v] == reachable(
                    graph_of(old(self).nodes@),
                    0,
                    seeds_of(old(self).root, members@),
                    v,
                ),
    {
        let n = self.nodes.len();
        let seeds = self.seeds(members);
        let used = reach(&self.nodes, 0, &seeds);
        let live = reach(&self.nodes, FLAG_CTX_NORMAL, &seeds);
        let any = reach(&self.nodes, FLAG_TARGET_ANY, &seeds);
        let direct = mark(members, n);
        let mut out: Vec<Vec<RawNodeDep>> = Vec::new();
        let mut p: usize = 0;
        while p < n
            invariant
                n == self.nodes@.len(),
                p <= n,
                out@.len() == p,
                used@.len() == n,
                live@.len() == n,
                any@.len() == n,
                direct@.len() == n,
                valid_graph(graph_of(self.nodes@)),
                forall|v: int| 0 <= v < n ==> used@[v] == reachable(graph_of(self.nodes@), 0, seeds@, v),
                forall|v: int|
                    0 <= v < n ==> live@[v] == reachable(graph_of(self.nodes@), FLAG_CTX_NORMAL, seeds@, v),
                forall|v: int|
                    0 <= v < n ==> any@[v] == reachable(graph_of(self.nodes@), FLAG_TARGET_ANY, seeds@, v),
                forall|v: int| 0 <= v < n ==> #[trigger] direct@[v] == is_member(members@, v),
                forall|q: int|
                    0 <= q < p ==> (#[trigger] out@[q])@ == settled_edges(
                        graph_of(self.nodes@),
                        seeds@,
                        members@,
                        q,
                    ),
                forall|a: int, j: int|
                    0 <= a < out@.len() && 0 <= j < out@[a].len() ==> (#[trigger] out@[a][j]).id
                        < n,
            decreases n - p,
        {
            let mut row: Vec<RawNodeDep> = Vec::new();
            if used[p] {
                let edges = &self.nodes[p];
                let mut k: usize = 0;
                while k < edges.len()
                    invariant
                        n == self.nodes@.len(),
                        p < n,
                        edges@ == self.nodes@[p as int]@,
                        k <= edges@.len(),
                        row@.len() == k,
                        live@.len() == n,
                        any@.len() == n,
                        direct@.len() == n,
                        valid_graph(graph_of(self.nodes@)),
                        live@[p as int] == reachable(graph_of(self.nodes@), FLAG_CTX_NORMAL, seeds@, p as int),
                        any@[p as int] == reachable(graph_of(self.nodes@), FLAG_TARGET_ANY, seeds@, p as int),
                        direct@[p as int] == is_member(members@, p as int),
                        forall|j: int|
                            0 <= j < k ==> #[trigger] row@[j] == settled_edge(
                                graph_of(self.nodes@),
                                seeds@,
                                members@,
                                p as int,
                                j,
                            ),
                    decreases edges@.len() - k,
                {
                    let e = edges[k];
                    assert(e == self.nodes@[p as int][k as int]);
                    let mut f: u8 = e.dep_kinds;
                    if !live[p] {
                        f = (f & CLEAR_CTX) | FLAG_CTX_BUILD;
                    }
                    if !any[p] {
                        f = (f & CLEAR_TARGET) | FLAG_TARGET_CFG;
                    }
                    if direct[p] {
                        f = f | FLAG_DIRECT;
                    }
                    row.push(RawNodeDep { id: e.id, dep_kinds: f });
                    k += 1;
                }
                assert(row@ =~= settled_edges(graph_of(self.nodes@), seeds@, members@, p as int));
            } else {
                assert(row@ =~= settled_edges(graph_of(self.nodes@), seeds@, members@, p as int));
            }
            proof {
                let ghost before = out@;
                assert forall|j: int| 0 <= j < row@.len() implies (#[trigger] row@[j]).id < n by {
                    assert(row@[j].id == self.nodes@[p as int][j].id);
                }
            }
            let ghost before = out@;
            out.push(row);
            proof {
                assert forall|a: int, j: int|
                    0 <= a < out@.len() && 0 <= j < out@[a].len() implies (#[trigger] out@[a][j]).id
                    < n by {
                    if a < p {
                        assert(out@[a] == before[a]);
                        assert(before[a][j].id < n);
                    } else {
                        assert(out@[a][j].id == self.nodes@[p as int][j].id);
                    }
                }
            }
            p += 1;
        }
        proof {
            assert forall|q: int| 0 <= q < n implies #[trigger] graph_of(out@)[q] == settled_edges(
                graph_of(self.nodes@),
                seeds@,
                members@,
                q,
            ) by {
                assert(out@[q]@ == settled_edges(graph_of(self.nodes@), seeds@, members@, q));
            }
            assert forall|a: int, j: int|
                0 <= a < graph_of(out@).len() && 0 <= j < graph_of(out@)[a].len() implies (
            #[trigger] graph_of(out@)[a][j]).id < graph_of(out@).len() by {
                assert(graph_of(out@)[a][j] == out@[a][j]);
            }
        }
        self.nodes = out;
        used
    }

    /// The flags of every node that some edge leads to: the union of the
    /// flags of all the edges that lead to it. With `targeted`, the
    /// conditional-target bit is left out, since the graph was then made
    /// for one target.
    pub fn flags(&self, targeted: bool) -> (out: Vec<Option<u8>>)
        requires
            valid_graph(graph_of(self.nodes@)),
        ensures
            out@.len() == self.nodes@.len(),
            forall|c: int|
                0 <= c < out@.len() ==> (#[trigger] out@[c] is Some) == has_parent(graph_of(self.nodes@), 0, c),
            forall|c: int, bit: u8|
                0 <= c < out@.len() && out@[c] is Some && single(bit) ==> #[trigger] carries(
                    out@[c]->0,
                    bit,
                ) == (has_parent(graph_of(self.nodes@), bit, c) && !(targeted && bit == FLAG_TARGET_CFG)),
    {
        let n = self.nodes.len();
        let mut out: Vec<Option<u8>> = Vec::new();
        while out.len() < n
            invariant
                out@.len() <= n,
                forall|i: int| 0 <= i < out@.len() ==> out@[i] is None,
            decreases n - out@.len(),
        {
            out.push(None);
        }
        proof {
            assert forall|c: int| 0 <= c < out@.len() implies (#[trigger] out@[c] is Some)
                == edge_before(graph_of(self.nodes@), 0, 0, 0, c) by {
                lemma_before_none(graph_of(self.nodes@), 0, c);
            }
            assert(gathered(graph_of(self.nodes@), 0, 0, out@));
        }
        let mut p: usize = 0;
        while p < n
            invariant
                n == self.nodes@.len(),
                p <= n,
                valid_graph(graph_of(self.nodes@)),
                gathered(graph_of(self.nodes@), p as int, 0, out@),
            decreases n - p,
        {
            let edges = &self.nodes[p];
            let mut k: usize = 0;
            while k < edges.len()
                invariant
                    n == self.nodes@.len(),
                    p < n,
                    edges@ == self.nodes@[p as int]@,
                    k <= edges@.len(),
                    valid_graph(graph_of(self.nodes@)),
                    gathered(graph_of(self.nodes@), p as int, k as int, out@),
                decreases edges@.len() - k,
            {
                let e = edges[k];
                assert(e == graph_of(self.nodes@)[p as int][k as int]);
                assert(e.id < n);
                let ghost f0 = lemma_gather_step(graph_of(self.nodes@), p as int, k as int, out@);
                let f: u8 = match out[e.id] {
                    Some(x) => x | e.dep_kinds,
                    None => e.dep_kinds,
                };
                out.set(e.id, Some(f));
                k += 1;
            }
            proof {
                lemma_gather_row(graph_of(self.nodes@), p as int, out@);
            }
            p += 1;
        }
        let ghost mid = out@;
        proof {
            assert forall|c: int| 0 <= c < mid.len() implies (#[trigger] mid[c] is Some)
                == has_parent(graph_of(self.nodes@), 0, c) by {
                lemma_before_all(graph_of(self.nodes@), 0, c);
            }
            assert forall|c: int, bit: u8|
                0 <= c < mid.len() && mid[c] is Some && single(bit) implies #[trigger] carries(
                mid[c]->0,
                bit,
            ) == has_parent(graph_of(self.nodes@), bit, c) by {
                lemma_before_all(graph_of(self.nodes@), bit, c);
            }
        }
        if targeted {
            let mut c: usize = 0;
            while c < n
                invariant
                    c <= n,
                    out@.len() == n,
                    mid.len() == n,
                    forall|i: int| c <= i < n ==> out@[i] == mid[i],
                    forall|i: int| 0 <= i < c ==> (#[trigger] out@[i] is Some) == (mid[i] is Some),
                    forall|i: int|
                        0 <= i < c && mid[i] is Some ==> #[trigger] out@[i]->0 == (mid[i]->0)
                            & CLEAR_TARGET_CFG,
                decreases n - c,
            {
                match out[c] {
                    Some(f) => {
                        out.set(c, Some(f & CLEAR_TARGET_CFG));
                    },
                    None => {},
                }
                c += 1;
            }
            proof {
                assert forall|c: int, bit: u8|
                    0 <= c < out@.len() && out@[c] is Some && single(bit) implies #[trigger] carries(
                    out@[c]->0,
                    bit,
                ) == (has_parent(graph_of(self.nodes@), bit, c) && !(targeted && bit == FLAG_TARGET_CFG)) by {
                    assert((out@[c] is Some) == (mid[c] is Some));
                    assert(out@[c]->0 == (mid[c]->0) & CLEAR_TARGET_CFG);
                    lemma_clear_cfg(mid[c]->0, bit);
                    assert(carries(mid[c]->0, bit) == has_parent(graph_of(self.nodes@), bit, c));
                }
            }
        }
        out
    }
}

/// Every edge of the graph carries a kind bit and a target bit, and nothing
/// else: an edge without them was dropped when the graph was loaded.
pub open spec fn edges_retained(g: Edges) -> bool {
    forall|a: int, k: int|
        0 <= a < g.len() && 0 <= k < g[a].len() ==> edge_retained((#[trigger] g[a][k]).dep_kinds)
}

/// `gs` is what `finalize` makes of `g`.
pub open spec fn is_settled(g: Edges, gs: Edges, seeds: Seq<usize>, members: Seq<usize>) -> bool {
    &&& gs.len() == g.len()
    &&& forall|p: int|
        0 <= p < g.len() ==> #[trigger] gs[p] == settled_edges(g, seeds, members, p)
}

/// Some used workspace member has an edge to `c`.
pub open spec fn has_member_parent(g: Edges, seeds: Seq<usize>, members: Seq<usize>, c: int) -> bool {
    exists|a: int|
        is_member(members, a) && reachable(g, 0, seeds, a) && #[trigger] has_edge(g, 0, a, c)
}

/// The bits of a settled edge of parent `p`, one by one.
pub proof fn lemma_settled_bits(
    g: Edges,
    seeds: Seq<usize>,
    members: Seq<usize>,
    p: int,
    f: u8,
    bit: u8,
)
    requires
        single(bit),
        edge_retained(f),
    ensures
        carries(settled(g, seeds, members, p, f), bit) == (if bit == FLAG_CTX_NORMAL {
            reachable(g, FLAG_CTX_NORMAL, seeds, p) && carries(f, bit)
        } else if bit == FLAG_CTX_BUILD {
            !reachable(g, FLAG_CTX_NORMAL, seeds, p) || carries(f, bit)
        } else if bit == FLAG_TARGET_ANY {
            reachable(g, FLAG_TARGET_ANY, seeds, p) && carries(f, bit)
        } else if bit == FLAG_TARGET_CFG {
            !reachable(g, FLAG_TARGET_ANY, seeds, p) || carries(f, bit)
        } else if bit == FLAG_DIRECT {
            is_member(members, p)
        } else {
            false
        }),
{
    let a = if reachable(g, FLAG_CTX_NORMAL, seeds, p) {
        f
    } else {
        force_build(f)
    };
    let b = if reachable(g, FLAG_TARGET_ANY, seeds, p) {
        a
    } else {
        force_cfg(a)
    };
    lemma_force_build(f, bit);
    lemma_force_cfg(a, bit);
    lemma_carries_or(b, FLAG_DIRECT, bit);
    lemma_single_carries(FLAG_DIRECT, bit);
    if carries(f, bit) {
        lemma_edge_bits(f, bit);
    }
}

/// An edge of the settled graph is an edge of a used node, with its settled
/// flags.
proof fn lemma_settled_edge(
    g: Edges,
    gs: Edges,
    seeds: Seq<usize>,
    members: Seq<usize>,
    a: int,
    k: int,
)
    requires
        is_settled(g, gs, seeds, members),
        0 <= a < g.len(),
        0 <= k < gs[a].len(),
    ensures
        reachable(g, 0, seeds, a),
        k < g[a].len(),
        gs[a][k].id == g[a][k].id,
        gs[a][k].dep_kinds == settled(g, seeds, members, a, g[a][k].dep_kinds),
{
    assert(gs[a] == settled_edges(g, seeds, members, a));
    assert(gs[a][k] == settled_edge(g, seeds, members, a, k));
}

/// An edge of a used node is an edge of the settled graph.
proof fn lemma_settled_keeps(
    g: Edges,
    gs: Edges,
    seeds: Seq<usize>,
    members: Seq<usize>,
    a: int,
    k: int,
)
    requires
        is_settled(g, gs, seeds, members),
        0 <= a < g.len(),
        0 <= k < g[a].len(),
        reachable(g, 0, seeds, a),
    ensures
        k < gs[a].len(),
        gs[a][k].id == g[a][k].id,
        gs[a][k].dep_kinds == settled(g, seeds, members, a, g[a][k].dep_kinds),
{
    assert(gs[a] == settled_edges(g, seeds, members, a));
    assert(gs[a][k] == settled_edge(g, seeds, members, a, k));
}

/// Some node that a walk over the edges carrying `bit` reaches has an edge
/// to `c` that carries `bit`.
pub open spec fn has_kept_parent(g: Edges, seeds: Seq<usize>, bit: u8, c: int) -> bool {
    exists|a: int| reachable(g, bit, seeds, a) && #[trigger] has_edge(g, bit, a, c)
}

/// Some used node has an edge to `c` that carries `forced`, or has an edge to
/// `c` and is itself out of reach of the walk over the edges carrying `kept`.
pub open spec fn has_forced_parent(
    g: Edges,
    seeds: Seq<usize>,
    kept: u8,
    forced: u8,
    c: int,
) -> bool {
    exists|a: int|
        reachable(g, 0, seeds, a) && #[trigger] has_edge(g, 0, a, c) && (has_edge(g, forced, a, c)
            || !reachable(g, kept, seeds, a))
}

/// Whether the flags of node `c` hold `bit`, read against the graph as it
/// was loaded:
/// - direct: a used workspace member has an edge to it;
/// - runtime: a node that is live at runtime has a runtime edge to it;
/// - build: a used node has a build edge to it, or has an edge to it and is
///   not live at runtime;
/// - unconditional: a node that unconditional edges reach has an
///   unconditional edge to it;
/// - conditional, unless the graph was made for one target: a used node has
///   a conditional edge to it, or has an edge to it and is out of reach of
///   the unconditional edges;
/// - no other bit.
pub open spec fn context_bit(
    g: Edges,
    seeds: Seq<usize>,
    members: Seq<usize>,
    targeted: bool,
    c: int,
    bit: u8,
) -> bool {
    if bit == FLAG_DIRECT {
        has_member_parent(g, seeds, members, c)
    } else if bit == FLAG_CTX_NORMAL {
        has_kept_parent(g, seeds, FLAG_CTX_NORMAL, c)
    } else if bit == FLAG_CTX_BUILD {
        has_forced_parent(g, seeds, FLAG_CTX_NORMAL, FLAG_CTX_BUILD, c)
    } else if bit == FLAG_TARGET_ANY {
        has_kept_parent(g, seeds, FLAG_TARGET_ANY, c)
    } else if bit == FLAG_TARGET_CFG {
        !targeted && has_forced_parent(g, seeds, FLAG_TARGET_ANY, FLAG_TARGET_CFG, c)
    } else {
        false
    }
}

/// `bit` where `b` holds, else nothing.
pub open spec fn bit_if(b: bool, bit: u8) -> u8 {
    if b {
        bit
    } else {
        0
    }
}

/// The flags of node `c`: the bits that `context_bit` holds of.
pub open spec fn node_context(
    g: Edges,
    seeds: Seq<usize>,
    members: Seq<usize>,
    targeted: bool,
    c: int,
) -> u8 {
    bit_if(context_bit(g, seeds, members, targeted, c, FLAG_DIRECT), FLAG_DIRECT) | bit_if(
        context_bit(g, seeds, members, targeted, c, FLAG_TARGET_ANY),
        FLAG_TARGET_ANY,
    ) | bit_if(context_bit(g, seeds, members, targeted, c, FLAG_TARGET_CFG), FLAG_TARGET_CFG)
        | bit_if(context_bit(g, seeds, members, targeted, c, FLAG_CTX_NORMAL), FLAG_CTX_NORMAL)
        | bit_if(context_bit(g, seeds, members, targeted, c, FLAG_CTX_BUILD), FLAG_CTX_BUILD)
}

/// The flags of a node hold exactly the bits that `context_bit` holds of.
pub proof fn lemma_node_context(
    g: Edges,
    seeds: Seq<usize>,
    members: Seq<usize>,
    targeted: bool,
    c: int,
    bit: u8,
)
    requires
        single(bit),
    ensures
        carries(node_context(g, seeds, members, targeted, c), bit) == context_bit(
            g,
            seeds,
            members,
            targeted,
            c,
            bit,
        ),
{
    let a = bit_if(context_bit(g, seeds, members, targeted, c, FLAG_DIRECT), FLAG_DIRECT);
    let b = bit_if(context_bit(g, seeds, members, targeted, c, FLAG_TARGET_ANY), FLAG_TARGET_ANY);
    let d = bit_if(context_bit(g, seeds, members, targeted, c, FLAG_TARGET_CFG), FLAG_TARGET_CFG);
    let e = bit_if(context_bit(g, seeds, members, targeted, c, FLAG_CTX_NORMAL), FLAG_CTX_NORMAL);
    let f = bit_if(context_bit(g, seeds, members, targeted, c, FLAG_CTX_BUILD), FLAG_CTX_BUILD);
    lemma_join_bits(a, b, d, e, f, bit);
}

/// The flags that `flags` gathers in the settled graph are those that
/// `node_context` gives for the graph as it was loaded.
pub proof fn lemma_settled_context(
    g: Edges,
    gs: Edges,
    seeds: Seq<usize>,
    members: Seq<usize>,
    targeted: bool,
    c: int,
    found: Option<u8>,
)
    requires
        valid_graph(g),
        edges_retained(g),
        is_settled(g, gs, seeds, members),
        0 <= c < g.len(),
        (found is Some) == has_parent(gs, 0, c),
        found is Some ==> forall|bit: u8|
            single(bit) ==> #[trigger] carries(found->0, bit) == (has_parent(gs, bit, c) && !(
            targeted && bit == FLAG_TARGET_CFG)),
    ensures
        (match found {
            Some(f) => f,
            None => 0,
        }) == node_context(g, seeds, members, targeted, c),
{
    let f: u8 = match found {
        Some(f) => f,
        None => 0,
    };
    let want = node_context(g, seeds, members, targeted, c);
    assert forall|bit: u8| #![trigger carries(f, bit)] single(bit) implies carries(f, bit)
        == carries(want, bit) by {
        lemma_node_context(g, seeds, members, targeted, c, bit);
        lemma_settled_parent(g, gs, seeds, members, c, bit);
        if found is None {
            lemma_single_zero(bit);
            if has_parent(gs, bit, c) {
                let a = choose|a: int| #[trigger] has_edge(gs, bit, a, c);
                let k = lemma_edge_place(gs, bit, a, c);
                lemma_carries_zero(gs[a][k].dep_kinds);
                lemma_edge_at(gs, 0, a, k);
            }
        }
    }
    lemma_same_bits(f, want);
}

/// A settled edge that carries `bit` leads to `c` exactly when
/// `context_bit` holds of `c` and `bit`, for a graph that was made for every
/// target.
proof fn lemma_settled_parent(
    g: Edges,
    gs: Edges,
    seeds: Seq<usize>,
    members: Seq<usize>,
    c: int,
    bit: u8,
)
    requires
        valid_graph(g),
        edges_retained(g),
        is_settled(g, gs, seeds, members),
        single(bit),
    ensures
        has_parent(gs, bit, c) == context_bit(g, seeds, members, false, c, bit),
{
    let want = context_bit(g, seeds, members, false, c, bit);
    if has_parent(gs, bit, c) {
        let a = choose|a: int| #[trigger] has_edge(gs, bit, a, c);
        let k = lemma_edge_place(gs, bit, a, c);
        lemma_settled_edge(g, gs, seeds, members, a, k);
        let f = g[a][k].dep_kinds;
        lemma_settled_bits(g, seeds, members, a, f, bit);
        lemma_carries_zero(f);
        lemma_edge_at(g, 0, a, k);
        if carries(f, bit) {
            lemma_edge_at(g, bit, a, k);
        }
        assert(want);
    }
    if want {
        if bit == FLAG_DIRECT {
            let a = choose|a: int|
                is_member(members, a) && reachable(g, 0, seeds, a) && #[trigger] has_edge(g, 0, a, c);
            let k = lemma_edge_place(g, 0, a, c);
            lemma_settled_keeps(g, gs, seeds, members, a, k);
            lemma_settled_bits(g, seeds, members, a, g[a][k].dep_kinds, bit);
            lemma_edge_at(gs, bit, a, k);
        } else if bit == FLAG_CTX_NORMAL || bit == FLAG_TARGET_ANY {
            let a = choose|a: int| reachable(g, bit, seeds, a) && #[trigger] has_edge(g, bit, a, c);
            let k = lemma_edge_place(g, bit, a, c);
            lemma_reach_any_mask(g, bit, seeds, a);
            lemma_settled_keeps(g, gs, seeds, members, a, k);
            lemma_settled_bits(g, seeds, members, a, g[a][k].dep_kinds, bit);
            lemma_edge_at(gs, bit, a, k);
        } else {
            let kept = if bit == FLAG_CTX_BUILD {
                FLAG_CTX_NORMAL
            } else {
                FLAG_TARGET_ANY
            };
            let a = choose|a: int|
                reachable(g, 0, seeds, a) && #[trigger] has_edge(g, 0, a, c) && (has_edge(
                    g,
                    bit,
                    a,
                    c,
                ) || !reachable(g, kept, seeds, a));
            let k = if has_edge(g, bit, a, c) {
                lemma_edge_place(g, bit, a, c)
            } else {
                lemma_edge_place(g, 0, a, c)
            };
            lemma_settled_keeps(g, gs, seeds, members, a, k);
            lemma_settled_bits(g, seeds, members, a, g[a][k].dep_kinds, bit);
            lemma_edge_at(gs, bit, a, k);
        }
        assert(has_parent(gs, bit, c));
    }
}

/// The flags of a used node that is no seed, in words.
///
/// Let `c` be a used node that is no seed, in a graph whose edges all carry
/// a kind bit and a target bit. Then its flags are
/// - build-only exactly when no path of runtime edges reaches `c`, whatever
///   its own edges looked like;
/// - target-specific exactly when no path of unconditional edges reaches
///   `c`, unless the graph was made for one target: then never;
/// - direct exactly when a used workspace member has an edge to `c`;
/// - never optional.
pub proof fn lemma_context_meaning(
    g: Edges,
    seeds: Seq<usize>,
    members: Seq<usize>,
    targeted: bool,
    c: int,
)
    requires
        valid_graph(g),
        valid_seeds(seeds, g.len()),
        edges_retained(g),
        reachable(g, 0, seeds, c),
        forall|i: int| 0 <= i < seeds.len() ==> #[trigger] seeds[i] != c,
    ensures
        build_only(node_context(g, seeds, members, targeted, c)) == !reachable(
            g,
            FLAG_CTX_NORMAL,
            seeds,
            c,
        ),
        target_only(node_context(g, seeds, members, targeted, c)) == (!targeted && !reachable(
            g,
            FLAG_TARGET_ANY,
            seeds,
            c,
        )),
        carries(node_context(g, seeds, members, targeted, c), FLAG_DIRECT) == has_member_parent(
            g,
            seeds,
            members,
            c,
        ),
        !carries(node_context(g, seeds, members, targeted, c), FLAG_OPTIONAL),
{
    let f = node_context(g, seeds, members, targeted, c);
    lemma_masks(f);
    lemma_node_context(g, seeds, members, targeted, c, FLAG_DIRECT);
    lemma_node_context(g, seeds, members, targeted, c, FLAG_OPTIONAL);
    lemma_node_context(g, seeds, members, targeted, c, FLAG_CTX_NORMAL);
    lemma_node_context(g, seeds, members, targeted, c, FLAG_CTX_BUILD);
    lemma_node_context(g, seeds, members, targeted, c, FLAG_TARGET_ANY);
    lemma_node_context(g, seeds, members, targeted, c, FLAG_TARGET_CFG);
    lemma_kept_reach(g, seeds, c, FLAG_CTX_NORMAL);
    lemma_kept_reach(g, seeds, c, FLAG_TARGET_ANY);
    lemma_forced_reach(g, seeds, c, FLAG_CTX_NORMAL, FLAG_CTX_BUILD);
    lemma_forced_reach(g, seeds, c, FLAG_TARGET_ANY, FLAG_TARGET_CFG);
}

/// A node that is no seed has a parent on the walk over the edges carrying
/// `bit` exactly when that walk reaches it.
proof fn lemma_kept_reach(g: Edges, seeds: Seq<usize>, c: int, bit: u8)
    requires
        forall|i: int| 0 <= i < seeds.len() ==> #[trigger] seeds[i] != c,
    ensures
        has_kept_parent(g, seeds, bit, c) == reachable(g, bit, seeds, c),
{
    if has_kept_parent(g, seeds, bit, c) {
        let a = choose|a: int| reachable(g, bit, seeds, a) && #[trigger] has_edge(g, bit, a, c);
        lemma_reach_step(g, bit, seeds, a, c);
    }
    if reachable(g, bit, seeds, c) {
        let a = lemma_reach_parent(g, bit, seeds, c);
        assert(has_kept_parent(g, seeds, bit, c));
    }
}

/// A used node that is no seed, out of reach of the walk over the edges
/// carrying `kept`, has a parent that forces the other bit of the pair on
/// it.
proof fn lemma_forced_reach(g: Edges, seeds: Seq<usize>, c: int, kept: u8, forced: u8)
    requires
        valid_graph(g),
        edges_retained(g),
        reachable(g, 0, seeds, c),
        forall|i: int| 0 <= i < seeds.len() ==> #[trigger] seeds[i] != c,
        (kept == FLAG_CTX_NORMAL && forced == FLAG_CTX_BUILD) || (kept == FLAG_TARGET_ANY && forced
            == FLAG_TARGET_CFG),
    ensures
        !reachable(g, kept, seeds, c) ==> has_forced_parent(g, seeds, kept, forced, c),
{
    if !reachable(g, kept, seeds, c) {
        let a = lemma_reach_parent(g, 0, seeds, c);
        let k = lemma_edge_place(g, 0, a, c);
        let f = g[a][k].dep_kinds;
        lemma_masks(f);
        if reachable(g, kept, seeds, a) {
            if carries(f, kept) {
                lemma_edge_at(g, kept, a, k);
                lemma_reach_step(g, kept, seeds, a, c);
            }
            lemma_edge_at(g, forced, a, k);
        }
        assert(has_forced_parent(g, seeds, kept, forced, c));
    }
}

} // verus!
