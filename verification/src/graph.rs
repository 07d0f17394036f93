//! The resolved graph and what can be reached in it.
//!
//! A node is a number below the node count; each node has a list of edges
//! to its children, and each edge carries the context flags of its
//! declarations.

use vstd::prelude::*;
use crate::context::{carries, lemma_carries_zero};

verus! {

/// An edge to a child, with the flags of the declarations behind it.
#[derive(Clone, Copy, Debug)]
pub struct RawNodeDep {
    /// The child.
    pub id: usize,
    /// The flags of the edge.
    pub dep_kinds: u8,
}

/// The edges of a graph: for each node, the list of its edges.
pub type Edges = Seq<Seq<RawNodeDep>>;

/// The graph that a table of edge lists holds.
pub open spec fn graph_of(nodes: Seq<Vec<RawNodeDep>>) -> Edges {
    Seq::new(nodes.len(), |i: int| nodes[i]@)
}

/// Every edge of the graph leads to a node of the graph.
pub open spec fn valid_graph(g: Edges) -> bool {
    forall|a: int, k: int|
        0 <= a < g.len() && 0 <= k < g[a].len() ==> (#[trigger] g[a][k]).id < g.len()
}

/// Every seed is a node of a graph of `n` nodes.
pub open spec fn valid_seeds(seeds: Seq<usize>, n: nat) -> bool {
    forall|i: int| 0 <= i < seeds.len() ==> #[trigger] seeds[i] < n
}

/// There is an edge from `a` to `b` that carries every bit of `mask`. With
/// an empty mask every edge counts.
#[verifier::opaque]
pub open spec fn has_edge(g: Edges, mask: u8, a: int, b: int) -> bool {
    &&& 0 <= a < g.len()
    &&& exists|k: int|
        0 <= k < g[a].len() && (#[trigger] g[a][k]).id == b && carries(g[a][k].dep_kinds, mask)
}

/// `p` starts at a seed and follows, step by step, edges that carry `mask`.
pub open spec fn is_path(g: Edges, mask: u8, seeds: Seq<usize>, p: Seq<int>) -> bool {
    &&& p.len() > 0
    &&& exists|i: int| 0 <= i < seeds.len() && #[trigger] seeds[i] == p[0]
    &&& forall|i: int| 0 <= i < p.len() - 1 ==> has_edge(g, mask, #[trigger] p[i], p[i + 1])
}

/// Some path from a seed over edges that carry `mask` ends at `n`.
#[verifier::opaque]
pub open spec fn reachable(g: Edges, mask: u8, seeds: Seq<usize>, n: int) -> bool {
    exists|p: Seq<int>| #[trigger] is_path(g, mask, seeds, p) && p.last() == n
}

/// `used` marks a set of nodes that holds the seeds and, with a node, every
/// child that an edge carrying `mask` leads to.
pub open spec fn closed(g: Edges, mask: u8, seeds: Seq<usize>, used: Seq<bool>) -> bool {
    &&& used.len() == g.len()
    &&& forall|i: int| 0 <= i < seeds.len() ==> used[#[trigger] seeds[i] as int]
    &&& forall|a: int, b: int|
        0 <= a < g.len() && used[a] && #[trigger] has_edge(g, mask, a, b) ==> 0 <= b < g.len()
            && used[b]
}

/// How many entries of `s` are false.
pub open spec fn count_false(s: Seq<bool>) -> nat
    decreases s.len(),
{
    if s.len() == 0 {
        0
    } else {
        count_false(s.drop_last()) + if s.last() {
            0nat
        } else {
            1nat
        }
    }
}

proof fn lemma_count_update(s: Seq<bool>, i: int)
    requires
        0 <= i < s.len(),
        !s[i],
    ensures
        count_false(s.update(i, true)) + 1 == count_false(s),
    decreases s.len(),
{
    if i == s.len() - 1 {
        assert(s.update(i, true).drop_last() =~= s.drop_last());
    } else {
        lemma_count_update(s.drop_last(), i);
        assert(s.update(i, true).drop_last() =~= s.drop_last().update(i, true));
    }
}

/// Every seed is reachable.
pub proof fn lemma_reach_seed(g: Edges, mask: u8, seeds: Seq<usize>, i: int)
    requires
        0 <= i < seeds.len(),
    ensures
        reachable(g, mask, seeds, seeds[i] as int),
{
    reveal(reachable);
    let p = seq![seeds[i] as int];
    assert(is_path(g, mask, seeds, p));
    assert(p.last() == seeds[i] as int);
}

/// A child of a reachable node, over an edge that carries `mask`, is
/// reachable.
pub proof fn lemma_reach_step(g: Edges, mask: u8, seeds: Seq<usize>, a: int, b: int)
    requires
        reachable(g, mask, seeds, a),
        has_edge(g, mask, a, b),
    ensures
        reachable(g, mask, seeds, b),
{
    reveal(reachable);
    let p = choose|p: Seq<int>| #[trigger] is_path(g, mask, seeds, p) && p.last() == a;
    let q = p.push(b);
    assert forall|i: int| 0 <= i < q.len() - 1 implies has_edge(
        g,
        mask,
        #[trigger] q[i],
        q[i + 1],
    ) by {
        if i < p.len() - 1 {
            assert(q[i] == p[i] && q[i + 1] == p[i + 1]);
        } else {
            assert(q[i] == a && q[i + 1] == b);
        }
    }
    let i0 = choose|i: int| 0 <= i < seeds.len() && #[trigger] seeds[i] == p[0];
    assert(seeds[i0] == q[0]);
    assert(is_path(g, mask, seeds, q));
    assert(q.last() == b);
}

/// A reachable node other than a seed has a reachable parent.
pub proof fn lemma_reach_parent(g: Edges, mask: u8, seeds: Seq<usize>, n: int) -> (a: int)
    requires
        reachable(g, mask, seeds, n),
        forall|i: int| 0 <= i < seeds.len() ==> #[trigger] seeds[i] != n,
    ensures
        reachable(g, mask, seeds, a),
        has_edge(g, mask, a, n),
{
    reveal(reachable);
    let p = choose|p: Seq<int>| #[trigger] is_path(g, mask, seeds, p) && p.last() == n;
    let i0 = choose|i: int| 0 <= i < seeds.len() && #[trigger] seeds[i] == p[0];
    assert(seeds[i0] != n);
    assert(p.len() > 1);
    let q = p.drop_last();
    let i0 = choose|i: int| 0 <= i < seeds.len() && #[trigger] seeds[i] == p[0];
    assert(seeds[i0] == q[0]);
    assert forall|i: int| 0 <= i < q.len() - 1 implies has_edge(
        g,
        mask,
        #[trigger] q[i],
        q[i + 1],
    ) by {
        assert(q[i] == p[i] && q[i + 1] == p[i + 1]);
    }
    assert(is_path(g, mask, seeds, q));
    let a = q.last();
    assert(a == p[p.len() - 2]);
    assert(has_edge(g, mask, p[p.len() - 2], p[p.len() - 2 + 1]));
    a
}

/// A closed set holds the end of every path.
pub proof fn lemma_closed_holds_path(
    g: Edges,
    mask: u8,
    seeds: Seq<usize>,
    used: Seq<bool>,
    p: Seq<int>,
)
    requires
        valid_seeds(seeds, g.len()),
        closed(g, mask, seeds, used),
        is_path(g, mask, seeds, p),
    ensures
        0 <= p.last() < g.len(),
        used[p.last()],
    decreases p.len(),
{
    if p.len() == 1 {
        let i0 = choose|i: int| 0 <= i < seeds.len() && #[trigger] seeds[i] == p[0];
        assert(used[seeds[i0] as int]);
    } else {
        let q = p.drop_last();
        let i0 = choose|i: int| 0 <= i < seeds.len() && #[trigger] seeds[i] == p[0];
        assert(seeds[i0] == q[0]);
        assert forall|i: int| 0 <= i < q.len() - 1 implies has_edge(
            g,
            mask,
            #[trigger] q[i],
            q[i + 1],
        ) by {
            assert(q[i] == p[i] && q[i + 1] == p[i + 1]);
        }
        assert(is_path(g, mask, seeds, q));
        lemma_closed_holds_path(g, mask, seeds, used, q);
        let a = q.last();
        assert(a == p[p.len() - 2]);
        assert(has_edge(g, mask, p[p.len() - 2], p[p.len() - 2 + 1]));
        assert(has_edge(g, mask, a, p.last()));
    }
}

/// What `has_edge` says of the `k`-th edge of `a`.
pub proof fn lemma_edge_at(g: Edges, mask: u8, a: int, k: int)
    requires
        0 <= a < g.len(),
        0 <= k < g[a].len(),
        carries(g[a][k].dep_kinds, mask),
    ensures
        has_edge(g, mask, a, g[a][k].id as int),
{
    reveal(has_edge);
}

/// The place of an edge from `a` to `b` that carries `mask`.
pub proof fn lemma_edge_place(g: Edges, mask: u8, a: int, b: int) -> (k: int)
    requires
        has_edge(g, mask, a, b),
    ensures
        0 <= a < g.len(),
        0 <= k < g[a].len(),
        g[a][k].id == b,
        carries(g[a][k].dep_kinds, mask),
{
    reveal(has_edge);
    choose|k: int|
        0 <= k < g[a].len() && (#[trigger] g[a][k]).id == b && carries(g[a][k].dep_kinds, mask)
}

/// Reach only grows with the edges: where every edge that one walk may
/// follow is an edge that a second walk may follow, each node that the first
/// reaches is reached by the second.
pub proof fn lemma_reach_monotone(
    g1: Edges,
    mask1: u8,
    g2: Edges,
    mask2: u8,
    seeds: Seq<usize>,
    n: int,
)
    requires
        forall|a: int, b: int| #[trigger]
            has_edge(g1, mask1, a, b) ==> has_edge(g2, mask2, a, b),
        reachable(g1, mask1, seeds, n),
    ensures
        reachable(g2, mask2, seeds, n),
{
    reveal(reachable);
    let p = choose|p: Seq<int>| #[trigger] is_path(g1, mask1, seeds, p) && p.last() == n;
    assert(is_path(g2, mask2, seeds, p));
}

/// Adding an edge to the graph takes no node out of reach: what a walk from
/// the seeds reached before, it reaches after.
pub proof fn lemma_add_edge_keeps_reach(
    g1: Edges,
    g2: Edges,
    parent: int,
    edge: RawNodeDep,
    mask: u8,
    seeds: Seq<usize>,
    n: int,
)
    requires
        0 <= parent < g1.len(),
        g2 == g1.update(parent, g1[parent].push(edge)),
        reachable(g1, mask, seeds, n),
    ensures
        reachable(g2, mask, seeds, n),
{
    assert forall|a: int, b: int| #[trigger] has_edge(g1, mask, a, b) implies has_edge(
        g2,
        mask,
        a,
        b,
    ) by {
        let k = lemma_edge_place(g1, mask, a, b);
        assert(g2[a][k] == g1[a][k]);
        lemma_edge_at(g2, mask, a, k);
    }
    lemma_reach_monotone(g1, mask, g2, mask, seeds, n);
}

/// What a walk over some of the edges reaches, the walk over all of them
/// reaches too.
pub proof fn lemma_reach_any_mask(g: Edges, mask: u8, seeds: Seq<usize>, n: int)
    requires
        reachable(g, mask, seeds, n),
    ensures
        reachable(g, 0, seeds, n),
{
    assert forall|a: int, b: int| #[trigger] has_edge(g, mask, a, b) implies has_edge(
        g,
        0,
        a,
        b,
    ) by {
        let k = lemma_edge_place(g, mask, a, b);
        lemma_carries_zero(g[a][k].dep_kinds);
        lemma_edge_at(g, 0, a, k);
    }
    lemma_reach_monotone(g, mask, g, 0, seeds, n);
}

/// Whether `x` occurs in `q`.
pub open spec fn queued(q: Seq<usize>, x: int) -> bool {
    exists|i: int| 0 <= i < q.len() && #[trigger] q[i] == x
}

/// Puts on the queue every child of `next` that an edge carrying `mask`
/// leads to.
fn push_children(nodes: &Vec<Vec<RawNodeDep>>, mask: u8, next: usize, queue: &mut Vec<usize>)
    requires
        valid_graph(graph_of(nodes@)),
        next < nodes@.len(),
    ensures
        final(queue)@.len() >= old(queue)@.len(),
        final(queue)@.take(old(queue)@.len() as int) == old(queue)@,
        forall|i: int|
            old(queue)@.len() <= i < final(queue)@.len() ==> has_edge(
                graph_of(nodes@),
                mask,
                next as int,
                #[trigger] final(queue)@[i] as int,
            ),
        forall|b: int| #[trigger]
            has_edge(graph_of(nodes@), mask, next as int, b) ==> queued(final(queue)@, b),
{
    let ghost q0 = queue@;
    let edges = &nodes[next];
    let mut k: usize = 0;
    while k < edges.len()
        invariant
            k <= edges@.len(),
            edges@ == nodes@[next as int]@,
            next < nodes@.len(),
            queue@.len() >= q0.len(),
            queue@.take(q0.len() as int) == q0,
            forall|i: int|
                q0.len() <= i < queue@.len() ==> has_edge(
                    graph_of(nodes@),
                    mask,
                    next as int,
                    #[trigger] queue@[i] as int,
                ),
            forall|j: int|
                0 <= j < k && carries((#[trigger] edges@[j]).dep_kinds, mask) ==> queued(
                    queue@,
                    edges@[j].id as int,
                ),
        decreases edges@.len() - k,
    {
        let e = edges[k];
        if e.dep_kinds & mask == mask {
            let ghost q1 = queue@;
            proof {
                lemma_edge_at(graph_of(nodes@), mask, next as int, k as int);
            }
            queue.push(e.id);
            proof {
                assert(queue@.take(q0.len() as int) =~= q1.take(q0.len() as int));
                assert(queue@[q1.len() as int] == e.id);
                assert forall|j: int|
                    0 <= j < k + 1 && carries((#[trigger] edges@[j]).dep_kinds, mask) implies queued(
                    queue@,
                    edges@[j].id as int,
                ) by {
                    if j < k {
                        let i = choose|i: int| 0 <= i < q1.len() && #[trigger] q1[i] == edges@[j].id;
                        assert(queue@[i] == edges@[j].id);
                    }
                }
            }
        }
        k += 1;
    }
    proof {
        assert forall|b: int| #[trigger] has_edge(graph_of(nodes@), mask, next as int, b) implies queued(
            queue@,
            b,
        ) by {
            let j = lemma_edge_place(graph_of(nodes@), mask, next as int, b);
            assert(carries(edges@[j].dep_kinds, mask));
        }
    }
}

/// What holds of the marks and the queue while the graph is walked.
spec fn walk_inv(
    g: Edges,
    mask: u8,
    seeds: Seq<usize>,
    used: Seq<bool>,
    queue: Seq<usize>,
) -> bool {
    &&& used.len() == g.len()
    &&& valid_seeds(seeds, g.len())
    &&& forall|i: int| 0 <= i < queue.len() ==> #[trigger] queue[i] < g.len()
    &&& forall|i: int| 0 <= i < queue.len() ==> reachable(g, mask, seeds, #[trigger] queue[i] as int)
    &&& forall|v: int| 0 <= v < g.len() && #[trigger] used[v] ==> reachable(g, mask, seeds, v)
    &&& forall|i: int|
        0 <= i < seeds.len() ==> used[#[trigger] seeds[i] as int] || queued(queue, seeds[i] as int)
    &&& forall|a: int, b: int|
        0 <= a < g.len() && used[a] && #[trigger] has_edge(g, mask, a, b) ==> 0 <= b < g.len() && (
        used[b] || queued(queue, b))
}

proof fn lemma_walk_start(g: Edges, mask: u8, seeds: Seq<usize>, used: Seq<bool>)
    requires
        valid_seeds(seeds, g.len()),
        used.len() == g.len(),
        forall|i: int| 0 <= i < used.len() ==> !used[i],
    ensures
        walk_inv(g, mask, seeds, used, seeds),
{
    assert forall|i: int| 0 <= i < seeds.len() implies reachable(
        g,
        mask,
        seeds,
        #[trigger] seeds[i] as int,
    ) by {
        lemma_reach_seed(g, mask, seeds, i);
    }
}

proof fn lemma_walk_skip(g: Edges, mask: u8, seeds: Seq<usize>, used: Seq<bool>, queue: Seq<usize>)
    requires
        walk_inv(g, mask, seeds, used, queue),
        queue.len() > 0,
        used[queue.last() as int],
    ensures
        walk_inv(g, mask, seeds, used, queue.drop_last()),
{
    let q = queue.drop_last();
    assert forall|x: int| queued(queue, x) implies x == queue.last() || queued(q, x) by {
        let j = choose|j: int| 0 <= j < queue.len() && #[trigger] queue[j] == x;
        if j < queue.len() - 1 {
            assert(q[j] == x);
        }
    }
    assert forall|i: int| 0 <= i < q.len() implies #[trigger] q[i] < g.len() by {
        assert(q[i] == queue[i]);
    }
    assert forall|i: int| 0 <= i < q.len() implies reachable(
        g,
        mask,
        seeds,
        #[trigger] q[i] as int,
    ) by {
        assert(q[i] == queue[i]);
    }
}

proof fn lemma_walk_visit(
    g: Edges,
    mask: u8,
    seeds: Seq<usize>,
    used: Seq<bool>,
    queue: Seq<usize>,
    after: Seq<usize>,
)
    requires
        valid_graph(g),
        walk_inv(g, mask, seeds, used, queue),
        queue.len() > 0,
        !used[queue.last() as int],
        after.len() >= queue.len() - 1,
        after.take(queue.len() - 1) == queue.drop_last(),
        forall|i: int|
            queue.len() - 1 <= i < after.len() ==> has_edge(
                g,
                mask,
                queue.last() as int,
                #[trigger] after[i] as int,
            ),
        forall|b: int| #[trigger] has_edge(g, mask, queue.last() as int, b) ==> queued(after, b),
    ensures
        walk_inv(g, mask, seeds, used.update(queue.last() as int, true), after),
{
    let next = queue.last() as int;
    let q = queue.drop_last();
    let used2 = used.update(next, true);
    assert(queue[queue.len() - 1] < g.len());
    assert(reachable(g, mask, seeds, queue[queue.len() - 1] as int));
    assert forall|i: int| 0 <= i < q.len() implies after[i] == queue[i] by {
        assert(after.take(queue.len() - 1)[i] == q[i]);
    }
    assert forall|x: int| queued(queue, x) implies x == next || queued(after, x) by {
        let j = choose|j: int| 0 <= j < queue.len() && #[trigger] queue[j] == x;
        if j < queue.len() - 1 {
            assert(after[j] == x);
        }
    }
    assert forall|i: int| 0 <= i < after.len() implies #[trigger] after[i] < g.len() by {
        if i < q.len() {
            assert(after[i] == queue[i]);
        } else {
            let k = lemma_edge_place(g, mask, next, after[i] as int);
            assert(g[next][k].id < g.len());
        }
    }
    assert forall|i: int| 0 <= i < after.len() implies reachable(
        g,
        mask,
        seeds,
        #[trigger] after[i] as int,
    ) by {
        if i < q.len() {
            assert(after[i] == queue[i]);
        } else {
            lemma_reach_step(g, mask, seeds, next, after[i] as int);
        }
    }
    assert forall|v: int| 0 <= v < g.len() && #[trigger] used2[v] implies reachable(
        g,
        mask,
        seeds,
        v,
    ) by {
        if v != next {
            assert(used[v]);
        }
    }
    assert forall|i: int| 0 <= i < seeds.len() implies used2[#[trigger] seeds[i] as int] || queued(
        after,
        seeds[i] as int,
    ) by {
        if !used[seeds[i] as int] {
            assert(queued(queue, seeds[i] as int));
        }
    }
    assert forall|a: int, b: int|
        0 <= a < g.len() && used2[a] && #[trigger] has_edge(g, mask, a, b) implies 0 <= b < g.len()
            && (used2[b] || queued(after, b)) by {
        let k = lemma_edge_place(g, mask, a, b);
        assert(g[a][k].id < g.len());
        if a != next {
            assert(used[a]);
            if !used[b] {
                assert(queued(queue, b));
            }
        } else {
            assert(has_edge(g, mask, queue.last() as int, b));
            assert(queued(after, b));
        }
    }
}

proof fn lemma_walk_done(g: Edges, mask: u8, seeds: Seq<usize>, used: Seq<bool>)
    requires
        valid_seeds(seeds, g.len()),
        walk_inv(g, mask, seeds, used, Seq::<usize>::empty()),
    ensures
        forall|n: int| 0 <= n < used.len() ==> used[n] == reachable(g, mask, seeds, n),
        forall|n: int| #[trigger] reachable(g, mask, seeds, n) ==> 0 <= n < used.len(),
{
    let e = Seq::<usize>::empty();
    assert forall|x: int| !queued(e, x) by {}
    assert(closed(g, mask, seeds, used)) by {
        assert forall|i: int| 0 <= i < seeds.len() implies used[#[trigger] seeds[i] as int] by {
            assert(!queued(e, seeds[i] as int));
        }
        assert forall|a: int, b: int|
            0 <= a < g.len() && used[a] && #[trigger] has_edge(g, mask, a, b) implies 0 <= b
                < g.len() && used[b] by {
            assert(!queued(e, b));
        }
    }
    assert forall|v: int| #[trigger] reachable(g, mask, seeds, v) implies 0 <= v < g.len()
        && used[v] by {
        reveal(reachable);
        let p = choose|p: Seq<int>| #[trigger] is_path(g, mask, seeds, p) && p.last() == v;
        lemma_closed_holds_path(g, mask, seeds, used, p);
    }
}

/// The nodes that can be reached from the seeds over edges that carry
/// `mask`: a node is marked exactly when some such path ends at it.
pub fn reach(nodes: &Vec<Vec<RawNodeDep>>, mask: u8, seeds: &Vec<usize>) -> (used: Vec<bool>)
    requires
        valid_graph(graph_of(nodes@)),
        valid_seeds(seeds@, nodes@.len()),
    ensures
        used@.len() == nodes@.len(),
        forall|n: int| 0 <= n < used@.len() ==> used@[n] == reachable(graph_of(nodes@), mask, seeds@, n),
        forall|n: int| #[trigger] reachable(graph_of(nodes@), mask, seeds@, n) ==> 0 <= n < used@.len(),
{
    let n = nodes.len();
    let mut used: Vec<bool> = Vec::new();
    while used.len() < n
        invariant
            used@.len() <= n,
            forall|i: int| 0 <= i < used@.len() ==> !used@[i],
        decreases n - used@.len(),
    {
        used.push(false);
    }
    let mut queue: Vec<usize> = Vec::new();
    let mut s: usize = 0;
    while s < seeds.len()
        invariant
            s <= seeds@.len(),
            queue@ == seeds@.take(s as int),
        decreases seeds@.len() - s,
    {
        queue.push(seeds[s]);
        s += 1;
    }
    proof {
        assert(queue@ == seeds@);
        lemma_walk_start(graph_of(nodes@), mask, seeds@, used@);
    }
    while queue.len() > 0
        invariant
            n == nodes@.len(),
            valid_graph(graph_of(nodes@)),
            walk_inv(graph_of(nodes@), mask, seeds@, used@, queue@),
        decreases count_false(used@), queue@.len(),
    {
        let ghost old_queue = queue@;
        let ghost old_used = used@;
        let next = queue.pop().unwrap();
        assert(old_queue[old_queue.len() - 1] < n);
        if !used[next] {
            used.set(next, true);
            push_children(nodes, mask, next, &mut queue);
            proof {
                lemma_count_update(old_used, next as int);
                lemma_walk_visit(graph_of(nodes@), mask, seeds@, old_used, old_queue, queue@);
            }
        } else {
            proof {
                lemma_walk_skip(graph_of(nodes@), mask, seeds@, old_used, old_queue);
            }
        }
    }
    proof {
        assert(queue@ =~= Seq::<usize>::empty());
        lemma_walk_done(graph_of(nodes@), mask, seeds@, used@);
    }
    used
}

} // verus!
