//! The listing of the tree command: one package to a line, its name and
//! then `v` and its version. The listing can only narrow the graph: a node
//! that it does not name loses its edges, and no edge leads to such a node.

use vstd::prelude::*;
use crate::cargo::{Raw, RawPackage};
use crate::context::edge_retained;
use crate::graph::{graph_of, valid_graph, Edges, RawNodeDep};
use crate::resolve::edges_retained;
use crate::resolve::RawResolve;
use crate::order::Order;
use crate::text::{
    chars_of, from_chars, pieces, slice_chars, split_chars, str_eq, to_chars, trim_start_of,
    white_space,
};
use crate::version::{semver_parse, Version, VersionView};

verus! {

/// How long the first word of the text is: the characters up to the first
/// white space.
pub open spec fn word_len(s: Seq<char>) -> nat
    decreases s.len(),
{
    if s.len() == 0 || white_space(s[0]) {
        0
    } else {
        1 + word_len(s.drop_first())
    }
}

/// The first word of a line: what stands between its leading white space and
/// the next white space.
pub open spec fn first_word(line: Seq<char>) -> Seq<char> {
    let t = trim_start_of(line);
    t.take(word_len(t) as int)
}

/// The line after its first word.
pub open spec fn after_first_word(line: Seq<char>) -> Seq<char> {
    let t = trim_start_of(line);
    t.skip(word_len(t) as int)
}

/// The package that a line names: its first word is the name, its second
/// is `v` and the version. A line of another form names nothing.
pub open spec fn line_names(line: Seq<char>) -> Option<(Seq<char>, VersionView)> {
    let name = first_word(line);
    let tag = first_word(after_first_word(line));
    if name.len() == 0 || tag.len() == 0 || tag[0] != 'v' {
        None
    } else {
        match semver_parse(tag.skip(1)) {
            Some(v) => Some((name, v)),
            None => None,
        }
    }
}

/// The lines of a text: what stands between its line feeds.
pub open spec fn lines_of(s: Seq<char>) -> Seq<Seq<char>> {
    pieces(s, '\n')
}

/// Where the first word of the text from `from` on ends.
fn word_end(v: &Vec<char>, from: usize) -> (end: usize)
    requires
        from <= v@.len(),
    ensures
        from <= end <= v@.len(),
        end - from == word_len(v@.skip(from as int)),
{
    let mut end: usize = from;
    while end < v.len() && !v[end].is_whitespace()
        invariant
            from <= end <= v@.len(),
            word_len(v@.skip(from as int)) == (end - from) + word_len(v@.skip(end as int)),
        decreases v@.len() - end,
    {
        assert(v@.skip(end as int)[0] == v@[end as int]);
        assert(v@.skip(end as int).drop_first() =~= v@.skip(end + 1));
        end += 1;
    }
    proof {
        if end < v@.len() {
            assert(v@.skip(end as int)[0] == v@[end as int]);
        }
    }
    end
}

/// Where the text from `from` on starts once its leading white space is left
/// out.
fn skip_space(v: &Vec<char>, from: usize) -> (start: usize)
    requires
        from <= v@.len(),
    ensures
        from <= start <= v@.len(),
        v@.skip(start as int) == trim_start_of(v@.skip(from as int)),
{
    let mut start: usize = from;
    while start < v.len() && v[start].is_whitespace()
        invariant
            from <= start <= v@.len(),
            trim_start_of(v@.skip(start as int)) == trim_start_of(v@.skip(from as int)),
        decreases v@.len() - start,
    {
        assert(v@.skip(start as int)[0] == v@[start as int]);
        assert(v@.skip(start as int).drop_first() =~= v@.skip(start + 1));
        start += 1;
    }
    proof {
        if start < v@.len() {
            assert(v@.skip(start as int)[0] == v@[start as int]);
        }
    }
    start
}

/// The package that a line names: see `line_names`.
pub fn parse_line(line: &Vec<char>) -> (r: Option<(Vec<char>, Version)>)
    ensures
        match r {
            Some((name, version)) => line_names(line@) == Some((name@, version@)),
            None => line_names(line@) is None,
        },
{
    assert(line@.skip(0) =~= line@);
    let a = skip_space(line, 0);
    let b = word_end(line, a);
    let name = slice_chars(line, a, b);
    proof {
        let t = trim_start_of(line@);
        assert(t == line@.skip(a as int));
        assert(t.take(word_len(t) as int) =~= line@.subrange(a as int, b as int));
        assert(t.skip(word_len(t) as int) =~= line@.skip(b as int));
    }
    let c = skip_space(line, b);
    let d = word_end(line, c);
    let tag = slice_chars(line, c, d);
    proof {
        let u = trim_start_of(line@.skip(b as int));
        assert(u == line@.skip(c as int));
        assert(u.take(word_len(u) as int) =~= line@.subrange(c as int, d as int));
    }
    if name.len() == 0 || tag.len() == 0 || tag[0] != 'v' {
        return None;
    }
    let digits = slice_chars(&tag, 1, tag.len());
    assert(digits@ =~= tag@.skip(1));
    let text = from_chars(&digits);
    match Version::parse(text.as_str()) {
        Some(v) => Some((name, v)),
        None => None,
    }
}

/// Some line of the listing names the package.
pub open spec fn listed(listing: Seq<char>, p: RawPackage) -> bool {
    exists|i: int|
        0 <= i < lines_of(listing).len() && line_names(#[trigger] lines_of(listing)[i]) == Some(
            (p.name@, p.version@),
        )
}

/// Some package is listed.
pub open spec fn any_listed(listing: Seq<char>, packages: Seq<RawPackage>) -> bool {
    exists|p: int| 0 <= p < packages.len() && listed(listing, #[trigger] packages[p])
}

/// For each of `n` nodes, whether it is a package that the listing names.
pub open spec fn marks_of(listing: Seq<char>, packages: Seq<RawPackage>, n: nat) -> Seq<bool> {
    Seq::new(n, |p: int| p < packages.len() && listed(listing, packages[p]))
}

/// Whether one of the first `upto` lines names the package.
spec fn listed_upto(lines: Seq<Seq<char>>, upto: int, p: RawPackage) -> bool {
    exists|i: int|
        0 <= i < upto && i < lines.len() && line_names(#[trigger] lines[i]) == Some(
            (p.name@, p.version@),
        )
}

/// Reads the listing of the tree command: for each of `n` nodes, whether it
/// is a package that some line names, by its name as written and its
/// version. Nothing where the listing names no package at all.
pub fn tree_marks(listing: &str, packages: &Vec<RawPackage>, n: usize) -> (r: Option<Vec<bool>>)
    requires
        packages@.len() <= n,
    ensures
        match r {
            Some(marks) => any_listed(listing@, packages@) && marks@ == marks_of(
                listing@,
                packages@,
                n as nat,
            ),
            None => !any_listed(listing@, packages@),
        },
{
    let chars = to_chars(listing);
    let lines = split_chars(&chars, '\n');
    let ghost texts = lines_of(listing@);
    let mut marks: Vec<bool> = Vec::new();
    while marks.len() < n
        invariant
            marks@.len() <= n,
            forall|p: int| 0 <= p < marks@.len() ==> !#[trigger] marks@[p],
        decreases n - marks@.len(),
    {
        marks.push(false);
    }
    let mut any = false;
    let mut i: usize = 0;
    while i < lines.len()
        invariant
            i <= lines@.len(),
            marks@.len() == n,
            packages@.len() <= n,
            chars_of(lines@) == texts,
            forall|p: int|
                0 <= p < n ==> #[trigger] marks@[p] == (p < packages@.len() && listed_upto(
                    texts,
                    i as int,
                    packages@[p],
                )),
            any == exists|p: int| 0 <= p < n && #[trigger] marks@[p],
        decreases lines@.len() - i,
    {
        let ghost before = marks@;
        assert(texts[i as int] == lines@[i as int]@);
        match parse_line(&lines[i]) {
            Some((name, version)) => {
                let text = from_chars(&name);
                let mut p: usize = 0;
                while p < packages.len()
                    invariant
                        p <= packages@.len(),
                        packages@.len() <= n,
                        marks@.len() == n,
                        text@ == name@,
                        forall|q: int| p <= q < n ==> #[trigger] marks@[q] == before[q],
                        forall|q: int|
                            0 <= q < p ==> #[trigger] marks@[q] == (before[q] || (packages@[q].name@
                                == name@ && packages@[q].version@ == version@)),
                    decreases packages@.len() - p,
                {
                    let pkg = &packages[p];
                    if str_eq(pkg.name.as_str(), text.as_str()) {
                        match pkg.version.compare(&version) {
                            Order::Equal => {
                                marks.set(p, true);
                            },
                            _ => {},
                        }
                    }
                    p += 1;
                }
                proof {
                    assert forall|q: int| 0 <= q < n implies #[trigger] marks@[q] == (q
                        < packages@.len() && listed_upto(texts, i + 1, packages@[q])) by {
                        if q < packages@.len() {
                            let hit = packages@[q].name@ == name@ && packages@[q].version@
                                == version@;
                            if hit {
                                assert(line_names(texts[i as int]) == Some(
                                    (packages@[q].name@, packages@[q].version@),
                                ));
                            }
                            if listed_upto(texts, i as int, packages@[q]) {
                                let j = choose|j: int|
                                    0 <= j < i && j < texts.len() && line_names(
                                        #[trigger] texts[j],
                                    ) == Some((packages@[q].name@, packages@[q].version@));
                                assert(line_names(texts[j]) == Some(
                                    (packages@[q].name@, packages@[q].version@),
                                ));
                            }
                        }
                    }
                }
            },
            None => {
                proof {
                    assert forall|q: int| 0 <= q < n implies #[trigger] marks@[q] == (q
                        < packages@.len() && listed_upto(texts, i + 1, packages@[q])) by {
                        if q < packages@.len() {
                            if listed_upto(texts, i as int, packages@[q]) {
                                let j = choose|j: int|
                                    0 <= j < i && j < texts.len() && line_names(
                                        #[trigger] texts[j],
                                    ) == Some((packages@[q].name@, packages@[q].version@));
                                assert(line_names(texts[j]) == Some(
                                    (packages@[q].name@, packages@[q].version@),
                                ));
                            }
                        }
                    }
                }
            },
        }
        any = false;
        let mut q: usize = 0;
        while q < n
            invariant
                q <= n,
                marks@.len() == n,
                any == exists|p: int| 0 <= p < q && #[trigger] marks@[p],
            decreases n - q,
        {
            if marks[q] {
                any = true;
            }
            q += 1;
        }
        i += 1;
    }
    proof {
        assert forall|p: int| 0 <= p < n implies #[trigger] marks@[p] == marks_of(
            listing@,
            packages@,
            n as nat,
        )[p] by {
            if p < packages@.len() {
                assert(listed_upto(texts, lines@.len() as int, packages@[p]) == listed(
                    listing@,
                    packages@[p],
                ));
            }
        }
        assert(marks@ =~= marks_of(listing@, packages@, n as nat));
        if any {
            let p = choose|p: int| 0 <= p < n && #[trigger] marks@[p];
            assert(listed(listing@, packages@[p]));
        }
        if any_listed(listing@, packages@) {
            let p = choose|p: int| 0 <= p < packages@.len() && listed(listing@, #[trigger] packages@[p]);
            assert(marks@[p]);
        }
    }
    if any {
        Some(marks)
    } else {
        None
    }
}

/// The edges of a row that lead to kept nodes.
pub open spec fn kept_edges(row: Seq<RawNodeDep>, keep: Seq<bool>) -> Seq<RawNodeDep>
    decreases row.len(),
{
    if row.len() == 0 {
        Seq::<RawNodeDep>::empty()
    } else if keep[row.last().id as int] {
        kept_edges(row.drop_last(), keep).push(row.last())
    } else {
        kept_edges(row.drop_last(), keep)
    }
}

/// The graph narrowed to the kept nodes: a node that is not kept has no
/// edges, and a kept node has its edges to kept nodes.
pub open spec fn pruned(g: Edges, keep: Seq<bool>) -> Edges {
    Seq::new(
        g.len(),
        |a: int|
            if keep[a] {
                kept_edges(g[a], keep)
            } else {
                Seq::<RawNodeDep>::empty()
            },
    )
}

/// Every kept edge is an edge of the row.
pub proof fn lemma_kept_edges(row: Seq<RawNodeDep>, keep: Seq<bool>, k: int) -> (j: int)
    requires
        0 <= k < kept_edges(row, keep).len(),
    ensures
        0 <= j < row.len(),
        row[j] == kept_edges(row, keep)[k],
        keep[row[j].id as int],
    decreases row.len(),
{
    let front = row.drop_last();
    if keep[row.last().id as int] && k == kept_edges(front, keep).len() {
        row.len() - 1
    } else {
        let j = lemma_kept_edges(front, keep, k);
        assert(front[j] == row[j]);
        j
    }
}

/// Narrowing keeps a graph sound and its edges classified.
pub proof fn lemma_pruned_sound(g: Edges, keep: Seq<bool>)
    requires
        valid_graph(g),
        keep.len() == g.len(),
    ensures
        valid_graph(pruned(g, keep)),
        edges_retained(g) ==> edges_retained(pruned(g, keep)),
{
    let h = pruned(g, keep);
    assert forall|a: int, k: int| 0 <= a < h.len() && 0 <= k < h[a].len() implies (
    #[trigger] h[a][k]).id < h.len() && (edges_retained(g) ==> edge_retained(h[a][k].dep_kinds)) by {
        let j = lemma_kept_edges(g[a], keep, k);
        assert(g[a][j] == h[a][k]);
    }
}

impl RawResolve {
    /// Narrows the graph to the kept nodes.
    pub fn retain(&mut self, keep: &Vec<bool>)
        requires
            old(self).wf(),
            keep@.len() == old(self).nodes@.len(),
        ensures
            final(self).root == old(self).root,
            final(self).nodes@.len() == old(self).nodes@.len(),
            graph_of(final(self).nodes@) == pruned(graph_of(old(self).nodes@), keep@),
            final(self).wf(),
    {
        let ghost g = graph_of(self.nodes@);
        let n = self.nodes.len();
        let mut out: Vec<Vec<RawNodeDep>> = Vec::new();
        let mut a: usize = 0;
        while a < n
            invariant
                a <= n,
                n == self.nodes@.len(),
                keep@.len() == n,
                g == graph_of(self.nodes@),
                valid_graph(g),
                out@.len() == a,
                forall|q: int| 0 <= q < a ==> (#[trigger] out@[q])@ == pruned(g, keep@)[q],
            decreases n - a,
        {
            let mut row: Vec<RawNodeDep> = Vec::new();
            if keep[a] {
                let edges = &self.nodes[a];
                let mut k: usize = 0;
                assert(edges@.take(0) =~= Seq::<RawNodeDep>::empty());
                while k < edges.len()
                    invariant
                        k <= edges@.len(),
                        a < n,
                        n == self.nodes@.len(),
                        keep@.len() == n,
                        g == graph_of(self.nodes@),
                        valid_graph(g),
                        edges@ == g[a as int],
                        row@ == kept_edges(edges@.take(k as int), keep@),
                    decreases edges@.len() - k,
                {
                    let e = edges[k];
                    assert(g[a as int][k as int] == e);
                    assert(edges@.take(k + 1).drop_last() =~= edges@.take(k as int));
                    assert(edges@.take(k + 1).last() == e);
                    if keep[e.id] {
                        row.push(e);
                    }
                    k += 1;
                }
                assert(edges@.take(edges@.len() as int) =~= edges@);
            }
            out.push(row);
            a += 1;
        }
        proof {
            assert(graph_of(out@) =~= pruned(g, keep@));
            lemma_pruned_sound(g, keep@);
        }
        self.nodes = out;
    }
}

impl Raw {
    /// Whether the listing can narrow the graph: it names some package, and
    /// the root among them.
    pub open spec fn corroborated(&self, listing: Seq<char>) -> bool {
        &&& self.resolve.root matches Some(r)
        &&& r < self.packages@.len()
        &&& listed(listing, self.packages@[r as int])
    }

    /// Holds the graph against the listing of the tree command. Where the
    /// listing names the root, the graph is narrowed to the packages that
    /// the listing names; else the graph stays as it is. What is used is
    /// still found by walking the graph.
    pub fn corroborate(&mut self, listing: &str)
        requires
            old(self).wf(),
        ensures
            final(self).wf(),
            final(self).packages == old(self).packages,
            final(self).workspace_members == old(self).workspace_members,
            final(self).resolve.root == old(self).resolve.root,
            final(self).graph() == (if old(self).corroborated(listing@) {
                pruned(
                    old(self).graph(),
                    marks_of(listing@, old(self).packages@, old(self).resolve.nodes@.len() as nat),
                )
            } else {
                old(self).graph()
            }),
    {
        let n = self.resolve.nodes.len();
        match tree_marks(listing, &self.packages, n) {
            Some(marks) => {
                let usable = match self.resolve.root {
                    Some(r) => r < self.packages.len() && marks[r],
                    None => false,
                };
                if usable {
                    let ghost g = self.graph();
                    proof {
                        lemma_pruned_sound(g, marks@);
                    }
                    self.resolve.retain(&marks);
                    assert(self.graph() == pruned(g, marks@));
                    assert(edges_retained(self.graph()));
                }
            },
            None => {
                proof {
                    if self.corroborated(listing@) {
                        assert(listed(listing@, self.packages@[self.resolve.root->0 as int]));
                        assert(any_listed(listing@, self.packages@));
                    }
                }
            },
        }
    }
}

} // verus!
