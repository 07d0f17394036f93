//! From the packages of a graph to the list of its dependencies.

use vstd::prelude::*;
use crate::author::{authors_text, deserialize_authors, texts};
use crate::context::FLAG_OPTIONAL;
use crate::credits::{
    has_key, insert, is_merged, lemma_sorted_same_keys, merge_optional, sorted,
};
use crate::context::{edge_retained, MASK_CTX, MASK_EDGE, MASK_TARGET};
use crate::graph::{graph_of, reachable, valid_graph, valid_seeds, Edges};
use crate::resolve::{
    edges_retained, lemma_settled_context, node_context, seeds_of, RawResolve,
};
use crate::err::BashManError;
use crate::license::{deserialize_license, license_text};
use crate::list::reversed;
use crate::pkg::{name_key, DepKey, Dependency, PackageName};
use crate::text::{has_alpha, str_eq};
use crate::version::Version;

verus! {

/// The normal form of the address that a text holds; nothing where the text
/// is no address.
pub uninterp spec fn url_text(raw: Seq<char>) -> Option<Seq<char>>;

/// `url::Url::parse` reads an absolute address; the address is handed on in
/// its normal form, as `Url` prints it. Its result depends on the text alone.
#[verifier::external_body]
fn parse_url(raw: &str) -> (r: Option<String>)
    ensures
        match r {
            Some(u) => url_text(raw@) == Some(u@),
            None => url_text(raw@) is None,
        },
{
    match url::Url::parse(raw) {
        Ok(u) => Some(String::from(u)),
        Err(_) => None,
    }
}

/// A package as the metadata gives it.
#[derive(Clone, Debug)]
pub struct RawPackage {
    /// The identity of the package within one payload.
    pub id: String,
    pub name: PackageName,
    pub version: Version,
    /// The license, as written.
    pub license: Option<String>,
    /// The author lines, as written.
    pub authors: Vec<String>,
    /// The address of the repository, as written.
    pub repository: Option<String>,
    /// Whether the package declares features beyond a lone `default`.
    pub features: bool,
}

/// Whether a list of feature names calls for a second look at the graph:
/// two names or more do, and one does unless it is `default`.
pub open spec fn has_features(names: Seq<String>) -> bool {
    names.len() >= 2 || (names.len() == 1 && names[0]@ != "default"@)
}

/// Whether a package with these feature names has features worth a second
/// look.
pub fn deserialize_features(names: &Vec<String>) -> (r: bool)
    ensures
        r == has_features(names@),
{
    if names.len() >= 2 {
        true
    } else if names.len() == 1 {
        !str_eq(names[0].as_str(), "default")
    } else {
        false
    }
}

/// The text of an optional string.
pub open spec fn opt_text(o: Option<String>) -> Option<Seq<char>> {
    match o {
        Some(s) => Some(s@),
        None => None,
    }
}

/// The license of a dependency, from the license as written.
pub open spec fn license_of(raw: Option<String>) -> Option<Seq<char>> {
    match raw {
        Some(s) => if has_alpha(s@) && license_text(s@).len() > 0 {
            Some(license_text(s@))
        } else {
            None
        },
        None => None,
    }
}

/// The address of a dependency, from the address as written.
pub open spec fn url_of(raw: Option<String>) -> Option<Seq<char>> {
    match raw {
        Some(s) => url_text(s@),
        None => None,
    }
}

/// The address of the repository, where one is written, is an address.
pub open spec fn url_ok(raw: Option<String>) -> bool {
    raw matches Some(s) ==> url_text(s@) is Some
}

/// `d` is the dependency that the package `p` makes with the flags
/// `context`.
pub open spec fn is_dep_of(d: Dependency, p: RawPackage, context: u8) -> bool {
    &&& d.name == p.name
    &&& d.version == p.version
    &&& opt_text(d.license) == license_of(p.license)
    &&& texts(d.authors@) == authors_text(p.authors@)
    &&& opt_text(d.url) == url_of(p.repository)
    &&& d.context == context
}

/// What is said of an address that is none.
pub open spec fn bad_url() -> Seq<char> {
    "invalid repository URL"@
}

impl RawPackage {
    /// The key of the dependency that the package makes.
    pub open spec fn key(&self) -> DepKey {
        DepKey { name: name_key(self.name@), version: self.version@ }
    }

    /// Makes the package a dependency with the given flags and the given
    /// address. The license and the authors are tidied.
    pub fn into_dependency(self, context: u8, url: Option<String>) -> (d: Dependency)
        ensures
            d.name == self.name,
            d.version == self.version,
            opt_text(d.license) == license_of(self.license),
            texts(d.authors@) == authors_text(self.authors@),
            d.url == url,
            d.context == context,
    {
        let license: Option<String> = match &self.license {
            Some(raw) => deserialize_license(raw.as_str()),
            None => None,
        };
        let authors = deserialize_authors(&self.authors);
        Dependency { name: self.name, version: self.version, license, authors, url, context }
    }

    /// Makes the package a dependency with the given flags. The license and
    /// the authors are tidied, and the address is put in its normal form; an
    /// address that is none is refused.
    pub fn try_into_dependency(self, context: u8) -> (r: Result<Dependency, BashManError>)
        ensures
            match r {
                Ok(d) => url_ok(self.repository) && is_dep_of(d, self, context),
                Err(e) => !url_ok(self.repository) && (e matches BashManError::ParseCargoMetadata(
                    t,
                ) && t@ == bad_url()),
            },
    {
        let url: Option<String> = match &self.repository {
            Some(raw) => match parse_url(raw.as_str()) {
                Some(u) => Some(u),
                None => {
                    return Err(
                        BashManError::ParseCargoMetadata("invalid repository URL".to_owned()),
                    );
                },
            },
            None => None,
        };
        Ok(self.into_dependency(context, url))
    }
}

/// Whether package `p` makes a dependency: it is used, it is not the root,
/// and, where a bad address is passed over rather than refused, its address
/// is good.
pub open spec fn selected(
    packages: Seq<RawPackage>,
    used: Seq<bool>,
    root: Option<usize>,
    strict: bool,
    p: int,
) -> bool {
    &&& 0 <= p < packages.len()
    &&& used[p]
    &&& root != Some(p as usize)
    &&& (strict || url_ok(packages[p].repository))
}

/// Package `p` is the first of the selected packages with its name and
/// version.
pub open spec fn first_selected(
    packages: Seq<RawPackage>,
    used: Seq<bool>,
    root: Option<usize>,
    strict: bool,
    p: int,
) -> bool {
    &&& selected(packages, used, root, strict, p)
    &&& forall|q: int|
        0 <= q < p && selected(packages, used, root, strict, q) ==> (#[trigger] packages[q]).key()
            != packages[p].key()
}

/// Where the entry `d` of the list comes from: the first selected package of
/// its name and version, with the flags of that package.
pub open spec fn assembled_entry(
    d: Dependency,
    packages: Seq<RawPackage>,
    used: Seq<bool>,
    contexts: Seq<u8>,
    root: Option<usize>,
    strict: bool,
    upto: int,
) -> bool {
    exists|p: int|
        0 <= p < upto && first_selected(packages, used, root, strict, p) && #[trigger] is_dep_of(
            d,
            packages[p],
            contexts[p],
        )
}

/// `deps` is the list that the first `upto` packages make.
pub open spec fn is_assembled(
    deps: Seq<Dependency>,
    packages: Seq<RawPackage>,
    used: Seq<bool>,
    contexts: Seq<u8>,
    root: Option<usize>,
    strict: bool,
    upto: int,
) -> bool {
    &&& sorted(deps)
    &&& forall|i: int|
        0 <= i < deps.len() ==> assembled_entry(
            #[trigger] deps[i],
            packages,
            used,
            contexts,
            root,
            strict,
            upto,
        )
    &&& forall|p: int|
        0 <= p < upto && selected(packages, used, root, strict, p) ==> has_key(
            deps,
            (#[trigger] packages[p]).key(),
        )
}

/// Some selected package has an address that is none.
pub open spec fn some_bad_url(
    packages: Seq<RawPackage>,
    used: Seq<bool>,
    root: Option<usize>,
) -> bool {
    exists|p: int| #[trigger]
        selected(packages, used, root, true, p) && !url_ok(packages[p].repository)
}

/// Makes the list of dependencies: one for each package that is used and is
/// not the root, with the flags gathered for it, in order of name and
/// version. Of several packages of one name and version the first counts.
///
/// Where `strict` holds, a package whose address is none makes the whole
/// list fail; else that package is left out.
pub fn assemble(
    packages: Vec<RawPackage>,
    used: &Vec<bool>,
    contexts: &Vec<u8>,
    root: Option<usize>,
    strict: bool,
) -> (r: Result<Vec<Dependency>, BashManError>)
    requires
        packages@.len() <= used@.len(),
        used@.len() == contexts@.len(),
    ensures
        match r {
            Ok(deps) => is_assembled(
                deps@,
                packages@,
                used@,
                contexts@,
                root,
                strict,
                packages@.len() as int,
            ) && !(strict && some_bad_url(packages@, used@, root)),
            Err(e) => strict && some_bad_url(packages@, used@, root) && (
            e matches BashManError::ParseCargoMetadata(t) && t@ == bad_url()),
        },
{
    let ghost all = packages@;
    let n = packages.len();
    let mut rest = reversed(packages);
    let mut deps: Vec<Dependency> = Vec::new();
    let mut p: usize = 0;
    while p < n
        invariant
            all == packages@,
            n == all.len(),
            p <= n,
            n <= used@.len(),
            used@.len() == contexts@.len(),
            rest@.len() == n - p,
            forall|i: int| 0 <= i < rest@.len() ==> #[trigger] rest@[i] == all[n - 1 - i],
            is_assembled(deps@, all, used@, contexts@, root, strict, p as int),
            strict ==> forall|q: int|
                0 <= q < p && #[trigger] selected(all, used@, root, true, q) ==> url_ok(
                    all[q].repository,
                ),
        decreases n - p,
    {
        let pkg = rest.pop().unwrap();
        assert(pkg == all[p as int]);
        let ghost before = deps@;
        let is_root = match root {
            Some(r) => r == p,
            None => false,
        };
        if used[p] && !is_root {
            let context: u8 = contexts[p];
            match pkg.try_into_dependency(context) {
                Ok(d) => {
                    let ghost d0 = d;
                    let added = insert(&mut deps, d);
                    proof {
                        let after = deps@;
                        assert(selected(all, used@, root, strict, p as int));
                        if added {
                            let at = choose|at: int|
                                0 <= at <= before.len() && after == #[trigger] before.insert(at, d0);
                            assert(after[at] == d0);
                            // No earlier selected package has this key.
                            assert forall|q: int|
                                0 <= q < p && selected(all, used@, root, strict, q) implies (
                            #[trigger] all[q]).key() != all[p as int].key() by {
                                if all[q].key() == all[p as int].key() {
                                    assert(has_key(before, all[q].key()));
                                }
                            }
                            assert(first_selected(all, used@, root, strict, p as int));
                            assert forall|i: int| 0 <= i < after.len() implies assembled_entry(
                                #[trigger] after[i],
                                all,
                                used@,
                                contexts@,
                                root,
                                strict,
                                p + 1,
                            ) by {
                                if i == at {
                                    assert(is_dep_of(d0, all[p as int], contexts@[p as int]));
                                } else {
                                    let i0 = if i < at {
                                        i
                                    } else {
                                        i - 1
                                    };
                                    assert(after[i] == before[i0]);
                                    lemma_entry_upto(before[i0], all, used@, contexts@, root, strict, p as int);
                                }
                            }
                            assert forall|q: int|
                                0 <= q < p + 1 && selected(all, used@, root, strict, q) implies has_key(
                                after,
                                (#[trigger] all[q]).key(),
                            ) by {
                                if q < p {
                                    let i = choose|i: int|
                                        0 <= i < before.len() && #[trigger] before[i].key() == all[q].key();
                                    if i < at {
                                        assert(after[i] == before[i]);
                                    } else {
                                        assert(after[i + 1] == before[i]);
                                    }
                                } else {
                                    assert(after[at].key() == all[q].key());
                                }
                            }
                        } else {
                            assert forall|i: int| 0 <= i < after.len() implies assembled_entry(
                                #[trigger] after[i],
                                all,
                                used@,
                                contexts@,
                                root,
                                strict,
                                p + 1,
                            ) by {
                                lemma_entry_upto(before[i], all, used@, contexts@, root, strict, p as int);
                            }
                        }
                    }
                },
                Err(e) => {
                    if strict {
                        proof {
                            assert(selected(all, used@, root, true, p as int));
                            assert(!url_ok(all[p as int].repository));
                            assert(some_bad_url(all, used@, root));
                        }
                        return Err(e);
                    }
                    proof {
                        assert(!selected(all, used@, root, strict, p as int));
                        assert forall|i: int| 0 <= i < before.len() implies assembled_entry(
                            #[trigger] before[i],
                            all,
                            used@,
                            contexts@,
                            root,
                            strict,
                            p + 1,
                        ) by {
                            lemma_entry_upto(before[i], all, used@, contexts@, root, strict, p as int);
                        }
                    }
                },
            }
        } else {
            proof {
                assert(!selected(all, used@, root, strict, p as int));
                assert forall|i: int| 0 <= i < before.len() implies assembled_entry(
                    #[trigger] before[i],
                    all,
                    used@,
                    contexts@,
                    root,
                    strict,
                    p + 1,
                ) by {
                    lemma_entry_upto(before[i], all, used@, contexts@, root, strict, p as int);
                }
            }
        }
        p += 1;
    }
    proof {
        if strict && some_bad_url(all, used@, root) {
            let q = choose|q: int| #[trigger]
                selected(all, used@, root, true, q) && !url_ok(all[q].repository);
            assert(false);
        }
    }
    Ok(deps)
}

proof fn lemma_entry_upto(
    d: Dependency,
    packages: Seq<RawPackage>,
    used: Seq<bool>,
    contexts: Seq<u8>,
    root: Option<usize>,
    strict: bool,
    upto: int,
)
    requires
        assembled_entry(d, packages, used, contexts, root, strict, upto),
    ensures
        assembled_entry(d, packages, used, contexts, root, strict, upto + 1),
{
    let p = choose|p: int|
        0 <= p < upto && first_selected(packages, used, root, strict, p) && #[trigger] is_dep_of(
            d,
            packages[p],
            contexts[p],
        );
    assert(is_dep_of(d, packages[p], contexts[p]));
}

/// One payload of metadata: the packages, the workspace members and the
/// resolved graph. Node `i` of the graph is package `i`, as far as there are
/// packages.
pub struct Raw {
    pub packages: Vec<RawPackage>,
    pub workspace_members: Vec<usize>,
    pub resolve: RawResolve,
}

/// What is said where the root has no package.
pub open spec fn no_root() -> Seq<char> {
    "root package not found"@
}

impl Raw {
    /// The graph is sound, its edges are classified, and the members and
    /// the packages are nodes of it.
    pub open spec fn wf(&self) -> bool {
        &&& self.resolve.wf()
        &&& valid_seeds(self.workspace_members@, self.resolve.nodes@.len())
        &&& self.packages@.len() <= self.resolve.nodes@.len()
        &&& edges_retained(graph_of(self.resolve.nodes@))
    }

    /// The graph.
    pub open spec fn graph(&self) -> Edges {
        graph_of(self.resolve.nodes@)
    }

    /// Where the walks start.
    pub open spec fn seeds(&self) -> Seq<usize> {
        seeds_of(self.resolve.root, self.workspace_members@)
    }

    /// For each node, whether it is used: some path from a seed ends at it.
    pub open spec fn used(&self) -> Seq<bool> {
        Seq::new(self.resolve.nodes@.len(), |v: int| reachable(self.graph(), 0, self.seeds(), v))
    }

    /// For each node, its flags.
    pub open spec fn contexts(&self, targeted: bool) -> Seq<u8> {
        Seq::new(
            self.resolve.nodes@.len(),
            |c: int| node_context(self.graph(), self.seeds(), self.workspace_members@, targeted, c),
        )
    }

    /// `deps` is the list of dependencies of this payload.
    pub open spec fn lists(&self, deps: Seq<Dependency>, targeted: bool, strict: bool) -> bool {
        is_assembled(
            deps,
            self.packages@,
            self.used(),
            self.contexts(targeted),
            self.resolve.root,
            strict,
            self.packages@.len() as int,
        )
    }

    /// Some used package other than the root has an address that is none.
    pub open spec fn bad_url(&self) -> bool {
        some_bad_url(self.packages@, self.used(), self.resolve.root)
    }

    /// The root is there and has a package.
    pub open spec fn root_known(&self) -> bool {
        self.resolve.root matches Some(r) && r < self.packages@.len()
    }

    /// Whether the root package has features worth a second look.
    pub open spec fn root_features(&self) -> bool {
        self.resolve.root matches Some(r) && r < self.packages@.len() && self.packages@[r as int].features
    }

    /// Whether the payload is sound: see `wf`.
    pub fn valid(&self) -> (r: bool)
        ensures
            r == self.wf(),
    {
        let n = self.resolve.nodes.len();
        let ghost g = graph_of(self.resolve.nodes@);
        match self.resolve.root {
            Some(r) => if r >= n {
                return false;
            },
            None => {},
        }
        if self.packages.len() > n {
            return false;
        }
        let mut i: usize = 0;
        while i < self.workspace_members.len()
            invariant
                i <= self.workspace_members@.len(),
                n == self.resolve.nodes@.len(),
                forall|j: int| 0 <= j < i ==> #[trigger] self.workspace_members@[j] < n,
            decreases self.workspace_members@.len() - i,
        {
            if self.workspace_members[i] >= n {
                assert(!(self.workspace_members@[i as int] < n));
                return false;
            }
            i += 1;
        }
        let mut a: usize = 0;
        while a < n
            invariant
                a <= n,
                n == self.resolve.nodes@.len(),
                g == graph_of(self.resolve.nodes@),
                forall|x: int, k: int|
                    0 <= x < a && 0 <= k < g[x].len() ==> (#[trigger] g[x][k]).id < n
                        && edge_retained(g[x][k].dep_kinds),
            decreases n - a,
        {
            let row = &self.resolve.nodes[a];
            assert(row@ == g[a as int]);
            let mut k: usize = 0;
            while k < row.len()
                invariant
                    k <= row@.len(),
                    a < n,
                    n == self.resolve.nodes@.len(),
                    g == graph_of(self.resolve.nodes@),
                    row@ == g[a as int],
                    forall|j: int|
                        0 <= j < k ==> (#[trigger] g[a as int][j]).id < n && edge_retained(
                            g[a as int][j].dep_kinds,
                        ),
                decreases row@.len() - k,
            {
                let e = row[k];
                assert(e == g[a as int][k as int]);
                let ok = e.id < n && e.dep_kinds & MASK_CTX != 0 && e.dep_kinds & MASK_TARGET != 0
                    && e.dep_kinds & MASK_EDGE == e.dep_kinds;
                if !ok {
                    assert(!(g[a as int][k as int].id < g.len() && edge_retained(
                        g[a as int][k as int].dep_kinds,
                    )));
                    return false;
                }
                k += 1;
            }
            a += 1;
        }
        assert(valid_graph(g) && crate::resolve::edges_retained(g));
        true
    }

    /// The root package.
    pub fn main(&self) -> (r: Option<&RawPackage>)
        ensures
            match r {
                Some(p) => self.root_known() && *p == self.packages@[self.resolve.root->0 as int],
                None => !self.root_known(),
            },
    {
        match self.resolve.root {
            Some(r) => if r < self.packages.len() {
                Some(&self.packages[r])
            } else {
                None
            },
            None => None,
        }
    }

    /// The dependencies of the payload: the graph is settled, the flags of
    /// each node are gathered, and each used package but the root becomes a
    /// dependency with its flags.
    pub fn dependencies(self, targeted: bool, strict: bool) -> (r: Result<
        Vec<Dependency>,
        BashManError,
    >)
        requires
            self.wf(),
        ensures
            match r {
                Ok(deps) => self.lists(deps@, targeted, strict) && !(strict && self.bad_url()),
                Err(e) => strict && self.bad_url() && (e matches BashManError::ParseCargoMetadata(
                    t,
                ) && t@ == bad_url()),
            },
    {
        let ghost me = self;
        let Raw { packages, workspace_members, resolve } = self;
        let mut resolve = resolve;
        let ghost g = graph_of(resolve.nodes@);
        let ghost seeds = seeds_of(resolve.root, workspace_members@);
        let used = resolve.finalize(&workspace_members);
        let flags = resolve.flags(targeted);
        let n = flags.len();
        let mut contexts: Vec<u8> = Vec::new();
        let mut c: usize = 0;
        while c < n
            invariant
                c <= n,
                n == flags@.len(),
                contexts@.len() == c,
                forall|i: int|
                    0 <= i < c ==> #[trigger] contexts@[i] == (match flags@[i] {
                        Some(f) => f,
                        None => 0,
                    }),
            decreases n - c,
        {
            let f: u8 = match flags[c] {
                Some(f) => f,
                None => 0,
            };
            contexts.push(f);
            c += 1;
        }
        proof {
            assert forall|i: int| 0 <= i < n implies #[trigger] contexts@[i] == me.contexts(
                targeted,
            )[i] by {
                lemma_settled_context(
                    g,
                    graph_of(resolve.nodes@),
                    seeds,
                    workspace_members@,
                    targeted,
                    i,
                    flags@[i],
                );
            }
            assert(contexts@ =~= me.contexts(targeted));
            assert(used@ =~= me.used());
        }
        assemble(packages, &used, &contexts, resolve.root, strict)
    }
}

/// `deps` is what the two payloads make together: the list of the first,
/// and, where the root of the first has features and there is a second, the
/// list of the second taken into it.
pub open spec fn is_fetched(
    deps: Seq<Dependency>,
    first: Raw,
    second: Option<Raw>,
    targeted: bool,
) -> bool {
    exists|base: Seq<Dependency>| #[trigger]
        first.lists(base, targeted, true) && (if first.root_features() && second is Some {
            exists|extra: Seq<Dependency>| #[trigger]
                second->0.lists(extra, targeted, false) && is_merged(deps, base, extra)
        } else {
            deps == base
        })
}

/// The dependencies of a package, from the metadata of its graph with the
/// default features and, where it could be had, the metadata with all
/// features.
///
/// The first payload decides: a used package with an address that is none,
/// or a root without a package, is an error. The second only adds: what it
/// cannot give is left out.
pub fn fetch(first: Raw, second: Option<Raw>, targeted: bool) -> (r: Result<
    Vec<Dependency>,
    BashManError,
>)
    requires
        first.wf(),
        second matches Some(s) ==> s.wf(),
    ensures
        match r {
            Ok(deps) => !first.bad_url() && first.root_known() && is_fetched(
                deps@,
                first,
                second,
                targeted,
            ),
            Err(e) => e matches BashManError::ParseCargoMetadata(t) && (if first.bad_url() {
                t@ == bad_url()
            } else {
                !first.root_known() && t@ == no_root()
            }),
        },
{
    let features = match first.main() {
        Some(p) => Some(p.features),
        None => None,
    };
    let mut deps = match first.dependencies(targeted, true) {
        Ok(d) => d,
        Err(e) => {
            return Err(e);
        },
    };
    let ghost base = deps@;
    let features = match features {
        Some(f) => f,
        None => {
            return Err(
                BashManError::ParseCargoMetadata("root package not found".to_owned()),
            );
        },
    };
    if features {
        match second {
            Some(s) => {
                match s.dependencies(targeted, false) {
                    Ok(extra) => {
                        let ghost more = extra@;
                        merge_optional(&mut deps, extra);
                        assert(s.lists(more, targeted, false) && is_merged(deps@, base, more));
                    },
                    Err(_) => {},
                }
            },
            None => {},
        }
    }
    assert(first.lists(base, targeted, true));
    Ok(deps)
}

/// The two dependencies read the same: the same name, version and flags,
/// and the same texts.
pub open spec fn same_reading(a: Dependency, b: Dependency) -> bool {
    &&& a.name == b.name
    &&& a.version == b.version
    &&& opt_text(a.license) == opt_text(b.license)
    &&& texts(a.authors@) == texts(b.authors@)
    &&& opt_text(a.url) == opt_text(b.url)
    &&& a.context == b.context
}

/// The root never shows in the list: every entry is made from a used
/// package that is not the root.
pub proof fn lemma_root_excluded(
    deps: Seq<Dependency>,
    packages: Seq<RawPackage>,
    used: Seq<bool>,
    contexts: Seq<u8>,
    root: Option<usize>,
    strict: bool,
    i: int,
) -> (p: int)
    requires
        is_assembled(deps, packages, used, contexts, root, strict, packages.len() as int),
        0 <= i < deps.len(),
    ensures
        0 <= p < packages.len(),
        root != Some(p as usize),
        used[p],
        is_dep_of(deps[i], packages[p], contexts[p]),
{
    assert(assembled_entry(deps[i], packages, used, contexts, root, strict, packages.len() as int));
    choose|p: int|
        0 <= p < packages.len() && first_selected(packages, used, root, strict, p)
            && #[trigger] is_dep_of(deps[i], packages[p], contexts[p])
}

/// Where no other used package has the name and version of the root, no
/// entry of the list has them.
pub proof fn lemma_root_key_excluded(
    deps: Seq<Dependency>,
    packages: Seq<RawPackage>,
    used: Seq<bool>,
    contexts: Seq<u8>,
    root: usize,
    strict: bool,
)
    requires
        is_assembled(deps, packages, used, contexts, Some(root), strict, packages.len() as int),
        root < packages.len(),
        forall|p: int|
            0 <= p < packages.len() && p != root && used[p] ==> (#[trigger] packages[p]).key()
                != packages[root as int].key(),
    ensures
        !has_key(deps, packages[root as int].key()),
{
    if has_key(deps, packages[root as int].key()) {
        let i = choose|i: int|
            0 <= i < deps.len() && #[trigger] deps[i].key() == packages[root as int].key();
        let p = lemma_root_excluded(deps, packages, used, contexts, Some(root), strict, i);
        assert(packages[p].key() == deps[i].key());
    }
}

/// The list is settled by the packages, the marks and the flags: two lists
/// made of the same read the same, entry by entry.
pub proof fn lemma_assembled_once(
    a: Seq<Dependency>,
    b: Seq<Dependency>,
    packages: Seq<RawPackage>,
    used: Seq<bool>,
    contexts: Seq<u8>,
    root: Option<usize>,
    strict: bool,
)
    requires
        is_assembled(a, packages, used, contexts, root, strict, packages.len() as int),
        is_assembled(b, packages, used, contexts, root, strict, packages.len() as int),
    ensures
        a.len() == b.len(),
        forall|i: int| 0 <= i < a.len() ==> same_reading(#[trigger] a[i], b[i]),
{
    let n = packages.len() as int;
    assert forall|k: DepKey| has_key(a, k) == has_key(b, k) by {
        if has_key(a, k) {
            let i = choose|i: int| 0 <= i < a.len() && #[trigger] a[i].key() == k;
            let p = lemma_root_excluded(a, packages, used, contexts, root, strict, i);
            assert(assembled_entry(a[i], packages, used, contexts, root, strict, n));
            let q = choose|q: int|
                0 <= q < n && first_selected(packages, used, root, strict, q)
                    && #[trigger] is_dep_of(a[i], packages[q], contexts[q]);
            assert(has_key(b, packages[q].key()));
        }
        if has_key(b, k) {
            let i = choose|i: int| 0 <= i < b.len() && #[trigger] b[i].key() == k;
            assert(assembled_entry(b[i], packages, used, contexts, root, strict, n));
            let q = choose|q: int|
                0 <= q < n && first_selected(packages, used, root, strict, q)
                    && #[trigger] is_dep_of(b[i], packages[q], contexts[q]);
            assert(has_key(a, packages[q].key()));
        }
    }
    lemma_sorted_same_keys(a, b);
    assert forall|i: int| 0 <= i < a.len() implies same_reading(#[trigger] a[i], b[i]) by {
        assert(assembled_entry(a[i], packages, used, contexts, root, strict, n));
        assert(assembled_entry(b[i], packages, used, contexts, root, strict, n));
        let p = choose|p: int|
            0 <= p < n && first_selected(packages, used, root, strict, p) && #[trigger] is_dep_of(
                a[i],
                packages[p],
                contexts[p],
            );
        let q = choose|q: int|
            0 <= q < n && first_selected(packages, used, root, strict, q) && #[trigger] is_dep_of(
                b[i],
                packages[q],
                contexts[q],
            );
        assert(packages[p].key() == a[i].key());
        assert(packages[q].key() == b[i].key());
        assert(a[i].key() == b[i].key());
        if p < q {
            assert(packages[p].key() != packages[q].key());
        }
        if q < p {
            assert(packages[q].key() != packages[p].key());
        }
    }
}

/// Resolving a payload twice gives the same: two lists of one payload read
/// the same, entry by entry.
pub proof fn lemma_lists_once(
    raw: Raw,
    a: Seq<Dependency>,
    b: Seq<Dependency>,
    targeted: bool,
    strict: bool,
)
    requires
        raw.lists(a, targeted, strict),
        raw.lists(b, targeted, strict),
    ensures
        a.len() == b.len(),
        forall|i: int| 0 <= i < a.len() ==> same_reading(#[trigger] a[i], b[i]),
{
    lemma_assembled_once(
        a,
        b,
        raw.packages@,
        raw.used(),
        raw.contexts(targeted),
        raw.resolve.root,
        strict,
    );
}

/// The root of a payload makes no entry of its list: every entry is made
/// from a used package that is not the root, with the flags of its node.
pub proof fn lemma_lists_without_root(
    raw: Raw,
    deps: Seq<Dependency>,
    targeted: bool,
    strict: bool,
    i: int,
) -> (p: int)
    requires
        raw.wf(),
        raw.lists(deps, targeted, strict),
        0 <= i < deps.len(),
    ensures
        0 <= p < raw.packages@.len(),
        raw.resolve.root != Some(p as usize),
        reachable(raw.graph(), 0, raw.seeds(), p),
        is_dep_of(
            deps[i],
            raw.packages@[p],
            node_context(raw.graph(), raw.seeds(), raw.workspace_members@, targeted, p),
        ),
{
    lemma_root_excluded(
        deps,
        raw.packages@,
        raw.used(),
        raw.contexts(targeted),
        raw.resolve.root,
        strict,
        i,
    )
}

} // verus!
