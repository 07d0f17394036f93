use bashman::cargo::{fetch, Raw, RawPackage};
use bashman::err::BashManError;
use bashman::graph::{reach, RawNodeDep};
use bashman::load::{RawDep, RawNode};
use bashman::context::{NodeDepKind, NodeDepTarget, RawNodeDepKind};
use bashman::pkg::{Dependency, PackageName};
use bashman::resolve::RawResolve;
use bashman::version::Version;

const NORMAL_ANY: u8 = 0b0001_0100;
const NORMAL_CFG: u8 = 0b0001_1000;
const BUILD_ANY: u8 = 0b0010_0100;
const BUILD_CFG: u8 = 0b0010_1000;

fn package(id: &str, name: &str, version: &str) -> RawPackage {
    RawPackage {
        id: id.to_owned(),
        name: PackageName::try_from(name.to_owned()).expect("Bad name."),
        version: Version::parse(version).expect("Bad version."),
        license: Some("MIT".to_owned()),
        authors: vec!["Jane Doe <jane@example.com>".to_owned()],
        repository: None,
        features: false,
    }
}

fn edge(id: usize, dep_kinds: u8) -> RawNodeDep {
    RawNodeDep { id, dep_kinds }
}

/// A payload of packages named after their place, with the given edges and
/// the root at 0.
fn payload(names: &[&str], nodes: Vec<Vec<RawNodeDep>>) -> Raw {
    assert_eq!(names.len(), nodes.len());
    Raw {
        packages: names
            .iter()
            .enumerate()
            .map(|(i, name)| package(&format!("id{i}"), name, "1.0.0"))
            .collect(),
        workspace_members: vec![0],
        resolve: RawResolve { nodes, root: Some(0) },
    }
}

fn by_name<'a>(deps: &'a [Dependency], name: &str) -> &'a Dependency {
    deps.iter()
        .find(|d| d.name.as_str() == name)
        .unwrap_or_else(|| panic!("Missing {name}."))
}

fn names(deps: &[Dependency]) -> Vec<&str> {
    deps.iter().map(|d| d.name.as_str()).collect()
}

#[test]
fn end_to_end() {
    // root -> a (normal), a -> b (build), root -> c (target-conditional).
    let raw = payload(
        &["root", "a", "b", "c"],
        vec![
            vec![edge(1, NORMAL_ANY), edge(3, NORMAL_CFG)],
            vec![edge(2, BUILD_ANY)],
            vec![],
            vec![],
        ],
    );
    let deps = fetch(raw, None, false).expect("Fetch failed.");
    assert_eq!(names(&deps), ["a", "b", "c"]);

    let a = by_name(&deps, "a");
    assert!(a.direct());
    assert!(!a.optional());
    assert!(!a.build());
    assert!(!a.target_specific());
    assert_eq!(a.context, 0b0001_0101);

    let b = by_name(&deps, "b");
    assert!(!b.direct());
    assert!(!b.optional());
    assert!(b.build());
    assert!(!b.target_specific());
    assert_eq!(b.context, 0b0010_0100);

    let c = by_name(&deps, "c");
    assert!(c.direct());
    assert!(!c.optional());
    assert!(!c.build());
    assert!(c.target_specific());
    assert!(c.conditional());
    assert_eq!(c.context, 0b0001_1001);
}

#[test]
fn build_only_through_build_parent() {
    // root -> a (build), a -> b (normal): b is only there to build.
    // root -> c (normal), c -> d (normal): d is needed at runtime.
    let raw = payload(
        &["root", "a", "b", "c", "d"],
        vec![
            vec![edge(1, BUILD_ANY), edge(3, NORMAL_ANY)],
            vec![edge(2, NORMAL_ANY)],
            vec![],
            vec![edge(4, NORMAL_ANY)],
            vec![],
        ],
    );
    let deps = fetch(raw, None, false).expect("Fetch failed.");
    assert_eq!(names(&deps), ["a", "b", "c", "d"]);
    assert!(by_name(&deps, "a").build());
    assert!(by_name(&deps, "b").build());
    assert_eq!(by_name(&deps, "b").context, BUILD_ANY);
    assert!(!by_name(&deps, "c").build());
    assert!(!by_name(&deps, "d").build());
    assert!(!by_name(&deps, "b").direct());
    assert!(!by_name(&deps, "d").direct());
}

#[test]
fn runtime_wins_over_build_path() {
    // b is reached through a build parent and through a runtime parent.
    let raw = payload(
        &["root", "a", "b", "c"],
        vec![
            vec![edge(1, BUILD_ANY), edge(3, NORMAL_ANY)],
            vec![edge(2, NORMAL_ANY)],
            vec![],
            vec![edge(2, NORMAL_ANY)],
        ],
    );
    let deps = fetch(raw, None, false).expect("Fetch failed.");
    let b = by_name(&deps, "b");
    assert!(!b.build());
    // Both contexts show in the flags.
    assert_eq!(b.context, 0b0011_0100);
}

#[test]
fn target_specific_through_conditional_parent() {
    // root -> a (conditional), a -> b (unconditional): b is target-specific.
    let raw = payload(
        &["root", "a", "b"],
        vec![vec![edge(1, NORMAL_CFG)], vec![edge(2, NORMAL_ANY)], vec![]],
    );
    let deps = fetch(raw, None, false).expect("Fetch failed.");
    assert!(by_name(&deps, "a").target_specific());
    assert!(by_name(&deps, "b").target_specific());
    assert_eq!(by_name(&deps, "b").context, NORMAL_CFG);
}

#[test]
fn targeted_drops_the_conditional_bit() {
    let nodes = vec![vec![edge(1, NORMAL_CFG), edge(2, BUILD_CFG | NORMAL_ANY)], vec![], vec![]];
    let deps = fetch(payload(&["root", "a", "b"], nodes.clone()), None, true)
        .expect("Fetch failed.");
    assert!(deps.iter().all(|d| !d.target_specific()));
    assert_eq!(by_name(&deps, "a").context, 0b0001_0001);
    assert_eq!(by_name(&deps, "b").context, 0b0011_0101);

    let deps = fetch(payload(&["root", "a", "b"], nodes), None, false).expect("Fetch failed.");
    assert!(by_name(&deps, "a").target_specific());
    assert!(!by_name(&deps, "b").target_specific());
}

#[test]
fn unused_nodes_are_left_out() {
    // d has an edge to a, but nothing leads to d.
    let raw = payload(
        &["root", "a", "d"],
        vec![vec![edge(1, NORMAL_ANY)], vec![], vec![edge(1, BUILD_ANY)]],
    );
    let deps = fetch(raw, None, false).expect("Fetch failed.");
    assert_eq!(names(&deps), ["a"]);
    // The unused parent adds nothing to the flags.
    assert_eq!(by_name(&deps, "a").context, 0b0001_0101);
}

#[test]
fn root_is_excluded() {
    // A cycle back to the root.
    let raw = payload(
        &["root", "a"],
        vec![vec![edge(1, NORMAL_ANY)], vec![edge(0, NORMAL_ANY)]],
    );
    let deps = fetch(raw, None, false).expect("Fetch failed.");
    assert_eq!(names(&deps), ["a"]);

    // A root that stands alone.
    let deps = fetch(payload(&["root"], vec![vec![]]), None, false).expect("Fetch failed.");
    assert!(deps.is_empty());
}

#[test]
fn missing_root_is_an_error() {
    let mut raw = payload(&["root", "a"], vec![vec![edge(1, NORMAL_ANY)], vec![]]);
    raw.resolve.root = None;
    assert_eq!(
        fetch(raw, None, false),
        Err(BashManError::ParseCargoMetadata("root package not found".to_owned())),
    );

    // A root without a package.
    let raw = Raw {
        packages: vec![package("id0", "a", "1.0.0")],
        workspace_members: vec![1],
        resolve: RawResolve { nodes: vec![vec![], vec![edge(0, NORMAL_ANY)]], root: Some(1) },
    };
    assert_eq!(
        fetch(raw, None, false),
        Err(BashManError::ParseCargoMetadata("root package not found".to_owned())),
    );
}

#[test]
fn feature_delta() {
    let first = payload(&["root", "a"], vec![vec![edge(1, NORMAL_ANY)], vec![]]);
    let mut first_with_features = payload(&["root", "a"], vec![vec![edge(1, NORMAL_ANY)], vec![]]);
    first_with_features.packages[0].features = true;
    let second = || {
        payload(
            &["root", "a", "d"],
            vec![vec![edge(1, NORMAL_ANY), edge(2, NORMAL_ANY)], vec![], vec![]],
        )
    };

    // A root without features: the second payload is not looked at.
    let deps = fetch(first, Some(second()), false).expect("Fetch failed.");
    assert_eq!(names(&deps), ["a"]);

    // With features: d is added, as optional.
    let deps = fetch(first_with_features, Some(second()), false).expect("Fetch failed.");
    assert_eq!(names(&deps), ["a", "d"]);
    assert!(!by_name(&deps, "a").optional());
    assert!(by_name(&deps, "d").optional());
    assert!(by_name(&deps, "d").conditional());
    assert!(by_name(&deps, "d").direct());
    assert_eq!(by_name(&deps, "d").context, 0b0001_0111);
}

#[test]
fn feature_delta_with_other_flags() {
    let mut first = payload(&["root", "a"], vec![vec![edge(1, NORMAL_ANY)], vec![]]);
    first.packages[0].features = true;
    // With all features a is needed to build as well.
    let second = payload(&["root", "a"], vec![vec![edge(1, NORMAL_ANY | BUILD_ANY)], vec![]]);
    let deps = fetch(first, Some(second), false).expect("Fetch failed.");
    assert_eq!(names(&deps), ["a"]);
    assert_eq!(by_name(&deps, "a").context, 0b0011_0111);
}

#[test]
fn feature_delta_passes_over_what_fails() {
    let mut first = payload(&["root", "a"], vec![vec![edge(1, NORMAL_ANY)], vec![]]);
    first.packages[0].features = true;
    let mut second = payload(
        &["root", "a", "d", "e"],
        vec![
            vec![edge(1, NORMAL_ANY), edge(2, NORMAL_ANY), edge(3, NORMAL_ANY)],
            vec![],
            vec![],
            vec![],
        ],
    );
    second.packages[2].repository = Some("not an address".to_owned());
    let deps = fetch(first, Some(second), false).expect("Fetch failed.");
    assert_eq!(names(&deps), ["a", "e"]);
    assert!(by_name(&deps, "e").optional());
}

#[test]
fn bad_address_is_an_error() {
    let mut raw = payload(&["root", "a"], vec![vec![edge(1, NORMAL_ANY)], vec![]]);
    raw.packages[1].repository = Some("not an address".to_owned());
    assert_eq!(
        fetch(raw, None, false),
        Err(BashManError::ParseCargoMetadata("invalid repository URL".to_owned())),
    );

    // The address of a package that is not used does not matter.
    let mut raw = payload(&["root", "a", "b"], vec![vec![edge(1, NORMAL_ANY)], vec![], vec![]]);
    raw.packages[2].repository = Some("not an address".to_owned());
    assert!(fetch(raw, None, false).is_ok());
}

#[test]
fn resolving_twice_gives_the_same() {
    let make = || {
        payload(
            &["root", "zeta", "alpha", "mid-dle", "mid_dle2"],
            vec![
                vec![edge(1, NORMAL_ANY), edge(3, BUILD_CFG)],
                vec![edge(2, NORMAL_CFG), edge(4, NORMAL_ANY)],
                vec![edge(1, BUILD_ANY)],
                vec![edge(2, NORMAL_ANY)],
                vec![],
            ],
        )
    };
    let one = fetch(make(), None, false).expect("Fetch failed.");
    let two = fetch(make(), None, false).expect("Fetch failed.");
    assert_eq!(names(&one), ["alpha", "mid-dle", "mid_dle2", "zeta"]);
    assert_eq!(one.len(), two.len());
    for (a, b) in one.iter().zip(two.iter()) {
        assert_eq!(format!("{a:?}"), format!("{b:?}"));
    }
}

#[test]
fn same_name_and_version_once() {
    // Two packages of one name and version: the first counts.
    let mut raw = payload(
        &["root", "a", "a"],
        vec![vec![edge(1, NORMAL_ANY), edge(2, BUILD_ANY)], vec![], vec![]],
    );
    raw.packages[2].license = Some("Apache-2.0".to_owned());
    let deps = fetch(raw, None, false).expect("Fetch failed.");
    assert_eq!(deps.len(), 1);
    assert_eq!(deps[0].license(), Some("MIT"));
    assert_eq!(deps[0].context, 0b0001_0101);
}

#[test]
fn adding_an_edge_keeps_what_was_reached() {
    let before = vec![vec![edge(1, NORMAL_ANY)], vec![], vec![edge(3, NORMAL_ANY)], vec![]];
    let mut after = before.clone();
    after[1].push(edge(2, BUILD_ANY));

    let seeds = vec![0];
    let one = reach(&before, 0, &seeds);
    let two = reach(&after, 0, &seeds);
    assert_eq!(one, [true, true, false, false]);
    assert_eq!(two, [true, true, true, true]);
    for (a, b) in one.iter().zip(two.iter()) {
        assert!(!a || *b);
    }

    // Over the runtime edges only.
    let live = reach(&after, 0b0001_0000, &seeds);
    assert_eq!(live, [true, true, false, false]);
}

#[test]
fn walks_start_at_the_members_without_a_root() {
    let mut resolve = RawResolve {
        nodes: vec![vec![edge(2, NORMAL_ANY)], vec![edge(3, BUILD_ANY)], vec![], vec![], vec![]],
        root: None,
    };
    let used = resolve.finalize(&vec![0, 1]);
    assert_eq!(used, [true, true, true, true, false]);
    let flags = resolve.flags(false);
    assert_eq!(flags, [None, None, Some(0b0001_0101), Some(0b0010_0101), None]);
}

#[test]
fn loads_a_payload() {
    let normal = RawNodeDepKind { kind: NodeDepKind::Normal, target: NodeDepTarget::Any };
    let build = RawNodeDepKind { kind: NodeDepKind::Build, target: NodeDepTarget::Cfg };
    let dev = RawNodeDepKind { kind: NodeDepKind::Dev, target: NodeDepTarget::Any };
    let dep = |pkg: &str, dep_kinds: Vec<RawNodeDepKind>| RawDep { pkg: pkg.to_owned(), dep_kinds };

    let packages = vec![
        package("a 1.0.0", "a", "1.0.0"),
        package("root 0.1.0", "root", "0.1.0"),
        package("t 0.3.0", "t", "0.3.0"),
    ];
    let nodes = vec![
        RawNode {
            id: "root 0.1.0".to_owned(),
            deps: vec![
                dep("a 1.0.0", vec![normal, build]),
                dep("t 0.3.0", vec![dev]),
                dep("ghost 9.9.9", vec![build]),
            ],
        },
        RawNode { id: "a 1.0.0".to_owned(), deps: vec![] },
        RawNode { id: "t 0.3.0".to_owned(), deps: vec![dep("a 1.0.0", vec![normal])] },
    ];
    let members = vec!["root 0.1.0".to_owned()];
    let (raw, ids) = Raw::new(packages, &nodes, Some("root 0.1.0"), &members);

    assert_eq!(ids, ["a 1.0.0", "root 0.1.0", "t 0.3.0", "ghost 9.9.9"]);
    assert_eq!(raw.resolve.root, Some(1));
    assert_eq!(raw.workspace_members, [1]);
    assert_eq!(raw.resolve.nodes.len(), 4);
    assert!(raw.resolve.nodes[0].is_empty());
    assert_eq!(raw.resolve.nodes[1].len(), 2);
    assert_eq!(raw.resolve.nodes[1][0].id, 0);
    assert_eq!(raw.resolve.nodes[1][0].dep_kinds, 0b0011_1100);
    assert_eq!(raw.resolve.nodes[1][1].id, 3);
    assert_eq!(raw.resolve.nodes[1][1].dep_kinds, 0b0010_1000);
    assert_eq!(raw.resolve.nodes[2].len(), 1);
    assert!(raw.resolve.nodes[3].is_empty());
    assert_eq!(raw.main().map(|p| p.name.as_str()), Some("root"));

    // The development dependency is not used; the package without a record
    // makes no dependency.
    let deps = fetch(raw, None, false).expect("Fetch failed.");
    assert_eq!(names(&deps), ["a"]);
    assert_eq!(by_name(&deps, "a").context, 0b0011_1101);
}

#[test]
fn last_node_of_an_identity_counts() {
    let normal = RawNodeDepKind { kind: NodeDepKind::Normal, target: NodeDepTarget::Any };
    let dep = |pkg: &str| RawDep { pkg: pkg.to_owned(), dep_kinds: vec![normal] };
    let packages = vec![package("r", "root", "1.0.0"), package("a", "a", "1.0.0"), package("b", "b", "1.0.0")];
    let nodes = vec![
        RawNode { id: "r".to_owned(), deps: vec![dep("a")] },
        RawNode { id: "r".to_owned(), deps: vec![dep("b")] },
    ];
    let (raw, _) = Raw::new(packages, &nodes, Some("r"), &vec![]);
    let deps = fetch(raw, None, false).expect("Fetch failed.");
    assert_eq!(names(&deps), ["b"]);
    // No workspace member: nothing is direct.
    assert!(!by_name(&deps, "b").direct());
}
