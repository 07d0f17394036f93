use bashman::author::{deserialize_authors, esc_email};
use bashman::cargo::{Raw, RawPackage};
use bashman::err::BashManError;
use bashman::graph::RawNodeDep;
use bashman::license::deserialize_license;
use bashman::pkg::PackageName;
use bashman::query::CargoMetadata;
use bashman::resolve::RawResolve;
use bashman::text::nice_name;
use bashman::tree::{parse_line, tree_marks};
use bashman::version::Version;

fn package(name: &str, version: &str) -> RawPackage {
    RawPackage {
        id: format!("{name} {version}"),
        name: PackageName::try_from(name.to_owned()).expect("Bad name."),
        version: Version::parse(version).expect("Bad version."),
        license: None,
        authors: Vec::new(),
        repository: None,
        features: false,
    }
}

#[test]
fn makes_a_dependency() {
    let mut p = package("utc2k", "0.11.0");
    p.license = Some("MIT/Apache-2.0".to_owned());
    p.authors = vec![
        "  Jane   Doe <Jane.Doe@Example.COM> ".to_owned(),
        "   ".to_owned(),
        "1234".to_owned(),
        "The_Team".to_owned(),
    ];
    p.repository = Some("HTTPS://GitHub.com/Blobfolio/utc2k".to_owned());
    let d = p.try_into_dependency(0b0001_0101).expect("Conversion failed.");
    assert_eq!(d.name.as_str(), "utc2k");
    assert_eq!((d.version.major, d.version.minor, d.version.patch), (0, 11, 0));
    assert_eq!(d.license(), Some("MIT OR Apache-2.0"));
    assert_eq!(d.authors(), ["[Jane Doe](mailto:jane.doe@example.com)", "The&#95;Team"]);
    assert_eq!(d.url(), Some("https://github.com/Blobfolio/utc2k"));
    assert_eq!(d.context, 0b0001_0101);

    let mut p = package("utc2k", "0.11.0");
    p.repository = Some("github.com/Blobfolio/utc2k".to_owned());
    assert_eq!(
        p.try_into_dependency(0).map(|_| ()),
        Err(BashManError::ParseCargoMetadata("invalid repository URL".to_owned())),
    );
}

#[test]
fn licenses() {
    assert_eq!(deserialize_license("MIT"), Some("MIT".to_owned()));
    assert_eq!(deserialize_license(" MIT  /  Apache-2.0 "), Some("MIT OR Apache-2.0".to_owned()));
    assert_eq!(deserialize_license("MIT/Apache-2.0"), Some("MIT OR Apache-2.0".to_owned()));
    assert_eq!(deserialize_license("WTFPL_2"), Some("WTFPL&#95;2".to_owned()));
    assert_eq!(deserialize_license("Apache-2.0 WITH LLVM-exception"), Some("Apache-2.0 WITH LLVM-exception".to_owned()));
    assert_eq!(deserialize_license(""), None);
    assert_eq!(deserialize_license(" 2.0 / "), None);
}

#[test]
fn authors() {
    let lines = vec![
        "Josh  <USER@♥.com>".to_owned(),
        " <".to_owned(),
        "Björk <localhost>".to_owned(),
        "<a+b@example.com>".to_owned(),
        "???".to_owned(),
    ];
    assert_eq!(
        deserialize_authors(&lines),
        ["[Josh](mailto:user@xn--g6h.com)", "Björk", "<a&#43;b@example.com>"],
    );
    assert!(deserialize_authors(&Vec::new()).is_empty());

    let escaped: String = esc_email("a_b+c#d%e&f*g/h=i?j^k`l|m~n.o-p", "example.com").into_iter().collect();
    assert_eq!(
        escaped,
        "a&#95;b&#43;c&#35;d&#37;e&#38;f&#42;g&#47;h&#61;i&#63;j&#94;k&#96;l&#124;m&#126;n.o-p@example.com",
    );
}

#[test]
fn nice_names() {
    assert_eq!(nice_name("  <Jane> Doe "), Some("Jane Doe".to_owned()));
    assert_eq!(nice_name(" <> "), None);
    assert_eq!(nice_name(""), None);
}

#[test]
fn reads_the_tree() {
    let line = |raw: &str| -> Option<(String, String)> {
        parse_line(&raw.chars().collect()).map(|(name, v)| {
            (name.into_iter().collect(), format!("{}.{}.{}", v.major, v.minor, v.patch))
        })
    };
    assert_eq!(line("serde v1.0.200"), Some(("serde".to_owned(), "1.0.200".to_owned())));
    assert_eq!(line("  serde\tv1.0.200 (proc-macro)\r"), Some(("serde".to_owned(), "1.0.200".to_owned())));
    assert_eq!(line("serde 1.0.200"), None);
    assert_eq!(line("serde vv1.0.200"), None);
    assert_eq!(line("serde"), None);
    assert_eq!(line(""), None);
    assert_eq!(line("[build-dependencies]"), None);

    let packages = vec![package("root", "0.1.0"), package("serde", "1.0.200"), package("serde", "0.9.0"), package("left-pad", "1.0.0")];
    let listing = "root v0.1.0 (/tmp/root)\nserde v1.0.200\nleft_pad v1.0.0\n\nnoise\n";
    assert_eq!(tree_marks(listing, &packages, 5), Some(vec![true, true, false, false, false]));
    assert_eq!(tree_marks("nothing v1.0.0\n", &packages, 4), None);
    assert_eq!(tree_marks("", &packages, 4), None);
}

#[test]
fn the_tree_only_narrows() {
    let edge = |id: usize| RawNodeDep { id, dep_kinds: 0b0001_0100 };
    let raw = || Raw {
        packages: vec![package("root", "0.1.0"), package("a", "1.0.0"), package("b", "1.0.0"), package("c", "1.0.0")],
        workspace_members: vec![0],
        resolve: RawResolve {
            nodes: vec![vec![edge(1), edge(2)], vec![edge(3)], vec![], vec![]],
            root: Some(0),
        },
    };

    // The listing leaves a out: c is cut off with it.
    let mut narrowed = raw();
    narrowed.corroborate("root v0.1.0\nb v1.0.0\nc v1.0.0\n");
    assert_eq!(narrowed.resolve.nodes[0].len(), 1);
    assert_eq!(narrowed.resolve.nodes[0][0].id, 2);
    assert!(narrowed.resolve.nodes[1].is_empty());
    let deps = bashman::cargo::fetch(narrowed, None, false).expect("Fetch failed.");
    assert_eq!(deps.len(), 1);
    assert_eq!(deps[0].name.as_str(), "b");

    // A listing without the root changes nothing.
    let mut same = raw();
    same.corroborate("a v1.0.0\n");
    assert_eq!(same.resolve.nodes[0].len(), 2);
    assert_eq!(same.resolve.nodes[1].len(), 1);

    // Nor does a listing that names nothing.
    let mut same = raw();
    same.corroborate("");
    assert_eq!(same.resolve.nodes[0].len(), 2);
}

#[test]
fn queries() {
    let query = CargoMetadata::new("/tmp/Cargo.toml".to_owned(), None);
    assert!(!query.features);
    assert_eq!(
        query.args(),
        [
            "metadata", "--quiet", "--color", "never", "--format-version", "1",
            "--no-default-features", "--manifest-path", "/tmp/Cargo.toml",
        ],
    );
    assert_eq!(
        query.tree(),
        [
            "tree", "--quiet", "--color", "never", "--edges", "normal,build", "--prefix", "none",
            "--no-default-features", "--target", "all", "--manifest-path", "/tmp/Cargo.toml",
        ],
    );

    let query = CargoMetadata::new("Cargo.toml".to_owned(), Some("x86_64-unknown-linux-gnu".to_owned()))
        .with_features(true);
    assert!(query.features);
    assert_eq!(
        query.args(),
        [
            "metadata", "--quiet", "--color", "never", "--format-version", "1", "--all-features",
            "--manifest-path", "Cargo.toml", "--filter-platform", "x86_64-unknown-linux-gnu",
        ],
    );
    assert_eq!(
        query.tree(),
        [
            "tree", "--quiet", "--color", "never", "--edges", "normal,build", "--prefix", "none",
            "--all-features", "--target", "x86_64-unknown-linux-gnu", "--manifest-path", "Cargo.toml",
        ],
    );
    assert!(!query.with_features(false).features);
}

#[test]
fn answers() {
    let good = br#"{"packages":[],"resolve":null}"#.to_vec();
    assert_eq!(CargoMetadata::exec(true, good.clone()), Ok(good.clone()));
    assert_eq!(CargoMetadata::exec(false, good), Err(BashManError::Cargo));
    assert_eq!(CargoMetadata::exec(true, br#"{"packages":"#.to_vec()), Err(BashManError::Cargo));
    assert_eq!(CargoMetadata::exec(true, br#" {"packages":[]}"#.to_vec()), Err(BashManError::Cargo));
    assert_eq!(CargoMetadata::exec(true, Vec::new()), Err(BashManError::Cargo));
    assert_eq!(CargoMetadata::exec(true, br#"{"packages":["#.to_vec()), Ok(br#"{"packages":["#.to_vec()));
}
