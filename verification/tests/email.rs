use bashman::author::{email_line, nice_email};
use bashman::bash::{bash_bytes, bash_subfname, man_escape};
use bashman::cargo::{Raw, RawPackage};
use bashman::credits::{conditional_last, is_sorted, with_credits, RawCredits};
use bashman::graph::RawNodeDep;
use bashman::keyword::KeyWord;
use bashman::license::{license_list, nice_license};
use bashman::manifest::{Flag, ManifestData, OptionFlag, RawSubCmd, Section, Subcommand, TrailingArg};
use bashman::pkg::{Dependency, PackageName};
use bashman::resolve::RawResolve;
use bashman::text::{join, trim, trim_end, trim_start};
use bashman::version::Version;

#[test]
fn t_nice_email() {
    assert_eq!(
        nice_email(" < JoSh@BloBfolio.com> "),
        Some("josh@blobfolio.com".to_owned())
    );

    assert_eq!(nice_email(" < JoSh@BloBfolio.x> "), None);

    assert_eq!(
        nice_email("USER@♥.com"),
        Some("user@xn--g6h.com".to_owned())
    );
}

#[test]
fn emails_that_are_none() {
    for bad in ["", "   ", "@", "user@", "@example.com", "user", "us er@example.com", "üser@example.com", "<>", "a@b@example.com"] {
        assert_eq!(nice_email(bad), None, "{bad}");
    }
    assert_eq!(nice_email("A.b+c-d_9@Example.com"), Some("a.b+c-d_9@example.com".to_owned()));

    let user: Vec<char> = "Jane.Doe".chars().collect();
    assert_eq!(email_line(&user, Some("example.com".to_owned())), Some("jane.doe@example.com".to_owned()));
    assert_eq!(email_line(&user, None), None);
    assert_eq!(email_line(&Vec::new(), Some("example.com".to_owned())), None);
    let user: Vec<char> = "jane doe".chars().collect();
    assert_eq!(email_line(&user, Some("example.com".to_owned())), None);
}

#[test]
fn license_lists() {
    assert_eq!(nice_license(""), "");
    assert_eq!(nice_license("MIT"), "MIT");
    assert_eq!(nice_license("MIT OR Apache-2.0"), "Apache-2.0 or MIT");
    assert_eq!(nice_license("MIT/Apache-2.0"), "Apache-2.0 or MIT");
    assert_eq!(nice_license("Zlib OR MIT / Apache-2.0 /MIT/ "), "Apache-2.0, MIT, or Zlib");
    assert_eq!(nice_license("(MIT OR [Apache-2.0]) | <x>"), "Apache-2.0  x or MIT");
    assert_eq!(license_list("b/a/c/a/ /b"), ["a", "b", "c"]);
    assert!(license_list(" / ").is_empty());
    // The word must stand between spaces, in capitals.
    assert_eq!(license_list("MIT or ISC"), ["MIT or ISC"]);
    assert_eq!(license_list("MIT  OR  ISC"), ["ISC", "MIT"]);
}

#[test]
fn blanks_and_joins() {
    let mut s = "\t\n\x0C\r hello world \r\n".to_owned();
    trim_start(&mut s);
    assert_eq!(s, "hello world \r\n");
    trim_end(&mut s);
    assert_eq!(s, "hello world");

    let mut s = " \u{a0}x\u{a0} ".to_owned();
    trim(&mut s);
    assert_eq!(s, "\u{a0}x\u{a0}");

    let mut s = " \t ".to_owned();
    trim(&mut s);
    assert_eq!(s, "");

    let list = ["a".to_owned(), "b".to_owned(), "c".to_owned()];
    assert_eq!(join(&list, ", "), "a, b, c");
    assert_eq!(join(&list[..1], ", "), "a");
    assert_eq!(join(&list[..0], ", "), "");
    assert_eq!(join(&["".to_owned(), "".to_owned()], "-"), "-");
}

#[test]
fn script_names() {
    assert_eq!(bash_bytes(b'a'), b'a');
    assert_eq!(bash_bytes(b'Z'), b'z');
    assert_eq!(bash_bytes(b'7'), b'7');
    assert_eq!(bash_bytes(b'-'), b'_');
    assert_eq!(bash_bytes(0xff), b'_');
    for b in 0..=255_u8 {
        let expected = match b {
            b'a'..=b'z' | b'0'..=b'9' => b,
            b'A'..=b'Z' => b | 32,
            _ => b'_',
        };
        assert_eq!(bash_bytes(b), expected);
    }
    assert_eq!(bash_subfname(b"", b"cargo-bashman"), "_basher___cargo_bashman");
    assert_eq!(bash_subfname(b"Cargo", b"Sub.Cmd"), "_basher__cargo_sub_cmd");

    let mut page = b".TH \"A-B\" --x".to_vec();
    man_escape(&mut page);
    assert_eq!(page, b".TH \"A\\-B\" \\-\\-x\n");
    let mut page = Vec::new();
    man_escape(&mut page);
    assert_eq!(page, b"\n");
}

fn dep(name: &str, version: &str, context: u8) -> Dependency {
    Dependency {
        name: PackageName::try_from(name.to_owned()).expect("Bad name."),
        version: Version::parse(version).expect("Bad version."),
        license: None,
        authors: Vec::new(),
        url: None,
        context,
    }
}

#[test]
fn credits_by_hand() {
    let credit = |name: &str, optional: bool| RawCredits {
        name: PackageName::try_from(name.to_owned()).expect("Bad name."),
        version: Version::parse("1.0.0").expect("Bad version."),
        license: Some("MIT".to_owned()),
        authors: vec!["Jane".to_owned()],
        repository: Some("https://example.com/".to_owned()),
        optional,
    };
    let d = Dependency::from(credit("extra", false));
    assert_eq!(d.name.as_str(), "extra");
    assert_eq!(d.context, 0b0000_0001);
    assert!(d.direct() && !d.optional());
    assert_eq!(d.license(), Some("MIT"));
    assert_eq!(d.authors(), ["Jane"]);
    assert_eq!(d.url(), Some("https://example.com/"));
    let d = Dependency::from(credit("extra", true));
    assert_eq!(d.context, 0b0000_0011);
    assert!(d.direct() && d.optional());

    // Conditional dependencies go last; what is there already stays.
    let deps = vec![dep("a", "1.0.0", 0x16), dep("b", "1.0.0", 0x14), dep("c", "1.0.0", 0x18), dep("d", "1.0.0", 0x24)];
    assert!(is_sorted(&deps));
    let out = with_credits(
        deps,
        vec![Dependency::from(credit("b", true)), Dependency::from(credit("aa", true)), Dependency::from(credit("zz", false))],
    );
    let names: Vec<_> = out.iter().map(|d| (d.name.as_str(), d.context)).collect();
    assert_eq!(names, [("b", 0x14), ("d", 0x24), ("zz", 0x01), ("a", 0x16), ("aa", 0x03), ("c", 0x18)]);

    assert!(conditional_last(Vec::new()).is_empty());
    assert!(!is_sorted(&vec![dep("b", "1.0.0", 0), dep("a", "1.0.0", 0)]));
    assert!(!is_sorted(&vec![dep("a-b", "1.0.0", 0), dep("a_b", "1.0.0", 0)]));
    assert!(is_sorted(&vec![dep("a", "1.0.0-rc", 0), dep("a", "1.0.0", 0)]));
    assert!(is_sorted(&Vec::new()));
}

#[test]
fn sound_payloads() {
    let package = |name: &str| RawPackage {
        id: name.to_owned(),
        name: PackageName::try_from(name.to_owned()).expect("Bad name."),
        version: Version::parse("1.0.0").expect("Bad version."),
        license: None,
        authors: Vec::new(),
        repository: None,
        features: false,
    };
    let raw = |nodes: Vec<Vec<RawNodeDep>>, root: Option<usize>, members: Vec<usize>| Raw {
        packages: vec![package("a"), package("b")],
        workspace_members: members,
        resolve: RawResolve { nodes, root },
    };
    let edge = |id: usize, dep_kinds: u8| RawNodeDep { id, dep_kinds };
    assert!(raw(vec![vec![edge(1, 0x14)], vec![]], Some(0), vec![0]).valid());
    assert!(raw(vec![vec![], vec![], vec![edge(2, 0x3c)]], None, vec![]).valid());
    // An edge to nowhere.
    assert!(!raw(vec![vec![edge(2, 0x14)], vec![]], Some(0), vec![0]).valid());
    // Edges that were not classified, or carry more.
    assert!(!raw(vec![vec![edge(1, 0)], vec![]], Some(0), vec![0]).valid());
    assert!(!raw(vec![vec![edge(1, 0x10)], vec![]], Some(0), vec![0]).valid());
    assert!(!raw(vec![vec![edge(1, 0x04)], vec![]], Some(0), vec![0]).valid());
    assert!(!raw(vec![vec![edge(1, 0x15)], vec![]], Some(0), vec![0]).valid());
    // A root or a member that is no node; more packages than nodes.
    assert!(!raw(vec![vec![], vec![]], Some(2), vec![0]).valid());
    assert!(!raw(vec![vec![], vec![]], Some(0), vec![0, 5]).valid());
    assert!(!raw(vec![vec![]], Some(0), vec![0]).valid());
}

#[test]
fn manifest_records() {
    let key = |raw: &str| KeyWord::try_from(raw).expect("Bad keyword.");
    let flag = Flag {
        short: Some(key("-h")),
        long: Some(key("--help")),
        description: "Print help.".to_owned(),
        duplicate: false,
    };
    assert_eq!(flag.sort_key(), "help");
    assert_eq!(flag.short(), Some("-h"));
    assert_eq!(flag.long(), Some("--help"));
    assert_eq!(flag.description(), "Print help.");
    assert!(!flag.duplicate());

    let short = Flag { short: Some(key("-V")), long: None, description: String::new(), duplicate: true };
    assert_eq!(short.sort_key(), "V");
    assert_eq!(short.long(), None);
    assert!(short.duplicate());
    let none = Flag { short: None, long: None, description: String::new(), duplicate: false };
    assert_eq!(none.sort_key(), "");

    let option = OptionFlag { flag: flag.clone(), label: "<FILE>".to_owned(), path: true };
    assert_eq!(option.label(), "<FILE>");
    assert!(option.path());
    assert!(!option.duplicate());
    assert_eq!(option.description(), "Print help.");
    assert_eq!(option.short(), Some("-h"));
    assert_eq!(option.long(), Some("--help"));

    let arg = TrailingArg { label: "<PATH(S)>".to_owned(), description: "Paths.".to_owned() };
    assert_eq!(arg.label(), "<PATH(S)>");
    assert_eq!(arg.description(), "Paths.");

    let section = Section {
        name: "NOTES:".to_owned(),
        inside: true,
        lines: "One.\n.RE\nTwo.".to_owned(),
        items: vec![["a".to_owned(), "b".to_owned()]],
    };
    assert_eq!(section.name(), "NOTES:");
    assert!(section.inside());
    assert_eq!(section.lines(), Some("One.\n.RE\nTwo."));
    assert_eq!(section.items().map(<[_]>::len), Some(1));
    let empty = Section { name: "X".to_owned(), inside: false, lines: String::new(), items: Vec::new() };
    assert_eq!(empty.lines(), None);
    assert!(empty.items().is_none());

    let mut data = ManifestData::new();
    assert!(data.args().is_none() && data.flags().is_empty() && data.options().is_empty() && data.sections().is_empty());
    data.flags.push(flag);
    data.options.push(option);
    data.args = Some(arg);
    data.sections.push(section);
    assert_eq!(data.flags().len(), 1);
    assert_eq!(data.options().len(), 1);
    assert_eq!(data.args().map(TrailingArg::label), Some("<PATH(S)>"));
    assert_eq!(data.sections().len(), 1);

    let main = Subcommand {
        nice_name: Some("Cargo BashMan".to_owned()),
        name: key("cargo-bashman"),
        description: "A plugin.".to_owned(),
        version: "0.6.3".to_owned(),
        parent: None,
        data,
    };
    assert_eq!(main.bin(), "cargo-bashman");
    assert_eq!(main.nice_name(), "Cargo BashMan");
    assert_eq!(main.description(), "A plugin.");
    assert_eq!(main.version(), "0.6.3");
    assert!(main.is_main());
    assert_eq!(main.parent_bin(), None);
    assert_eq!(main.parent_nice_name(), None);
    assert_eq!(main.data().flags().len(), 1);

    let sub = RawSubCmd { name: None, cmd: key("build"), description: "Build it.".to_owned() }
        .into_subcommand("0.6.3".to_owned(), Some(("Cargo BashMan".to_owned(), key("cargo-bashman"))));
    assert_eq!(sub.bin(), "build");
    assert_eq!(sub.nice_name(), "build");
    assert_eq!(sub.description(), "Build it.");
    assert_eq!(sub.version(), "0.6.3");
    assert!(!sub.is_main());
    assert_eq!(sub.parent_bin(), Some("cargo-bashman"));
    assert_eq!(sub.parent_nice_name(), Some("Cargo BashMan"));
    assert!(sub.data().flags().is_empty() && sub.data().args().is_none());
}
