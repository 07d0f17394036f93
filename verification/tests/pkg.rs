use bashman::credits::{extend, insert, merge_optional};
use bashman::err::BashManError;
use bashman::keyword::KeyWord;
use bashman::order::Order;
use bashman::pkg::{Dependency, PackageName};
use bashman::version::Version;

fn name(raw: &str) -> PackageName {
    PackageName::try_from(raw.to_owned()).expect("Bad name.")
}

fn dep(raw: &str, version: &str, context: u8) -> Dependency {
    Dependency {
        name: name(raw),
        version: Version::parse(version).expect("Bad version."),
        license: None,
        authors: Vec::new(),
        url: None,
        context,
    }
}

fn shown(deps: &[Dependency]) -> Vec<String> {
    deps.iter()
        .map(|d| {
            format!("{} {}.{}.{} {:#04x}", d.name.as_str(), d.version.major, d.version.minor, d.version.patch, d.context)
        })
        .collect()
}

#[test]
fn package_names() {
    assert_eq!(name("serde").as_str(), "serde");
    assert_eq!(name("  Foo-Bar_2 \n").as_str(), "foo-bar_2");
    for bad in ["", "   ", "9lives", "-foo", "_foo", "foo bar", "fö", "foo.bar", "Björk"] {
        let expected = bad.trim().to_ascii_lowercase();
        assert_eq!(
            PackageName::try_from(bad.to_owned()).map(|_| ()),
            Err(BashManError::PackageName(expected)),
        );
    }
}

#[test]
fn name_equivalence() {
    let a = name("foo-bar");
    let b = name("foo_bar");
    assert!(a == b);
    assert!(b == a);
    assert_eq!(a.compare(&b), Order::Equal);
    assert_eq!(name("Foo-Bar"), name("foo_bar"));
    assert!(name("foo-bar") != name("foobar"));
    assert_eq!(name("foo-bar").compare(&name("foo_baz")), Order::Less);
    assert_eq!(name("foo_bar").compare(&name("foo-baa")), Order::Greater);
    assert_eq!(name("a").compare(&name("ab")), Order::Less);
    // The names themselves stay as they were written.
    assert_eq!(a.as_str(), "foo-bar");
    assert_eq!(b.as_str(), "foo_bar");

    // As dependencies they are one, and sort together.
    assert!(dep("foo-bar", "1.0.0", 0) == dep("foo_bar", "1.0.0", 1));
    assert!(dep("foo-bar", "1.0.0", 0) != dep("foo_bar", "1.0.1", 0));
    let mut deps = Vec::new();
    for d in [
        dep("foo_bar", "2.0.0", 0),
        dep("foo-baz", "1.0.0", 0),
        dep("foo", "1.0.0", 0),
        dep("foo-bar", "1.0.0", 0),
        dep("foo_bar", "1.0.0", 7),
    ] {
        insert(&mut deps, d);
    }
    assert_eq!(
        shown(&deps),
        ["foo 1.0.0 0x00", "foo-bar 1.0.0 0x00", "foo_bar 2.0.0 0x00", "foo-baz 1.0.0 0x00"],
    );
}

#[test]
fn insert_keeps_order_and_the_first() {
    let mut deps = Vec::new();
    assert!(insert(&mut deps, dep("m", "1.0.0", 1)));
    assert!(insert(&mut deps, dep("a", "1.0.0", 2)));
    assert!(insert(&mut deps, dep("z", "1.0.0", 3)));
    assert!(insert(&mut deps, dep("m", "0.9.0", 4)));
    assert!(!insert(&mut deps, dep("m", "1.0.0", 5)));
    assert!(insert(&mut deps, dep("m", "1.0.0-rc.1", 6)));
    assert_eq!(
        shown(&deps),
        ["a 1.0.0 0x02", "m 0.9.0 0x04", "m 1.0.0 0x06", "m 1.0.0 0x01", "z 1.0.0 0x03"],
    );
    assert_eq!(deps[2].version.pre, "rc.1");
}

#[test]
fn extend_is_a_no_op_on_an_ordered_list() {
    let list = || vec![dep("a", "1.0.0", 1), dep("b", "0.1.0", 2), dep("b", "0.2.0", 3), dep("c-d", "1.0.0", 4)];
    let mut deps = Vec::new();
    extend(&mut deps, list());
    assert_eq!(shown(&deps), shown(&list()));

    // Once more, into the list itself: nothing changes.
    extend(&mut deps, list());
    assert_eq!(shown(&deps), shown(&list()));

    // Out of order and with doubles.
    let mut deps = Vec::new();
    extend(&mut deps, vec![dep("c_d", "1.0.0", 4), dep("b", "0.2.0", 3), dep("a", "1.0.0", 1), dep("c-d", "1.0.0", 9), dep("b", "0.1.0", 2)]);
    assert_eq!(shown(&deps), ["a 1.0.0 0x01", "b 0.1.0 0x02", "b 0.2.0 0x03", "c_d 1.0.0 0x04"]);
}

#[test]
fn merge_marks_what_is_new_as_optional() {
    let mut deps = vec![dep("a", "1.0.0", 0x15), dep("c", "1.0.0", 0x14), dep("e", "1.0.0", 0x24)];
    let extra = vec![
        dep("a", "1.0.0", 0x15),
        dep("b", "1.0.0", 0x14),
        dep("c", "1.0.0", 0x34),
        dep("c", "2.0.0", 0x14),
        dep("f", "1.0.0", 0x28),
    ];
    merge_optional(&mut deps, extra);
    assert_eq!(
        shown(&deps),
        [
            "a 1.0.0 0x15",
            "b 1.0.0 0x16",
            "c 1.0.0 0x36",
            "c 2.0.0 0x16",
            "e 1.0.0 0x24",
            "f 1.0.0 0x2a",
        ],
    );
    assert!(!deps[0].optional());
    assert!(deps[1].optional());
    assert!(deps[5].optional() && deps[5].build() && deps[5].target_specific());
}

#[test]
fn dependency_accessors() {
    let mut d = dep("a", "1.0.0", 0);
    assert!(!d.direct() && !d.optional() && !d.build() && !d.target_specific() && !d.conditional());
    assert_eq!(d.license(), None);
    assert_eq!(d.url(), None);
    assert!(d.authors().is_empty());

    d.license = Some("MIT".to_owned());
    d.url = Some("https://example.com/".to_owned());
    d.authors = vec!["Jane".to_owned(), "Joe".to_owned()];
    assert_eq!(d.license(), Some("MIT"));
    assert_eq!(d.url(), Some("https://example.com/"));
    assert_eq!(d.authors(), ["Jane", "Joe"]);

    for context in 0..=255_u8 {
        d.context = context;
        assert_eq!(d.direct(), context & 1 != 0);
        assert_eq!(d.optional(), context & 2 != 0);
        assert_eq!(d.build(), context & 0x30 == 0x20);
        assert_eq!(d.target_specific(), context & 0x0c == 0x08);
        assert_eq!(d.conditional(), d.optional() || d.target_specific());
    }
}

#[test]
fn keywords() {
    let word = KeyWord::try_from(" build ").expect("Bad keyword.");
    assert_eq!(word, KeyWord::Command("build".to_owned()));
    assert_eq!(word.as_str(), "build");
    assert_eq!(word.label(), "(sub)command");

    let key = KeyWord::try_from("-h").expect("Bad keyword.");
    assert_eq!(key, KeyWord::Key("-h".to_owned()));
    assert_eq!(key.label(), "key");
    assert_eq!(KeyWord::try_from("--no-bash").map(|k| k.as_str().to_owned()), Ok("--no-bash".to_owned()));
    assert_eq!(KeyWord::try_from("--a_b-9"), Ok(KeyWord::Key("--a_b-9".to_owned())));
    assert_eq!(KeyWord::try_from("A9"), Ok(KeyWord::Command("A9".to_owned())));

    for bad in ["", "  ", "-", "--", "---x", "-ab", "--ö", "-_", "a b", "_a", "--_a", "é"] {
        assert_eq!(KeyWord::try_from(bad), Err(BashManError::KeyWord(bad.trim().to_owned())));
    }
}
