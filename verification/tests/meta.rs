use bashman::err::BashManError;
use bashman::keyword::KeyWord;
use bashman::manifest::{Flag, OptionFlag, Section, TrailingArg};
use bashman::meta::{
    deserialize_items, deserialize_label, deserialize_lines, deserialize_nonempty_opt_str,
    deserialize_nonempty_opt_str_normalized, deserialize_nonempty_str_normalized,
    deserialize_section_name, RawSection,
};

fn empty() -> BashManError {
    BashManError::ParseCargoMetadata("value cannot be empty".to_owned())
}

#[test]
fn texts_that_must_be_there() {
    assert_eq!(deserialize_nonempty_str_normalized("  A   plugin.\n"), Ok("A plugin.".to_owned()));
    assert_eq!(deserialize_nonempty_str_normalized(" \t\0 "), Err(empty()));
    assert_eq!(deserialize_nonempty_str_normalized(""), Err(empty()));

    assert_eq!(deserialize_nonempty_opt_str("  ./man  dir \n"), Some("./man  dir".to_owned()));
    assert_eq!(deserialize_nonempty_opt_str("   "), None);
    assert_eq!(deserialize_nonempty_opt_str_normalized("  Cargo   BashMan "), Some("Cargo BashMan".to_owned()));
    assert_eq!(deserialize_nonempty_opt_str_normalized("\n"), None);
}

#[test]
fn labels() {
    assert_eq!(deserialize_label("FILE"), Some("<FILE>".to_owned()));
    assert_eq!(deserialize_label(" <FILE> "), Some("<FILE>".to_owned()));
    assert_eq!(deserialize_label("<FILE"), Some("<FILE>".to_owned()));
    assert_eq!(deserialize_label("FILE>"), Some("<FILE>".to_owned()));
    assert_eq!(deserialize_label("a   b"), Some("<a b>".to_owned()));
    assert_eq!(deserialize_label("<"), Some("<>".to_owned()));
    assert_eq!(deserialize_label(">"), Some("<>".to_owned()));
    assert_eq!(deserialize_label("  "), None);
    assert_eq!(deserialize_label(""), None);
}

#[test]
fn lines_and_items() {
    let lines = |raw: &[&str]| -> Vec<String> { raw.iter().map(|s| (*s).to_owned()).collect() };
    assert_eq!(
        deserialize_lines(&lines(&["", "  ", " First  line. ", "", "Second.", " ", ""])),
        ["First line.", "", "Second."],
    );
    assert!(deserialize_lines(&lines(&["", " \t "])).is_empty());
    assert!(deserialize_lines(&Vec::new()).is_empty());
    assert_eq!(deserialize_lines(&lines(&["one"])), ["one"]);

    let items = vec![
        [" a ".to_owned(), "b  c".to_owned()],
        [String::new(), "  ".to_owned()],
        [String::new(), "only the value".to_owned()],
        ["only the key".to_owned(), "\n".to_owned()],
    ];
    assert_eq!(
        deserialize_items(&items),
        [
            ["a".to_owned(), "b c".to_owned()],
            [String::new(), "only the value".to_owned()],
            ["only the key".to_owned(), String::new()],
        ],
    );
}

#[test]
fn section_names() {
    assert_eq!(deserialize_section_name("file  types"), Ok("FILE TYPES:".to_owned()));
    assert_eq!(deserialize_section_name(" Notes: "), Ok("NOTES:".to_owned()));
    assert_eq!(deserialize_section_name("why?"), Ok("WHY?".to_owned()));
    assert_eq!(deserialize_section_name("straße"), Ok("STRASSE:".to_owned()));
    assert_eq!(deserialize_section_name("  "), Err(empty()));
    assert_eq!(deserialize_section_name(""), Err(empty()));
}

#[test]
fn sections() {
    let section = Section::from(RawSection {
        name: "NOTES:".to_owned(),
        inside: true,
        lines: vec!["One.".to_owned(), "Two.".to_owned(), "Three.".to_owned()],
        items: vec![["k".to_owned(), "v".to_owned()]],
    });
    assert_eq!(section.name(), "NOTES:");
    assert!(section.inside());
    assert_eq!(section.lines(), Some("One.\n.RE\nTwo.\n.RE\nThree."));
    assert_eq!(section.items().map(<[_]>::len), Some(1));

    let section = Section::from(RawSection { name: "X:".to_owned(), inside: false, lines: Vec::new(), items: Vec::new() });
    assert_eq!(section.lines(), None);
    assert!(section.items().is_none());
}

#[test]
fn copies() {
    let key = |raw: &str| KeyWord::try_from(raw).expect("Bad keyword.");
    assert!(key("-h").same(&key("-h")));
    assert!(!key("-h").same(&key("-H")));
    assert!(!key("h").same(&key("--h")));
    assert!(!KeyWord::Command("x".to_owned()).same(&KeyWord::Key("x".to_owned())));
    assert_eq!(key("--help").copy(), key("--help"));

    let flag = Flag { short: Some(key("-h")), long: None, description: "Help.".to_owned(), duplicate: true };
    let copy = flag.copy();
    assert_eq!(copy.short(), Some("-h"));
    assert_eq!(copy.long(), None);
    assert_eq!(copy.description(), "Help.");
    assert!(copy.duplicate());

    let option = OptionFlag { flag, label: "<N>".to_owned(), path: true }.copy();
    assert_eq!(option.label(), "<N>");
    assert!(option.path());
    assert_eq!(option.short(), Some("-h"));

    let arg = TrailingArg { label: "<A>".to_owned(), description: "Args.".to_owned() }.copy();
    assert_eq!(arg.label(), "<A>");
    assert_eq!(arg.description(), "Args.");
}
