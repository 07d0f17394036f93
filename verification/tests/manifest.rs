use bashman::context::default_depkinds;
use bashman::err::BashManError;
use bashman::keyword::KeyWord;
use bashman::manifest::{
    add_subcommand_arg, add_subcommand_flag, add_subcommand_option, find_sub, insert_flag,
    key_compare, output_file, Flag, ManifestData, OptionFlag, Subcommand, TrailingArg,
};
use bashman::order::Order;

fn key(raw: &str) -> KeyWord {
    KeyWord::try_from(raw).expect("Bad keyword.")
}

fn flag(short: Option<&str>, long: Option<&str>) -> Flag {
    Flag { short: short.map(key), long: long.map(key), description: "Something.".to_owned(), duplicate: false }
}

fn option(short: Option<&str>, long: Option<&str>, path: bool) -> OptionFlag {
    OptionFlag { flag: flag(short, long), label: "<VAL>".to_owned(), path }
}

fn command(name: &str, parent: Option<&str>) -> Subcommand {
    Subcommand {
        nice_name: None,
        name: key(name),
        description: "A command.".to_owned(),
        version: "1.0.0".to_owned(),
        parent: parent.map(|p| (p.to_owned(), key(p))),
        data: ManifestData::new(),
    }
}

fn keys(flags: &[Flag]) -> Vec<&str> {
    flags.iter().map(Flag::sort_key).collect()
}

#[test]
fn default_edge_flag() {
    assert_eq!(default_depkinds(), 0b0001_0100);
}

#[test]
fn manual_file_names() {
    assert_eq!(output_file(None, "cargo-bashman"), "cargo-bashman.1");
    assert_eq!(output_file(Some("cargo"), "bashman"), "cargo-bashman.1");
    assert_eq!(output_file(Some(""), ""), "-.1");
}

#[test]
fn sort_keys_order_without_case_first() {
    assert_eq!(key_compare("help", "help"), Order::Equal);
    assert_eq!(key_compare("Help", "help"), Order::Less);
    assert_eq!(key_compare("help", "Help"), Order::Greater);
    assert_eq!(key_compare("a", "B"), Order::Less);
    assert_eq!(key_compare("B", "a"), Order::Greater);
    assert_eq!(key_compare("V", "version"), Order::Less);
    assert_eq!(key_compare("", "a"), Order::Less);
    assert_eq!(key_compare("no-bash", "no_bash"), Order::Less);

    assert!(flag(Some("-h"), Some("--help")) == flag(None, Some("--help")));
    assert!(flag(Some("-h"), None) == flag(None, Some("--h")));
    assert!(flag(Some("-h"), None) != flag(Some("-H"), None));
    assert_eq!(flag(Some("-V"), None).compare(&flag(None, Some("--version"))), Order::Less);
}

#[test]
fn flags_stay_in_order() {
    let mut list = Vec::new();
    assert!(insert_flag(&mut list, flag(Some("-V"), Some("--version"))));
    assert!(insert_flag(&mut list, flag(Some("-h"), Some("--help"))));
    assert!(insert_flag(&mut list, flag(None, Some("--no-bash"))));
    assert!(insert_flag(&mut list, flag(Some("-b"), None)));
    assert!(insert_flag(&mut list, flag(Some("-B"), None)));
    assert!(!insert_flag(&mut list, flag(Some("-x"), Some("--help"))));
    assert_eq!(keys(&list), ["B", "b", "help", "no-bash", "version"]);
    // The first of a key stays.
    assert_eq!(list[2].short(), Some("-h"));
}

#[test]
fn flags_go_to_their_commands() {
    let mut subs = vec![command("app", None), command("build", Some("app")), command("check", Some("app"))];
    assert_eq!(find_sub(&subs, ""), Some(0));
    assert_eq!(find_sub(&subs, "build"), Some(1));
    assert_eq!(find_sub(&subs, "check"), Some(2));
    assert_eq!(find_sub(&subs, "app"), None);
    assert_eq!(find_sub(&subs, "nope"), None);

    assert_eq!(add_subcommand_flag(&mut subs, "", flag(Some("-h"), Some("--help"))), Ok(()));
    assert_eq!(add_subcommand_flag(&mut subs, "build", flag(Some("-h"), Some("--help"))), Ok(()));
    assert_eq!(add_subcommand_flag(&mut subs, "build", flag(None, Some("--all"))), Ok(()));
    assert_eq!(add_subcommand_flag(&mut subs, "build", flag(Some("-a"), Some("--all"))), Ok(()));
    assert_eq!(
        add_subcommand_flag(&mut subs, "nope", flag(Some("-h"), None)),
        Err(BashManError::UnknownCommand("nope".to_owned())),
    );
    assert_eq!(
        add_subcommand_flag(&mut subs, "app", flag(Some("-h"), None)),
        Err(BashManError::UnknownCommand("app".to_owned())),
    );
    assert_eq!(keys(&subs[0].data.flags), ["help"]);
    assert_eq!(keys(&subs[1].data.flags), ["all", "help"]);
    assert_eq!(subs[1].data.flags[0].short(), None);
    assert!(subs[2].data.flags.is_empty());

    assert_eq!(add_subcommand_option(&mut subs, "check", option(Some("-o"), Some("--out"), true)), Ok(()));
    assert_eq!(add_subcommand_option(&mut subs, "check", option(Some("-l"), Some("--list"), true)), Ok(()));
    assert_eq!(add_subcommand_option(&mut subs, "check", option(None, Some("--level"), false)), Ok(()));
    assert_eq!(add_subcommand_option(&mut subs, "check", option(Some("-z"), Some("--out"), false)), Ok(()));
    assert_eq!(
        add_subcommand_option(&mut subs, "x", option(None, Some("--level"), false)),
        Err(BashManError::UnknownCommand("x".to_owned())),
    );
    let longs: Vec<_> = subs[2].data.options.iter().map(|o| o.long()).collect();
    assert_eq!(longs, [Some("--level"), Some("--list"), Some("--out")]);
    assert_eq!(subs[2].path_keys(), ["--list", "--out", "-l", "-o"]);
    assert!(subs[0].path_keys().is_empty());

    let arg = |label: &str| TrailingArg { label: label.to_owned(), description: String::new() };
    assert_eq!(add_subcommand_arg(&mut subs, "", arg("<ONE>")), Ok(()));
    assert_eq!(
        add_subcommand_arg(&mut subs, "", arg("<TWO>")),
        Err(BashManError::MultipleArgs(String::new())),
    );
    // The later argument took the place of the earlier.
    assert_eq!(subs[0].data.args().map(TrailingArg::label), Some("<TWO>"));
    assert_eq!(
        add_subcommand_arg(&mut subs, "none", arg("<X>")),
        Err(BashManError::UnknownCommand("none".to_owned())),
    );
    assert_eq!(add_subcommand_arg(&mut subs, "build", arg("<B>")), Ok(()));
    assert_eq!(subs[1].data.args().map(TrailingArg::label), Some("<B>"));
    assert_eq!(subs.len(), 3);
    assert_eq!(subs[1].bin(), "build");
}
