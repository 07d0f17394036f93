use bashman::credits::RawCredits;
use bashman::err::BashManError;
use bashman::keyword::KeyWord;
use bashman::manifest::{RawSubCmd, Subcommand};
use bashman::meta::{
    check_claims, check_names, deserialize_bashman, name_set, Claim, RawArg, RawBashMan, RawOption,
    RawSection, RawSwitch,
};
use bashman::parts::{credits_from, sections_from, RawMainPackage};
use bashman::pkg::PackageName;
use bashman::version::Version;

fn key(raw: &str) -> KeyWord {
    KeyWord::try_from(raw).expect("Bad keyword.")
}

fn names(list: &[&str]) -> Vec<String> {
    list.iter().map(|s| (*s).to_owned()).collect()
}

fn switch(short: Option<&str>, long: Option<&str>, subs: &[&str]) -> RawSwitch {
    RawSwitch {
        short: short.map(key),
        long: long.map(key),
        description: "A switch.".to_owned(),
        duplicate: false,
        subcommands: names(subs),
    }
}

fn option(short: Option<&str>, long: Option<&str>, label: Option<&str>, subs: &[&str]) -> RawOption {
    RawOption {
        short: short.map(key),
        long: long.map(key),
        description: "An option.".to_owned(),
        label: label.map(str::to_owned),
        path: label.is_none(),
        duplicate: false,
        subcommands: names(subs),
    }
}

fn arg(label: Option<&str>, subs: &[&str]) -> RawArg {
    RawArg {
        label: label.map(str::to_owned),
        description: "What is left.".to_owned(),
        subcommands: names(subs),
    }
}

fn sub(cmd: &str, name: Option<&str>) -> RawSubCmd {
    RawSubCmd { name: name.map(str::to_owned), cmd: key(cmd), description: format!("Does {cmd}.") }
}

fn blank() -> RawBashMan {
    RawBashMan {
        nice_name: None,
        dir_bash: None,
        dir_man: None,
        dir_credits: None,
        subcommands: Vec::new(),
        flags: Vec::new(),
        options: Vec::new(),
        args: Vec::new(),
        sections: Vec::new(),
        credits: Vec::new(),
    }
}

fn package(description: Option<&str>, metadata: Option<RawBashMan>) -> Result<RawMainPackage, BashManError> {
    let name = PackageName::try_from("myapp".to_owned()).expect("Bad name.");
    let version = Version::parse("1.2.3").expect("Bad version.");
    RawMainPackage::try_from_parts(name, &version, description, metadata)
}

fn flag_keys(s: &Subcommand) -> Vec<&str> {
    s.data().flags().iter().map(|f| f.sort_key()).collect()
}

fn option_keys(s: &Subcommand) -> Vec<&str> {
    s.data().options().iter().map(|f| f.flag.sort_key()).collect()
}

fn manifest() -> RawBashMan {
    RawBashMan {
        nice_name: Some("My App".to_owned()),
        dir_bash: Some("./bash".to_owned()),
        dir_man: None,
        dir_credits: Some("./".to_owned()),
        subcommands: vec![sub("zip", None), sub("add", Some("Adder")), sub("list", None)],
        flags: vec![
            switch(Some("-V"), Some("--version"), &[]),
            switch(Some("-h"), Some("--help"), &["zip", "", "add", "zip"]),
            switch(None, None, &["nowhere"]),
            switch(None, Some("--all"), &["list"]),
            switch(Some("-a"), None, &["add"]),
        ],
        options: vec![
            option(Some("-o"), Some("--output"), None, &["zip", "add"]),
            option(None, Some("--level"), Some("<NUM>"), &["zip"]),
        ],
        args: vec![arg(None, &["add", "zip"]), arg(Some("<DIR>"), &["list"])],
        sections: vec![
            RawSection {
                name: "NOTES:".to_owned(),
                inside: false,
                lines: vec!["One.".to_owned(), "Two.".to_owned()],
                items: Vec::new(),
            },
            RawSection { name: "EMPTY:".to_owned(), inside: true, lines: Vec::new(), items: Vec::new() },
        ],
        credits: vec![RawCredits {
            name: PackageName::try_from("by-hand".to_owned()).expect("Bad name."),
            version: Version::parse("0.3.0").expect("Bad version."),
            license: Some("MIT".to_owned()),
            authors: Vec::new(),
            repository: None,
            optional: true,
        }],
    }
}

#[test]
fn a_package_with_subcommands() {
    let pkg = package(Some("  An   app.\n"), Some(manifest())).expect("No package.");
    assert_eq!(pkg.dir_bash.as_deref(), Some("./bash"));
    assert_eq!(pkg.dir_man, None);
    assert_eq!(pkg.dir_credits.as_deref(), Some("./"));

    // The main command first, then the others by name.
    let bins: Vec<&str> = pkg.subcommands.iter().map(Subcommand::bin).collect();
    assert_eq!(bins, ["myapp", "add", "list", "zip"]);

    let main = &pkg.subcommands[0];
    assert!(main.is_main());
    assert_eq!(main.nice_name(), "My App");
    assert_eq!(main.description(), "An app.");
    assert_eq!(main.version(), "1.2.3");
    assert_eq!(main.parent_bin(), None);
    assert_eq!(flag_keys(main), ["help", "version"]);
    assert!(option_keys(main).is_empty());
    assert!(main.data().args().is_none());
    assert_eq!(main.data().sections().len(), 1);
    assert_eq!(main.data().sections()[0].name(), "NOTES:");
    assert_eq!(main.data().sections()[0].lines(), Some("One.\n.RE\nTwo."));

    let add = &pkg.subcommands[1];
    assert!(!add.is_main());
    assert_eq!(add.nice_name(), "Adder");
    assert_eq!(add.description(), "Does add.");
    assert_eq!(add.version(), "1.2.3");
    assert_eq!(add.parent_bin(), Some("myapp"));
    assert_eq!(add.parent_nice_name(), Some("My App"));
    assert_eq!(flag_keys(add), ["a", "help"]);
    assert_eq!(option_keys(add), ["output"]);
    assert_eq!(add.data().options()[0].label(), "<VAL>");
    assert!(add.data().options()[0].path());
    assert_eq!(add.data().args().map(|a| a.label()), Some("<ARG(S)…>"));
    assert_eq!(add.data().args().map(|a| a.description()), Some("What is left."));
    assert!(add.data().sections().is_empty());

    let list = &pkg.subcommands[2];
    assert_eq!(list.nice_name(), "list");
    assert_eq!(flag_keys(list), ["all"]);
    assert!(option_keys(list).is_empty());
    assert_eq!(list.data().args().map(|a| a.label()), Some("<DIR>"));

    let zip = &pkg.subcommands[3];
    assert_eq!(flag_keys(zip), ["help"]);
    assert_eq!(option_keys(zip), ["level", "output"]);
    assert_eq!(zip.data().options()[0].label(), "<NUM>");
    assert!(!zip.data().options()[0].path());
    assert_eq!(zip.data().args().map(|a| a.label()), Some("<ARG(S)…>"));

    assert_eq!(pkg.credits.len(), 1);
    assert_eq!(pkg.credits[0].name.as_str(), "by-hand");
    assert!(pkg.credits[0].direct());
    assert!(pkg.credits[0].optional());
    assert!(!pkg.credits[0].build());
}

#[test]
fn a_package_without_a_manifest() {
    let pkg = package(Some("An app."), None).expect("No package.");
    assert_eq!(pkg.subcommands.len(), 1);
    assert_eq!(pkg.subcommands[0].bin(), "myapp");
    assert_eq!(pkg.subcommands[0].nice_name(), "myapp");
    assert!(flag_keys(&pkg.subcommands[0]).is_empty());
    assert!(pkg.credits.is_empty());
    assert!(pkg.dir_bash.is_none() && pkg.dir_man.is_none() && pkg.dir_credits.is_none());

    let same = package(Some("An app."), Some(blank())).expect("No package.");
    assert_eq!(same.subcommands.len(), 1);
    assert_eq!(same.subcommands[0].bin(), "myapp");
}

#[test]
fn a_package_needs_a_description() {
    assert_eq!(
        package(None, Some(manifest())).err(),
        Some(BashManError::ParseCargoMetadata("missing description for main package".to_owned())),
    );
    assert_eq!(
        package(Some(" \n\t "), None).err(),
        Some(BashManError::ParseCargoMetadata("value cannot be empty".to_owned())),
    );
}

#[test]
fn trailing_arguments_that_cannot_be() {
    // For a command that is not there.
    let mut m = manifest();
    m.args.push(arg(None, &["nowhere"]));
    assert_eq!(package(Some("An app."), Some(m)).err(), Some(BashManError::UnknownCommand("nowhere".to_owned())));

    // A second one for the same command.
    let mut m = manifest();
    m.args.push(arg(None, &["zip"]));
    assert_eq!(package(Some("An app."), Some(m)).err(), Some(BashManError::MultipleArgs("zip".to_owned())));

    // The first fault is the one that is told.
    let mut m = manifest();
    m.args = vec![arg(None, &[]), arg(None, &["nowhere", ""])];
    assert_eq!(package(Some("An app."), Some(m)).err(), Some(BashManError::MultipleArgs(String::new())));
}

#[test]
fn manifests_that_are_not_sound() {
    // Two subcommands of one name.
    let mut m = manifest();
    m.subcommands.push(sub("add", None));
    assert_eq!(deserialize_bashman(m.clone()).err(), Some(BashManError::DuplicateKeyWord(key("add"))));
    assert_eq!(package(Some("An app."), Some(m)).err(), Some(BashManError::DuplicateKeyWord(key("add"))));

    // A switch for a command that is not there.
    let mut m = manifest();
    m.flags.push(switch(Some("-x"), None, &["add", "nowhere"]));
    assert_eq!(deserialize_bashman(m.clone()).err(), Some(BashManError::UnknownCommand("nowhere".to_owned())));
    assert_eq!(package(Some("An app."), Some(m)).err(), Some(BashManError::UnknownCommand("nowhere".to_owned())));

    // One key twice for one command: among the switches, and between a
    // switch and an option.
    let mut m = manifest();
    m.flags.push(switch(Some("-h"), None, &["list", "add"]));
    assert_eq!(deserialize_bashman(m).err(), Some(BashManError::DuplicateKeyWord(key("-h"))));
    let mut m = manifest();
    m.options.push(option(None, Some("--version"), None, &[]));
    assert_eq!(deserialize_bashman(m).err(), Some(BashManError::DuplicateKeyWord(key("--version"))));

    // The same key for another command is in order.
    let mut m = manifest();
    m.flags.push(switch(Some("-V"), None, &["list"]));
    assert!(deserialize_bashman(m).is_ok());
}

#[test]
fn a_manifest_made_ready() {
    let out = deserialize_bashman(manifest()).expect("Not sound.");
    assert_eq!(out.nice_name.as_deref(), Some("My App"));
    assert_eq!(out.subcommands.len(), 3);

    // The switch without a key is gone; the commands of each line are in
    // order, each once, and the main command stands for none.
    assert_eq!(out.flags.len(), 4);
    assert_eq!(out.flags[0].subcommands, [""]);
    assert_eq!(out.flags[1].subcommands, ["", "add", "zip"]);
    assert_eq!(out.flags[2].subcommands, ["list"]);
    assert_eq!(out.options.len(), 2);
    assert_eq!(out.options[0].subcommands, ["add", "zip"]);
    assert_eq!(out.args.len(), 2);
    assert_eq!(out.args[0].subcommands, ["add", "zip"]);

    // The section without text is gone.
    assert_eq!(out.sections.len(), 1);
    assert_eq!(out.sections[0].name, "NOTES:");
    assert_eq!(out.credits.len(), 1);
}

#[test]
fn the_commands_of_a_line() {
    assert_eq!(name_set(&Vec::new()), [""]);
    assert_eq!(name_set(&names(&["b", "a", "b", "", "B"])), ["", "B", "a", "b"]);
    assert_eq!(name_set(&names(&["one"])), ["one"]);
}

#[test]
fn names_and_claims() {
    assert_eq!(check_names(&Vec::new()), Ok(vec![String::new()]));
    assert_eq!(
        check_names(&vec![sub("b", None), sub("a", None)]),
        Ok(vec![String::new(), "b".to_owned(), "a".to_owned()]),
    );
    assert_eq!(
        check_names(&vec![sub("b", None), sub("a", None), sub("b", None)]),
        Err(BashManError::DuplicateKeyWord(key("b"))),
    );

    let known = vec![String::new(), "a".to_owned()];
    let claim = |name: &str, k: Option<&str>| Claim { name: name.to_owned(), key: k.map(key) };
    assert_eq!(check_claims(&Vec::new(), &known), Ok(()));
    assert_eq!(
        check_claims(&vec![claim("", None), claim("", Some("-h")), claim("a", None), claim("a", Some("-h"))], &known),
        Ok(()),
    );
    assert_eq!(
        check_claims(&vec![claim("a", None), claim("b", None)], &known),
        Err(BashManError::UnknownCommand("b".to_owned())),
    );
    assert_eq!(
        check_claims(&vec![claim("a", Some("--x")), claim("", Some("--x")), claim("a", Some("--x"))], &known),
        Err(BashManError::DuplicateKeyWord(key("--x"))),
    );
}

#[test]
fn sections_and_credits_one_for_one() {
    let out = sections_from(manifest().sections);
    assert_eq!(out.len(), 2);
    assert_eq!(out[0].name(), "NOTES:");
    assert!(!out[0].inside());
    assert_eq!(out[0].lines(), Some("One.\n.RE\nTwo."));
    assert_eq!(out[1].name(), "EMPTY:");
    assert!(out[1].inside());
    assert_eq!(out[1].lines(), None);

    let mut raws = manifest().credits;
    let mut second = raws[0].clone();
    second.name = PackageName::try_from("other".to_owned()).expect("Bad name.");
    second.optional = false;
    raws.push(second);
    let out = credits_from(raws);
    assert_eq!(out.len(), 2);
    assert_eq!(out[0].name.as_str(), "by-hand");
    assert_eq!(out[0].context, 0b0000_0011);
    assert_eq!(out[1].name.as_str(), "other");
    assert_eq!(out[1].context, 0b0000_0001);
}
