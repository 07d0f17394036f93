use bashman::err::BashManError;
use bashman::keyword::KeyWord;
use bashman::man::{nice_title, pages, push_entry, push_escaped, to_upper_text};
use bashman::manifest::{Flag, ManifestData, OptionFlag, Section, Subcommand, TrailingArg};

fn key(raw: &str) -> KeyWord {
    KeyWord::try_from(raw).expect("Bad keyword.")
}

fn flag(short: Option<&str>, long: Option<&str>, description: &str) -> Flag {
    Flag { short: short.map(key), long: long.map(key), description: description.to_owned(), duplicate: false }
}

#[test]
fn hyphens_are_escaped() {
    let mut out = "x".to_owned();
    push_escaped(&mut out, "a-b--c");
    assert_eq!(out, "xa\\-b\\-\\-c");
    let mut out = String::new();
    push_escaped(&mut out, "");
    assert_eq!(out, "");
}

#[test]
fn titles() {
    assert_eq!(nice_title("Cargo \"Bash\" Man"), Some("CARGO BASH MAN".to_owned()));
    assert_eq!(nice_title("straße"), Some("STRASSE".to_owned()));
    assert_eq!(nice_title("\"\""), None);
    assert_eq!(nice_title(""), None);
    assert_eq!(to_upper_text("cargo-bashman"), "CARGO-BASHMAN");
}

#[test]
fn entries() {
    let entry = |short: Option<&str>, long: Option<&str>, label: Option<&str>, indent: bool| {
        let mut out = String::new();
        push_entry(&mut out, short, long, label, "What it-does.", indent);
        out
    };
    assert_eq!(entry(Some("-o"), Some("--out"), Some("<FILE>"), true), ".TP\n\\fB\\-o\\fR, \\fB\\-\\-out\\fR <FILE>\nWhat it\\-does.\n");
    assert_eq!(entry(Some("-o"), None, Some("<FILE>"), true), ".TP\n\\fB\\-o\\fR <FILE>\nWhat it\\-does.\n");
    assert_eq!(entry(None, Some("--out"), Some("<FILE>"), false), ".TP\n\\fB\\-\\-out\\fR <FILE>\nWhat it\\-does.\n");
    assert_eq!(entry(Some("-h"), Some("--help"), None, true), ".TP\n\\fB\\-h\\fR, \\fB\\-\\-help\\fR\nWhat it\\-does.\n");
    assert_eq!(entry(Some("-h"), None, None, true), ".TP\n\\fB\\-h\\fR\nWhat it\\-does.\n");
    assert_eq!(entry(None, Some("--help"), None, true), ".TP\n\\fB\\-\\-help\\fR\nWhat it\\-does.\n");
    assert_eq!(entry(None, None, Some("<ARG>"), true), ".TP\n\\fB<ARG>\\fR\nWhat it\\-does.\n");
    assert_eq!(entry(None, None, None, true), ".TP\nWhat it\\-does.\n");
    assert_eq!(entry(None, None, None, false), "What it\\-does.\n");
}

#[test]
fn manual_pages() {
    let mut data = ManifestData::new();
    data.flags.push(flag(Some("-h"), Some("--help"), "Print help."));
    data.options.push(OptionFlag { flag: flag(Some("-o"), Some("--out"), "Output."), label: "<FILE>".to_owned(), path: true });
    data.args = Some(TrailingArg { label: "<PATH(S)>".to_owned(), description: "Paths.".to_owned() });
    data.sections.push(Section {
        name: "NOTES:".to_owned(),
        inside: false,
        lines: "Line one.\n.RE\nLine two.".to_owned(),
        items: vec![["key".to_owned(), "value".to_owned()]],
    });
    data.sections.push(Section {
        name: "SEE ALSO:".to_owned(),
        inside: true,
        lines: "More.".to_owned(),
        items: Vec::new(),
    });
    let app = Subcommand {
        nice_name: Some("My App".to_owned()),
        name: key("app"),
        description: "Does things - well.".to_owned(),
        version: "1.2.3".to_owned(),
        parent: None,
        data,
    };
    let build = Subcommand {
        nice_name: None,
        name: key("build"),
        description: "Build it.".to_owned(),
        version: "1.2.3".to_owned(),
        parent: Some(("My App".to_owned(), key("app"))),
        data: ManifestData::new(),
    };
    let subs = vec![app, build];
    let out = pages(&subs, "January", "2024").expect("Pages failed.");
    assert_eq!(out.len(), 2);
    assert_eq!(out[0].0, "app.1");
    assert_eq!(
        out[0].1,
        r#".TH "MY APP" "1" "January 2024" "app v1.2.3" "User Commands"
.SH NAME
MY APP \- Manual page for app v1.2.3.
.SH DESCRIPTION
Does things \- well.
.SS USAGE:
.TP
app [SUBCOMMAND] [FLAGS] [OPTIONS] <PATH(S)>
.SS FLAGS:
.TP
\fB\-h\fR, \fB\-\-help\fR
Print help.
.SS OPTIONS:
.TP
\fB\-o\fR, \fB\-\-out\fR <FILE>
Output.
.SS TRAILING:
.TP
\fB<PATH(S)>\fR
Paths.
.SS SUBCOMMANDS:
.TP
\fBbuild\fR
Build it.
.SH NOTES
Line one.
.RE
Line two.
.TP
\fBkey\fR
value
.SS SEE ALSO:
.TP
More.
"#,
    );
    assert_eq!(out[1].0, "app-build.1");
    assert_eq!(
        out[1].1,
        r#".TH "MY APP BUILD" "1" "January 2024" "app build v1.2.3" "User Commands"
.SH NAME
BUILD \- Manual page for app build v1.2.3.
.SH DESCRIPTION
Build it.
.SS USAGE:
.TP
app build
"#,
    );

    assert_eq!(pages(&Vec::new(), "January", "2024"), Err(BashManError::Man));
}

#[test]
fn a_page_without_subcommands() {
    let app = Subcommand {
        nice_name: None,
        name: key("app"),
        description: "Does things.".to_owned(),
        version: "0.1.0".to_owned(),
        parent: None,
        data: ManifestData::new(),
    };
    let out = pages(&vec![app], "May", "2025").expect("Pages failed.");
    assert_eq!(
        out[0].1,
        ".TH \"APP\" \"1\" \"May 2025\" \"app v0.1.0\" \"User Commands\"\n.SH NAME\nAPP \\- Manual page for app v0.1.0.\n.SH DESCRIPTION\nDoes things.\n.SS USAGE:\n.TP\napp\n",
    );
}
