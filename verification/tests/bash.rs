use bashman::bash::{fname_of, squeeze_lines, BashWriter};
use bashman::err::BashManError;
use bashman::keyword::KeyWord;
use bashman::manifest::{Flag, ManifestData, OptionFlag, Subcommand};

fn key(raw: &str) -> KeyWord {
    KeyWord::try_from(raw).expect("Bad keyword.")
}

fn flag(short: Option<&str>, long: Option<&str>, duplicate: bool) -> Flag {
    Flag { short: short.map(key), long: long.map(key), description: "Something.".to_owned(), duplicate }
}

fn command(name: &str, parent: Option<&str>) -> Subcommand {
    Subcommand {
        nice_name: None,
        name: key(name),
        description: "A command.".to_owned(),
        version: "1.0.0".to_owned(),
        parent: parent.map(|p| (p.to_owned(), key(p))),
        data: ManifestData::new(),
    }
}

#[test]
fn function_names() {
    assert_eq!(fname_of(None, "cargo-bashman"), "_basher___cargo_bashman");
    assert_eq!(fname_of(Some("App"), "Sub.Cmd"), "_basher__app_sub_cmd");
    assert_eq!(fname_of(Some("é"), "x9"), "_basher____x9");
    assert_eq!(command("build", Some("app")).fname(), "_basher__app_build");
}

#[test]
fn squeezes_empty_lines() {
    assert_eq!(squeeze_lines("\n\na\n\n\nb\nc\n\n"), "a\nb\nc\n");
    assert_eq!(squeeze_lines(""), "");
    assert_eq!(squeeze_lines("\n"), "");
    assert_eq!(squeeze_lines("a"), "a");
}

#[test]
fn a_lone_command() {
    let mut app = command("app", None);
    app.data.flags.push(flag(Some("-h"), Some("--help"), false));
    app.data.flags.push(flag(Some("-v"), None, true));
    app.data.options.push(OptionFlag { flag: flag(Some("-o"), Some("--out"), false), label: "<FILE>".to_owned(), path: true });
    app.data.options.push(OptionFlag { flag: flag(None, Some("--level"), true), label: "<N>".to_owned(), path: false });
    let subs = vec![app];
    let writer = BashWriter::try_from(&subs).expect("Writer failed.");
    assert_eq!(writer.main_cmd().map(Subcommand::bin), Ok("app"));
    let expected = r#"_basher___app() {
	local cur prev opts
	COMPREPLY=()
	cur="${COMP_WORDS[COMP_CWORD]}"
	prev="${COMP_WORDS[COMP_CWORD-1]}"
	opts=()
	if [[ ! " ${COMP_LINE} " =~ " -h " ]] && [[ ! " ${COMP_LINE} " =~ " --help " ]]; then
		opts+=("-h")
		opts+=("--help")
	fi
	opts+=("-v")
	if [[ ! " ${COMP_LINE} " =~ " -o " ]] && [[ ! " ${COMP_LINE} " =~ " --out " ]]; then
		opts+=("-o")
		opts+=("--out")
	fi
	opts+=("--level")
	opts=" ${opts[@]} "
	if [[ ${cur} == -* || ${COMP_CWORD} -eq 1 ]] ; then
		COMPREPLY=( $(compgen -W "${opts}" -- "${cur}") )
		return 0
	fi
	case "${prev}" in
		--out|-o)
			if [ -z "$( declare -f _filedir )" ]; then
				COMPREPLY=( $( compgen -f "${cur}" ) )
			else
				COMPREPLY=( $( _filedir ) )
			fi
			return 0
			;;
		*)
			COMPREPLY=()
			;;
	esac
	COMPREPLY=( $(compgen -W "${opts}" -- "${cur}") )
	return 0
}
complete -F _basher___app -o bashdefault -o default app
"#;
    assert_eq!(writer.text(), expected);
    assert_eq!(writer.write(), Ok(("app.bash".to_owned(), expected.to_owned())));
}

#[test]
fn a_program_with_subcommands() {
    let mut app = command("app", None);
    app.data.flags.push(flag(None, Some("--version"), false));
    let mut build = command("build", Some("app"));
    build.data.flags.push(flag(Some("-a"), None, false));
    let check = command("Check", Some("app"));
    let subs = vec![check, app, build];
    let writer = BashWriter::try_from(&subs).expect("Writer failed.");
    let order: Vec<_> = writer.subcommands.iter().map(|s| s.bin()).collect();
    assert_eq!(order, ["app", "build", "Check"]);

    let expected = r#"_basher__app_build() {
	local cur prev opts
	COMPREPLY=()
	cur="${COMP_WORDS[COMP_CWORD]}"
	prev="${COMP_WORDS[COMP_CWORD-1]}"
	opts=()
	[[ " ${COMP_LINE} " =~ " -a " ]] || opts+=("-a")
	opts=" ${opts[@]} "
	if [[ ${cur} == -* || ${COMP_CWORD} -eq 1 ]] ; then
		COMPREPLY=( $(compgen -W "${opts}" -- "${cur}") )
		return 0
	fi
	COMPREPLY=( $(compgen -W "${opts}" -- "${cur}") )
	return 0
}
_basher__app_check() {
	local cur prev opts
	COMPREPLY=()
	cur="${COMP_WORDS[COMP_CWORD]}"
	prev="${COMP_WORDS[COMP_CWORD-1]}"
	opts=()
	opts=" ${opts[@]} "
	if [[ ${cur} == -* || ${COMP_CWORD} -eq 1 ]] ; then
		COMPREPLY=( $(compgen -W "${opts}" -- "${cur}") )
		return 0
	fi
	COMPREPLY=( $(compgen -W "${opts}" -- "${cur}") )
	return 0
}
_basher___app() {
	local cur prev opts
	COMPREPLY=()
	cur="${COMP_WORDS[COMP_CWORD]}"
	prev="${COMP_WORDS[COMP_CWORD-1]}"
	opts=()
	[[ " ${COMP_LINE} " =~ " --version " ]] || opts+=("--version")
	opts+=("build")
	opts+=("Check")
	opts=" ${opts[@]} "
	if [[ ${cur} == -* || ${COMP_CWORD} -eq 1 ]] ; then
		COMPREPLY=( $(compgen -W "${opts}" -- "${cur}") )
		return 0
	fi
	COMPREPLY=( $(compgen -W "${opts}" -- "${cur}") )
	return 0
}
subcmd__basher___app() {
	local i cmd
	COMPREPLY=()
	cmd=""
	for i in ${COMP_WORDS[@]}; do
		case "${i}" in
			app)
				cmd="app"
				;;
			build)
				cmd="build"
				;;
			Check)
				cmd="Check"
				;;
			*)
				;;
		esac
	done
	echo "$cmd"
}
chooser__basher___app() {
	local i cmd
	COMPREPLY=()
	cmd="$( subcmd__basher___app )"
	case "${cmd}" in
		app)
			_basher___app
			;;
		build)
			_basher__app_build
			;;
		Check)
			_basher__app_check
			;;
		*)
			;;
	esac
}
complete -F chooser__basher___app -o bashdefault -o default app
"#;
    assert_eq!(writer.write(), Ok(("app.bash".to_owned(), expected.to_owned())));
    // As it is made, the script has its empty lines.
    assert!(writer.text().contains("cmd=\"\"\n\n\tfor i in"));
    assert!(writer.text().contains(";;\n\n\t\t\t*)"));
}

#[test]
fn scripts_that_cannot_be_made() {
    // Two commands whose functions would have one name.
    let subs = vec![command("app", None), command("a-b", Some("app")), command("a_b", Some("app"))];
    assert!(matches!(BashWriter::try_from(&subs), Err(BashManError::Bash)));

    // No main command.
    let subs = vec![command("build", Some("app"))];
    let writer = BashWriter::try_from(&subs).expect("Writer failed.");
    assert!(matches!(writer.main_cmd(), Err(BashManError::Bash)));
    assert_eq!(writer.text(), "");
    assert_eq!(writer.write(), Err(BashManError::Bash));

    let subs = Vec::new();
    let writer = BashWriter::try_from(&subs).expect("Writer failed.");
    assert_eq!(writer.write(), Err(BashManError::Bash));
}
