//! The completion script: for each command a function that offers its keys,
//! and for a program with subcommands a chooser that picks the function by
//! the subcommand on the line.

use vstd::prelude::*;
use vstd::string::StringExecFns;
use crate::err::BashManError;
use crate::list::{is_sorted_set, lemma_insert_text, lemma_sorted_set, sorted_set, strictly_sorted};
use crate::order::{lemma_text_total, text_compare, Order};
use crate::text::chars_of;
use crate::manifest::{key_text, opt_str, path_key_items, Flag, OptionFlag, Subcommand};
use crate::text::{ascii_lower, joined, strings_of, to_chars, to_lower};

verus! {

/// The byte that stands for a byte in a function name: itself for a
/// lower-case letter or a digit, the lower-case letter for a capital, and an
/// underscore for anything else.
pub open spec fn bash_byte(b: u8) -> u8 {
    if (0x61 <= b && b <= 0x7a) || (0x30 <= b && b <= 0x39) {
        b
    } else if 0x41 <= b && b <= 0x5a {
        (b + 32) as u8
    } else {
        0x5f
    }
}

/// The characters that stand for the bytes in a function name.
pub open spec fn bash_chars(s: Seq<u8>) -> Seq<char> {
    Seq::new(s.len(), |i: int| bash_byte(s[i]) as char)
}

/// The name of the function for a command: `_basher__`, what stands for the
/// command of the parent, `_`, and what stands for the command.
pub open spec fn bash_name(parent: Seq<u8>, bin: Seq<u8>) -> Seq<char> {
    seq!['_', 'b', 'a', 's', 'h', 'e', 'r', '_', '_'] + bash_chars(parent) + seq!['_']
        + bash_chars(bin)
}

/// The byte that stands for a byte in a function name.
pub fn bash_bytes(b: u8) -> (r: u8)
    ensures
        r == bash_byte(b),
{
    if (0x61 <= b && b <= 0x7a) || (0x30 <= b && b <= 0x39) {
        b
    } else if 0x41 <= b && b <= 0x5a {
        b + 32
    } else {
        0x5f
    }
}

/// The name of the function for a command.
pub fn bash_subfname(parent: &[u8], bin: &[u8]) -> (out: String)
    ensures
        out@ == bash_name(parent@, bin@),
{
    let mut out = String::new();
    out.push('_');
    out.push('b');
    out.push('a');
    out.push('s');
    out.push('h');
    out.push('e');
    out.push('r');
    out.push('_');
    out.push('_');
    let ghost head = out@;
    assert(head =~= seq!['_', 'b', 'a', 's', 'h', 'e', 'r', '_', '_']);
    let mut i: usize = 0;
    while i < parent.len()
        invariant
            i <= parent@.len(),
            out@ == head + bash_chars(parent@.take(i as int)),
        decreases parent@.len() - i,
    {
        let c = bash_bytes(parent[i]);
        out.push(c as char);
        assert(bash_chars(parent@.take(i + 1)) =~= bash_chars(parent@.take(i as int)).push(
            bash_byte(parent@[i as int]) as char,
        ));
        i += 1;
    }
    assert(parent@.take(parent@.len() as int) =~= parent@);
    out.push('_');
    let ghost mid = out@;
    let mut k: usize = 0;
    while k < bin.len()
        invariant
            k <= bin@.len(),
            out@ == mid + bash_chars(bin@.take(k as int)),
        decreases bin@.len() - k,
    {
        let c = bash_bytes(bin[k]);
        out.push(c as char);
        assert(bash_chars(bin@.take(k + 1)) =~= bash_chars(bin@.take(k as int)).push(
            bash_byte(bin@[k as int]) as char,
        ));
        k += 1;
    }
    assert(bin@.take(bin@.len() as int) =~= bin@);
    assert(out@ =~= bash_name(parent@, bin@));
    out
}

/// The bytes with a backslash before each hyphen.
pub open spec fn hyphens_escaped(s: Seq<u8>) -> Seq<u8>
    decreases s.len(),
{
    if s.len() == 0 {
        Seq::<u8>::empty()
    } else if s[0] == 0x2d {
        seq![0x5cu8, 0x2du8] + hyphens_escaped(s.drop_first())
    } else {
        seq![s[0]] + hyphens_escaped(s.drop_first())
    }
}

/// Makes a manual page ready to be written: a backslash is put before each
/// hyphen, and a line feed at the end.
pub fn man_escape(src: &mut Vec<u8>)
    ensures
        final(src)@ == hyphens_escaped(old(src)@).push(0x0au8),
{
    let ghost all = src@;
    let mut out: Vec<u8> = Vec::new();
    let mut i: usize = 0;
    assert(all.skip(0) =~= all);
    while i < src.len()
        invariant
            i <= src@.len(),
            src@ == all,
            out@ + hyphens_escaped(all.skip(i as int)) == hyphens_escaped(all),
        decreases src@.len() - i,
    {
        let b = src[i];
        let ghost rest = all.skip(i as int);
        let ghost before = out@;
        assert(rest[0] == b);
        assert(rest.drop_first() =~= all.skip(i + 1));
        if b == 0x2d {
            out.push(0x5c);
            out.push(0x2d);
            assert(out@ =~= before + seq![0x5cu8, 0x2du8]);
        } else {
            out.push(b);
            assert(out@ =~= before + seq![b]);
        }
        assert(out@ + hyphens_escaped(all.skip(i + 1)) =~= before + hyphens_escaped(rest));
        i += 1;
    }
    assert(out@ + Seq::<u8>::empty() =~= out@);
    out.push(0x0a);
    *src = out;
}

/// The lines that offer one key `k`: always where it may come more than
/// once, else only while it is not on the line yet.
pub open spec fn one_key_text(k: Seq<char>, duplicate: bool) -> Seq<char> {
    if duplicate {
        "\topts+=(\""@ + k + "\")\n"@
    } else {
        "\t[[ \" ${COMP_LINE} \" =~ \" "@ + k + " \" ]] || opts+=(\""@ + k + "\")\n"@
    }
}

/// The lines that offer a short and a long key: always where they may come
/// more than once, else only while neither is on the line yet.
pub open spec fn two_keys_text(s: Seq<char>, l: Seq<char>, duplicate: bool) -> Seq<char> {
    if duplicate {
        "\topts+=(\""@ + s + "\")\n\topts+=(\""@ + l + "\")\n"@
    } else {
        "\tif [[ ! \" ${COMP_LINE} \" =~ \" "@ + s + " \" ]] && [[ ! \" ${COMP_LINE} \" =~ \" "@
            + l + " \" ]]; then\n\t\topts+=(\""@ + s + "\")\n\t\topts+=(\""@ + l
            + "\")\n\tfi\n"@
    }
}

/// The lines that offer the keys of a flag or an option.
pub open spec fn keys_text(short: Option<Seq<char>>, long: Option<Seq<char>>, duplicate: bool) -> Seq<
    char,
> {
    match (short, long) {
        (Some(s), Some(l)) => two_keys_text(s, l, duplicate),
        (Some(k), None) => one_key_text(k, duplicate),
        (None, Some(k)) => one_key_text(k, duplicate),
        (None, None) => Seq::<char>::empty(),
    }
}

/// Writes the lines that offer one key.
fn push_one_key(out: &mut String, k: &str, duplicate: bool)
    ensures
        final(out)@ == old(out)@ + one_key_text(k@, duplicate),
{
    let ghost before = out@;
    if duplicate {
        out.append("\topts+=(\"");
        out.append(k);
        out.append("\")\n");
    } else {
        out.append("\t[[ \" ${COMP_LINE} \" =~ \" ");
        out.append(k);
        out.append(" \" ]] || opts+=(\"");
        out.append(k);
        out.append("\")\n");
    }
    assert(out@ =~= before + one_key_text(k@, duplicate));
}

/// Writes the lines that offer a short and a long key.
fn push_two_keys(out: &mut String, s: &str, l: &str, duplicate: bool)
    ensures
        final(out)@ == old(out)@ + two_keys_text(s@, l@, duplicate),
{
    let ghost before = out@;
    if duplicate {
        out.append("\topts+=(\"");
        out.append(s);
        out.append("\")\n\topts+=(\"");
        out.append(l);
        out.append("\")\n");
    } else {
        out.append("\tif [[ ! \" ${COMP_LINE} \" =~ \" ");
        out.append(s);
        out.append(" \" ]] && [[ ! \" ${COMP_LINE} \" =~ \" ");
        out.append(l);
        out.append(" \" ]]; then\n\t\topts+=(\"");
        out.append(s);
        out.append("\")\n\t\topts+=(\"");
        out.append(l);
        out.append("\")\n\tfi\n");
    }
    assert(out@ =~= before + two_keys_text(s@, l@, duplicate));
}

/// Writes the lines that offer the keys of a flag or an option.
pub fn push_keys(out: &mut String, short: Option<&str>, long: Option<&str>, duplicate: bool)
    ensures
        final(out)@ == old(out)@ + keys_text(opt_str(short), opt_str(long), duplicate),
{
    match (short, long) {
        (Some(s), Some(l)) => push_two_keys(out, s, l, duplicate),
        (Some(k), None) => push_one_key(out, k, duplicate),
        (None, Some(k)) => push_one_key(out, k, duplicate),
        (None, None) => {
            assert(out@ + Seq::<char>::empty() =~= out@);
        },
    }
}

/// The lines that offer the keys of the flags, flag after flag.
pub open spec fn flags_text(flags: Seq<Flag>) -> Seq<char>
    decreases flags.len(),
{
    if flags.len() == 0 {
        Seq::<char>::empty()
    } else {
        let f = flags.last();
        flags_text(flags.drop_last()) + keys_text(key_text(f.short), key_text(f.long), f.duplicate)
    }
}

/// The lines that offer the keys of the options, option after option.
pub open spec fn options_text(options: Seq<OptionFlag>) -> Seq<char>
    decreases options.len(),
{
    if options.len() == 0 {
        Seq::<char>::empty()
    } else {
        let f = options.last().flag;
        options_text(options.drop_last()) + keys_text(
            key_text(f.short),
            key_text(f.long),
            f.duplicate,
        )
    }
}

/// The lines that offer the subcommands, one after the other.
pub open spec fn subs_text(subs: Seq<Seq<char>>) -> Seq<char>
    decreases subs.len(),
{
    if subs.len() == 0 {
        Seq::<char>::empty()
    } else {
        subs_text(subs.drop_last()) + "\topts+=(\""@ + subs.last() + "\")\n"@
    }
}

/// The character that stands for a character in a function name: itself for
/// a lower-case letter or a digit, the lower-case letter for a capital, and
/// an underscore for anything else.
pub open spec fn bash_char(c: char) -> char {
    if ('a' <= c && c <= 'z') || ('0' <= c && c <= '9') {
        c
    } else if 'A' <= c && c <= 'Z' {
        ascii_lower(c)
    } else {
        '_'
    }
}

/// The characters that stand for a text in a function name.
pub open spec fn bash_text(s: Seq<char>) -> Seq<char> {
    Seq::new(s.len(), |i: int| bash_char(s[i]))
}

/// The name of the function of a command: `_basher__`, what stands for the
/// command of the parent where there is one, `_`, and what stands for the
/// command.
pub open spec fn function_name(parent: Option<Seq<char>>, bin: Seq<char>) -> Seq<char> {
    "_basher__"@ + (match parent {
        Some(p) => bash_text(p),
        None => Seq::<char>::empty(),
    }) + "_"@ + bash_text(bin)
}

/// Writes what stands for a text in a function name.
fn push_bash_text(out: &mut String, s: &str)
    ensures
        final(out)@ == old(out)@ + bash_text(s@),
{
    let ghost before = out@;
    let chars = to_chars(s);
    let mut i: usize = 0;
    assert(out@ =~= before + bash_text(chars@.take(0)));
    while i < chars.len()
        invariant
            i <= chars@.len(),
            chars@ == s@,
            out@ == before + bash_text(chars@.take(i as int)),
        decreases chars@.len() - i,
    {
        let c = chars[i];
        let m = if ('a' <= c && c <= 'z') || ('0' <= c && c <= '9') {
            c
        } else if 'A' <= c && c <= 'Z' {
            to_lower(c)
        } else {
            '_'
        };
        out.push(m);
        assert(bash_text(chars@.take(i + 1)) =~= bash_text(chars@.take(i as int)).push(m));
        i += 1;
    }
    assert(chars@.take(chars@.len() as int) =~= chars@);
}

/// The name of the function of a command.
pub fn fname_of(parent: Option<&str>, bin: &str) -> (out: String)
    ensures
        out@ == function_name(opt_str(parent), bin@),
{
    let mut out = String::new();
    out.append("_basher__");
    match parent {
        Some(p) => {
            push_bash_text(&mut out, p);
        },
        None => {},
    }
    out.append("_");
    push_bash_text(&mut out, bin);
    assert(out@ =~= function_name(opt_str(parent), bin@));
    out
}

/// The command of the parent of a command.
pub open spec fn parent_text(s: Subcommand) -> Option<Seq<char>> {
    match s.parent {
        Some(p) => Some(p.1.text()),
        None => None,
    }
}

/// The name of the function of a command.
pub open spec fn fname_text(s: Subcommand) -> Seq<char> {
    function_name(parent_text(s), s.name.text())
}

/// How the function of a command starts.
pub open spec fn function_open() -> Seq<char> {
    "() {\n\tlocal cur prev opts\n\tCOMPREPLY=()\n\tcur=\"${COMP_WORDS[COMP_CWORD]}\"\n\tprev=\"${COMP_WORDS[COMP_CWORD-1]}\"\n\topts=()\n"@
}

/// What follows the keys in the function of a command.
pub open spec fn function_middle() -> Seq<char> {
    "\topts=\" ${opts[@]} \"\n\tif [[ ${cur} == -* || ${COMP_CWORD} -eq 1 ]] ; then\n\t\tCOMPREPLY=( $(compgen -W \"${opts}\" -- \"${cur}\") )\n\t\treturn 0\n\tfi\n"@
}

/// How the function of a command ends.
pub open spec fn function_close() -> Seq<char> {
    "\tCOMPREPLY=( $(compgen -W \"${opts}\" -- \"${cur}\") )\n\treturn 0\n}\n"@
}

/// The lines that offer file names after a key that takes a path; nothing
/// where no key does.
pub open spec fn paths_text(keys: Seq<Seq<char>>) -> Seq<char> {
    if keys.len() == 0 {
        Seq::<char>::empty()
    } else {
        "\tcase \"${prev}\" in\n\t\t"@ + joined(keys, "|"@)
            + ")\n\t\t\tif [ -z \"$( declare -f _filedir )\" ]; then\n\t\t\t\tCOMPREPLY=( $( compgen -f \"${cur}\" ) )\n\t\t\telse\n\t\t\t\tCOMPREPLY=( $( _filedir ) )\n\t\t\tfi\n\t\t\treturn 0\n\t\t\t;;\n\t\t*)\n\t\t\tCOMPREPLY=()\n\t\t\t;;\n\tesac\n"@
    }
}

/// The function of a command: it offers the keys of its flags and options,
/// the given subcommands where the command is the main one, and file names
/// after the keys that take a path.
pub open spec fn completions_text(s: Subcommand, subs: Seq<Seq<char>>) -> Seq<char> {
    fname_text(s) + function_open() + flags_text(s.data.flags@) + options_text(s.data.options@) + (
    if s.parent is None {
        subs_text(subs)
    } else {
        Seq::<char>::empty()
    }) + function_middle() + paths_text(sorted_set(path_key_items(s.data.options@)))
        + function_close()
}

/// Writes the lines that offer the keys of the flags.
fn push_flags(out: &mut String, flags: &Vec<Flag>)
    ensures
        final(out)@ == old(out)@ + flags_text(flags@),
{
    let ghost before = out@;
    let mut i: usize = 0;
    assert(out@ =~= before + flags_text(flags@.take(0)));
    while i < flags.len()
        invariant
            i <= flags@.len(),
            out@ == before + flags_text(flags@.take(i as int)),
        decreases flags@.len() - i,
    {
        let f = &flags[i];
        let ghost text = out@;
        assert(flags@.take(i + 1).drop_last() =~= flags@.take(i as int));
        assert(flags@.take(i + 1).last() == *f);
        push_keys(out, f.short(), f.long(), f.duplicate());
        assert(out@ =~= before + flags_text(flags@.take(i + 1)));
        i += 1;
    }
    assert(flags@.take(flags@.len() as int) =~= flags@);
}

/// Writes the lines that offer the keys of the options.
fn push_options(out: &mut String, options: &Vec<OptionFlag>)
    ensures
        final(out)@ == old(out)@ + options_text(options@),
{
    let ghost before = out@;
    let mut i: usize = 0;
    assert(out@ =~= before + options_text(options@.take(0)));
    while i < options.len()
        invariant
            i <= options@.len(),
            out@ == before + options_text(options@.take(i as int)),
        decreases options@.len() - i,
    {
        let f = &options[i];
        assert(options@.take(i + 1).drop_last() =~= options@.take(i as int));
        assert(options@.take(i + 1).last() == *f);
        push_keys(out, f.short(), f.long(), f.duplicate());
        assert(out@ =~= before + options_text(options@.take(i + 1)));
        i += 1;
    }
    assert(options@.take(options@.len() as int) =~= options@);
}

/// Writes the lines that offer the subcommands.
fn push_subs(out: &mut String, subs: &Vec<String>)
    ensures
        final(out)@ == old(out)@ + subs_text(strings_of(subs@)),
{
    let ghost before = out@;
    let ghost all = strings_of(subs@);
    let mut i: usize = 0;
    assert(out@ =~= before + subs_text(all.take(0)));
    while i < subs.len()
        invariant
            i <= subs@.len(),
            all == strings_of(subs@),
            out@ == before + subs_text(all.take(i as int)),
        decreases subs@.len() - i,
    {
        assert(all.take(i + 1).drop_last() =~= all.take(i as int));
        assert(all.take(i + 1).last() == subs@[i as int]@);
        out.append("\topts+=(\"");
        out.append(subs[i].as_str());
        out.append("\")\n");
        assert(out@ =~= before + subs_text(all.take(i + 1)));
        i += 1;
    }
    assert(all.take(all.len() as int) =~= all);
}

/// Writes the lines that offer file names after the keys that take a path.
fn push_paths(out: &mut String, keys: &Vec<String>)
    ensures
        final(out)@ == old(out)@ + paths_text(strings_of(keys@)),
{
    let ghost before = out@;
    if keys.len() == 0 {
        assert(out@ + Seq::<char>::empty() =~= out@);
        return ;
    }
    out.append("\tcase \"${prev}\" in\n\t\t");
    out.append(crate::text::join(keys.as_slice(), "|").as_str());
    out.append(
        ")\n\t\t\tif [ -z \"$( declare -f _filedir )\" ]; then\n\t\t\t\tCOMPREPLY=( $( compgen -f \"${cur}\" ) )\n\t\t\telse\n\t\t\t\tCOMPREPLY=( $( _filedir ) )\n\t\t\tfi\n\t\t\treturn 0\n\t\t\t;;\n\t\t*)\n\t\t\tCOMPREPLY=()\n\t\t\t;;\n\tesac\n",
    );
    assert(out@ =~= before + paths_text(strings_of(keys@)));
}

impl Subcommand {
    /// The name of the function of the command in the completion script.
    pub fn fname(&self) -> (out: String)
        ensures
            out@ == fname_text(*self),
    {
        fname_of(self.parent_bin(), self.bin())
    }

    /// Writes the function of the command: see `completions_text`. The
    /// subcommands are offered where the command is the main one.
    pub fn write_completions(&self, out: &mut String, subcommands: &Vec<String>)
        ensures
            final(out)@ == old(out)@ + completions_text(*self, strings_of(subcommands@)),
    {
        let ghost before = out@;
        out.append(self.fname().as_str());
        out.append(
            "() {\n\tlocal cur prev opts\n\tCOMPREPLY=()\n\tcur=\"${COMP_WORDS[COMP_CWORD]}\"\n\tprev=\"${COMP_WORDS[COMP_CWORD-1]}\"\n\topts=()\n",
        );
        push_flags(out, &self.data.flags);
        push_options(out, &self.data.options);
        if self.is_main() {
            push_subs(out, subcommands);
        }
        out.append(
            "\topts=\" ${opts[@]} \"\n\tif [[ ${cur} == -* || ${COMP_CWORD} -eq 1 ]] ; then\n\t\tCOMPREPLY=( $(compgen -W \"${opts}\" -- \"${cur}\") )\n\t\treturn 0\n\tfi\n",
        );
        let paths = self.path_keys();
        push_paths(out, &paths);
        out.append("\tCOMPREPLY=( $(compgen -W \"${opts}\" -- \"${cur}\") )\n\treturn 0\n}\n");
        assert(out@ =~= before + completions_text(*self, strings_of(subcommands@)));
    }
}

/// No two commands have a function of the same name.
pub open spec fn distinct_fnames(subs: Seq<Subcommand>) -> bool {
    forall|i: int, j: int|
        0 <= i < j < subs.len() ==> fname_text(#[trigger] subs[i]) != fname_text(#[trigger] subs[j])
}

/// The commands of `list` are those of `subs`, in the order of the names of
/// their functions.
pub open spec fn ordered(list: Seq<&Subcommand>, subs: Seq<Subcommand>) -> bool {
    &&& list.len() == subs.len()
    &&& strictly_sorted(Seq::new(list.len(), |i: int| fname_text(*list[i])))
    &&& forall|i: int| 0 <= i < list.len() ==> subs.contains(*#[trigger] list[i])
}

/// The place of the main command in the list: the first command without a
/// parent.
pub open spec fn is_main_at(list: Seq<&Subcommand>, i: int) -> bool {
    &&& 0 <= i < list.len()
    &&& list[i].parent is None
    &&& forall|j: int| 0 <= j < i ==> (#[trigger] list[j]).parent is Some
}

/// The list has a main command.
pub open spec fn has_main(list: Seq<&Subcommand>) -> bool {
    exists|i: int| 0 <= i < list.len() && (#[trigger] list[i]).parent is None
}

/// The main command of the list.
pub open spec fn main_of(list: Seq<&Subcommand>) -> Subcommand {
    *list[choose|i: int| is_main_at(list, i)]
}

/// The functions of the commands that are not the main one, one after the
/// other.
pub open spec fn others_text(list: Seq<&Subcommand>) -> Seq<char>
    decreases list.len(),
{
    if list.len() == 0 {
        Seq::<char>::empty()
    } else if list.last().parent is None {
        others_text(list.drop_last())
    } else {
        others_text(list.drop_last()) + completions_text(*list.last(), Seq::<Seq<char>>::empty())
    }
}

/// The commands that are not the main one.
pub open spec fn other_bins(list: Seq<&Subcommand>) -> Seq<Seq<char>>
    decreases list.len(),
{
    if list.len() == 0 {
        Seq::<Seq<char>>::empty()
    } else if list.last().parent is None {
        other_bins(list.drop_last())
    } else {
        other_bins(list.drop_last()).push(list.last().name.text())
    }
}

/// For each command, the case that finds it on the line.
pub open spec fn subcmd_cases(list: Seq<&Subcommand>) -> Seq<char>
    decreases list.len(),
{
    if list.len() == 0 {
        Seq::<char>::empty()
    } else {
        let bin = list.last().name.text();
        subcmd_cases(list.drop_last()) + "\t\t\t"@ + bin + ")\n\t\t\t\tcmd=\""@ + bin
            + "\"\n\t\t\t\t;;\n"@
    }
}

/// For each command, the case that calls its function.
pub open spec fn chooser_cases(list: Seq<&Subcommand>) -> Seq<char>
    decreases list.len(),
{
    if list.len() == 0 {
        Seq::<char>::empty()
    } else {
        chooser_cases(list.drop_last()) + "\t\t"@ + list.last().name.text() + ")\n\t\t\t"@
            + fname_text(*list.last()) + "\n\t\t\t;;\n"@
    }
}

/// The two functions that find the subcommand on the line and call its
/// function, and the line that registers them.
pub open spec fn chooser_text(
    fname: Seq<char>,
    bin: Seq<char>,
    subcmds: Seq<char>,
    choosers: Seq<char>,
) -> Seq<char> {
    "subcmd_"@ + fname
        + "() {\n\tlocal i cmd\n\tCOMPREPLY=()\n\tcmd=\"\"\n\n\tfor i in ${COMP_WORDS[@]}; do\n\t\tcase \"${i}\" in\n"@
        + subcmds + "\n\t\t\t*)\n\t\t\t\t;;\n\t\tesac\n\tdone\n\techo \"$cmd\"\n}\n\nchooser_"@
        + fname + "() {\n\tlocal i cmd\n\tCOMPREPLY=()\n\tcmd=\"$( subcmd_"@ + fname
        + " )\"\n\n\tcase \"${cmd}\" in\n"@ + choosers
        + "\n\t\t*)\n\t\t\t;;\n\tesac\n}\n\ncomplete -F chooser_"@ + fname
        + " -o bashdefault -o default "@ + bin + "\n"@
}

/// The whole script for the commands in their order. For a lone command:
/// its function and the line that registers it. For more: the functions of
/// the subcommands, that of the main command, which offers the subcommands,
/// and the chooser. Nothing without a main command.
pub open spec fn script_text(list: Seq<&Subcommand>) -> Seq<char> {
    if !has_main(list) {
        Seq::<char>::empty()
    } else if list.len() == 1 {
        completions_text(main_of(list), Seq::<Seq<char>>::empty()) + "complete -F "@ + fname_text(
            main_of(list),
        ) + " -o bashdefault -o default "@ + main_of(list).name.text() + "\n"@
    } else {
        others_text(list) + completions_text(main_of(list), other_bins(list)) + chooser_text(
            fname_text(main_of(list)),
            main_of(list).name.text(),
            subcmd_cases(list),
            chooser_cases(list),
        )
    }
}

/// The text without its empty lines: without the line feeds at its start,
/// and with one line feed for each run of them.
pub open spec fn squeezed(s: Seq<char>, after_feed: bool) -> Seq<char>
    decreases s.len(),
{
    if s.len() == 0 {
        Seq::<char>::empty()
    } else if s[0] == '\n' {
        if after_feed {
            squeezed(s.drop_first(), true)
        } else {
            seq!['\n'] + squeezed(s.drop_first(), true)
        }
    } else {
        seq![s[0]] + squeezed(s.drop_first(), false)
    }
}

/// Takes the empty lines out of a text.
pub fn squeeze_lines(text: &str) -> (out: String)
    ensures
        out@ == squeezed(text@, true),
{
    let chars = to_chars(text);
    let mut out = String::new();
    let mut last = true;
    let mut i: usize = 0;
    assert(chars@.skip(0) =~= chars@);
    while i < chars.len()
        invariant
            i <= chars@.len(),
            chars@ == text@,
            out@ + squeezed(chars@.skip(i as int), last) == squeezed(chars@, true),
        decreases chars@.len() - i,
    {
        let c = chars[i];
        let ghost rest = chars@.skip(i as int);
        let ghost before = out@;
        assert(rest[0] == c);
        assert(rest.drop_first() =~= chars@.skip(i + 1));
        if c == '\n' {
            if !last {
                out.push(c);
                assert(out@ + squeezed(chars@.skip(i + 1), true) =~= before + squeezed(rest, last));
            }
            last = true;
        } else {
            out.push(c);
            assert(out@ + squeezed(chars@.skip(i + 1), false) =~= before + squeezed(rest, last));
            last = false;
        }
        i += 1;
    }
    assert(out@ + Seq::<char>::empty() =~= out@);
    out
}

/// The commands of a program, in the order of the names of their functions.
pub struct BashWriter<'a> {
    pub subcommands: Vec<&'a Subcommand>,
}

/// Writes the functions of the commands that are not the main one, and
/// gathers their names.
fn push_others(out: &mut String, list: &Vec<&Subcommand>) -> (bins: Vec<String>)
    ensures
        final(out)@ == old(out)@ + others_text(list@),
        strings_of(bins@) == other_bins(list@),
{
    let ghost before = out@;
    let none: Vec<String> = Vec::new();
    assert(strings_of(none@) =~= Seq::<Seq<char>>::empty());
    let mut bins: Vec<String> = Vec::new();
    let mut i: usize = 0;
    assert(list@.take(0) =~= Seq::<&Subcommand>::empty());
    assert(out@ =~= before + others_text(list@.take(0)));
    assert(strings_of(bins@) =~= other_bins(list@.take(0)));
    while i < list.len()
        invariant
            i <= list@.len(),
            strings_of(none@) == Seq::<Seq<char>>::empty(),
            out@ == before + others_text(list@.take(i as int)),
            strings_of(bins@) == other_bins(list@.take(i as int)),
        decreases list@.len() - i,
    {
        let sub = list[i];
        let ghost names = strings_of(bins@);
        assert(list@.take(i + 1).drop_last() =~= list@.take(i as int));
        assert(list@.take(i + 1).last() == sub);
        if !sub.is_main() {
            sub.write_completions(out, &none);
            bins.push(sub.bin().to_owned());
            assert(strings_of(bins@) =~= names.push(sub.name.text()));
            assert(out@ =~= before + others_text(list@.take(i + 1)));
        }
        i += 1;
    }
    assert(list@.take(list@.len() as int) =~= list@);
    bins
}

/// Writes the cases that find the commands on the line.
fn push_subcmd_cases(out: &mut String, list: &Vec<&Subcommand>)
    ensures
        final(out)@ == old(out)@ + subcmd_cases(list@),
{
    let ghost before = out@;
    let mut i: usize = 0;
    assert(list@.take(0) =~= Seq::<&Subcommand>::empty());
    assert(out@ =~= before + subcmd_cases(list@.take(0)));
    while i < list.len()
        invariant
            i <= list@.len(),
            out@ == before + subcmd_cases(list@.take(i as int)),
        decreases list@.len() - i,
    {
        let sub = list[i];
        assert(list@.take(i + 1).drop_last() =~= list@.take(i as int));
        assert(list@.take(i + 1).last() == sub);
        out.append("\t\t\t");
        out.append(sub.bin());
        out.append(")\n\t\t\t\tcmd=\"");
        out.append(sub.bin());
        out.append("\"\n\t\t\t\t;;\n");
        assert(out@ =~= before + subcmd_cases(list@.take(i + 1)));
        i += 1;
    }
    assert(list@.take(list@.len() as int) =~= list@);
}

/// Writes the cases that call the functions of the commands.
fn push_chooser_cases(out: &mut String, list: &Vec<&Subcommand>)
    ensures
        final(out)@ == old(out)@ + chooser_cases(list@),
{
    let ghost before = out@;
    let mut i: usize = 0;
    assert(list@.take(0) =~= Seq::<&Subcommand>::empty());
    assert(out@ =~= before + chooser_cases(list@.take(0)));
    while i < list.len()
        invariant
            i <= list@.len(),
            out@ == before + chooser_cases(list@.take(i as int)),
        decreases list@.len() - i,
    {
        let sub = list[i];
        assert(list@.take(i + 1).drop_last() =~= list@.take(i as int));
        assert(list@.take(i + 1).last() == sub);
        out.append("\t\t");
        out.append(sub.bin());
        out.append(")\n\t\t\t");
        out.append(sub.fname().as_str());
        out.append("\n\t\t\t;;\n");
        assert(out@ =~= before + chooser_cases(list@.take(i + 1)));
        i += 1;
    }
    assert(list@.take(list@.len() as int) =~= list@);
}

/// Writes the chooser.
fn push_chooser(out: &mut String, fname: &str, bin: &str, list: &Vec<&Subcommand>)
    ensures
        final(out)@ == old(out)@ + chooser_text(
            fname@,
            bin@,
            subcmd_cases(list@),
            chooser_cases(list@),
        ),
{
    let ghost before = out@;
    out.append("subcmd_");
    out.append(fname);
    out.append(
        "() {\n\tlocal i cmd\n\tCOMPREPLY=()\n\tcmd=\"\"\n\n\tfor i in ${COMP_WORDS[@]}; do\n\t\tcase \"${i}\" in\n",
    );
    push_subcmd_cases(out, list);
    out.append("\n\t\t\t*)\n\t\t\t\t;;\n\t\tesac\n\tdone\n\techo \"$cmd\"\n}\n\nchooser_");
    out.append(fname);
    out.append("() {\n\tlocal i cmd\n\tCOMPREPLY=()\n\tcmd=\"$( subcmd_");
    out.append(fname);
    out.append(" )\"\n\n\tcase \"${cmd}\" in\n");
    push_chooser_cases(out, list);
    out.append("\n\t\t*)\n\t\t\t;;\n\tesac\n}\n\ncomplete -F chooser_");
    out.append(fname);
    out.append(" -o bashdefault -o default ");
    out.append(bin);
    out.append("\n");
    assert(out@ =~= before + chooser_text(
        fname@,
        bin@,
        subcmd_cases(list@),
        chooser_cases(list@),
    ));
}

/// One of the first `k` commands is the command `s`.
pub open spec fn among(subs: Seq<Subcommand>, k: int, s: Subcommand) -> bool {
    exists|m: int| 0 <= m < k && m < subs.len() && #[trigger] subs[m] == s
}

impl<'a> BashWriter<'a> {
    /// Puts the commands in the order of the names of their functions. Two
    /// commands with a function of the same name are an error.
    pub fn try_from(subs: &'a Vec<Subcommand>) -> (r: Result<BashWriter<'a>, BashManError>)
        ensures
            match r {
                Ok(w) => distinct_fnames(subs@) && ordered(w.subcommands@, subs@),
                Err(e) => !distinct_fnames(subs@) && e == BashManError::Bash,
            },
    {
        let mut list: Vec<&'a Subcommand> = Vec::new();
        let mut names: Vec<Vec<char>> = Vec::new();
        let mut k: usize = 0;
        while k < subs.len()
            invariant
                k <= subs@.len(),
                list@.len() == k,
                names@.len() == k,
                forall|i: int| 0 <= i < k ==> (#[trigger] names@[i])@ == fname_text(*list@[i]),
                strictly_sorted(chars_of(names@)),
                forall|i: int| 0 <= i < k ==> among(subs@, k as int, *#[trigger] list@[i]),
                forall|j: int|
                    0 <= j < k ==> chars_of(names@).contains(fname_text(#[trigger] subs@[j])),
                forall|i: int, j: int|
                    0 <= i < j < k ==> fname_text(#[trigger] subs@[i]) != fname_text(
                        #[trigger] subs@[j],
                    ),
            decreases subs@.len() - k,
        {
            let sub = &subs[k];
            let name = to_chars(sub.fname().as_str());
            let ghost keys = chars_of(names@);
            let ghost it = name@;
            let ghost old_list = list@;
            let ghost old_names = names@;
            let (at, found) = crate::list::text_slot(&names, &name);
            if found {
                proof {
                    assert(among(subs@, k as int, *old_list[at as int]));
                    let m = choose|m: int|
                        0 <= m < k && m < subs@.len() && #[trigger] subs@[m] == *old_list[at as int];
                    assert(old_names[at as int]@ == fname_text(*old_list[at as int]));
                    assert(fname_text(subs@[m]) == fname_text(subs@[k as int]));
                }
                return Err(BashManError::Bash);
            }
            proof {
                lemma_insert_text(keys, at as int, it);
            }
            names.insert(at, name);
            list.insert(at, sub);
            proof {
                assert(chars_of(names@) =~= keys.insert(at as int, it));
                assert forall|i: int| 0 <= i < k + 1 implies (#[trigger] names@[i])@ == fname_text(
                    *list@[i],
                ) by {
                    if i < at {
                        assert(names@[i] == old_names[i] && list@[i] == old_list[i]);
                    } else if i > at {
                        assert(names@[i] == old_names[i - 1] && list@[i] == old_list[i - 1]);
                    }
                }
                assert forall|i: int| 0 <= i < k + 1 implies among(
                    subs@,
                    k + 1,
                    *#[trigger] list@[i],
                ) by {
                    if i == at {
                        assert(subs@[k as int] == *list@[i]);
                    } else {
                        let i0 = if i < at {
                            i
                        } else {
                            i - 1
                        };
                        assert(list@[i] == old_list[i0]);
                        assert(among(subs@, k as int, *old_list[i0]));
                        let m = choose|m: int|
                            0 <= m < k && m < subs@.len() && #[trigger] subs@[m] == *old_list[i0];
                        assert(subs@[m] == *list@[i]);
                    }
                }
                assert forall|j: int| 0 <= j < k + 1 implies chars_of(names@).contains(
                    fname_text(#[trigger] subs@[j]),
                ) by {
                    if j < k {
                        assert(keys.contains(fname_text(subs@[j])));
                    }
                }
                assert forall|i: int, j: int| 0 <= i < j < k + 1 implies fname_text(
                    #[trigger] subs@[i],
                ) != fname_text(#[trigger] subs@[j]) by {
                    if j == k {
                        if fname_text(subs@[i]) == it {
                            assert(keys.contains(it));
                        }
                    }
                }
            }
            k += 1;
        }
        proof {
            assert(Seq::new(list@.len(), |i: int| fname_text(*list@[i])) =~= chars_of(names@));
            assert forall|i: int| 0 <= i < list@.len() implies subs@.contains(
                *#[trigger] list@[i],
            ) by {
                assert(among(subs@, k as int, *list@[i]));
                let m = choose|m: int|
                    0 <= m < k && m < subs@.len() && #[trigger] subs@[m] == *list@[i];
                assert(subs@[m] == *list@[i]);
            }
        }
        Ok(BashWriter { subcommands: list })
    }

    /// The main command; an error where there is none.
    pub fn main_cmd(&self) -> (r: Result<&Subcommand, BashManError>)
        ensures
            match r {
                Ok(s) => has_main(self.subcommands@) && *s == main_of(self.subcommands@),
                Err(e) => !has_main(self.subcommands@) && e == BashManError::Bash,
            },
    {
        let mut i: usize = 0;
        while i < self.subcommands.len()
            invariant
                i <= self.subcommands@.len(),
                forall|j: int| 0 <= j < i ==> (#[trigger] self.subcommands@[j]).parent is Some,
            decreases self.subcommands@.len() - i,
        {
            if self.subcommands[i].is_main() {
                proof {
                    let list = self.subcommands@;
                    assert(is_main_at(list, i as int));
                    let c = choose|c: int| is_main_at(list, c);
                    if c < i {
                        assert(list[c].parent is Some);
                    }
                    if i < c {
                        assert(list[i as int].parent is Some);
                    }
                }
                return Ok(self.subcommands[i]);
            }
            i += 1;
        }
        Err(BashManError::Bash)
    }

    /// The whole script: see `script_text`.
    pub fn text(&self) -> (out: String)
        ensures
            out@ == script_text(self.subcommands@),
    {
        let mut out = String::new();
        let main = match self.main_cmd() {
            Ok(m) => m,
            Err(_) => {
                return out;
            },
        };
        if self.subcommands.len() == 1 {
            let none: Vec<String> = Vec::new();
            assert(strings_of(none@) =~= Seq::<Seq<char>>::empty());
            main.write_completions(&mut out, &none);
            out.append("complete -F ");
            out.append(main.fname().as_str());
            out.append(" -o bashdefault -o default ");
            out.append(main.bin());
            out.append("\n");
            assert(out@ =~= script_text(self.subcommands@));
            return out;
        }
        let bins = push_others(&mut out, &self.subcommands);
        main.write_completions(&mut out, &bins);
        push_chooser(&mut out, main.fname().as_str(), main.bin(), &self.subcommands);
        assert(out@ =~= script_text(self.subcommands@));
        out
    }

    /// The name of the file of the script and the script as it is written,
    /// without empty lines. An error where there is no main command.
    pub fn write(&self) -> (r: Result<(String, String), BashManError>)
        ensures
            match r {
                Ok((name, text)) => has_main(self.subcommands@) && name@ == main_of(
                    self.subcommands@,
                ).name.text() + ".bash"@ && text@ == squeezed(
                    script_text(self.subcommands@),
                    true,
                ),
                Err(e) => !has_main(self.subcommands@) && e == BashManError::Bash,
            },
    {
        let main = match self.main_cmd() {
            Ok(m) => m,
            Err(e) => {
                return Err(e);
            },
        };
        let mut name = main.bin().to_owned();
        name.append(".bash");
        let text = self.text();
        Ok((name, squeeze_lines(text.as_str())))
    }
}

} // verus!
