//! Manual pages: one for each command, in the language of `man`.

use vstd::prelude::*;
use vstd::string::StringExecFns;
use crate::err::BashManError;
use crate::manifest::{
    key_text, man_file, opt_str, output_file, Flag, OptionFlag, Section, Subcommand,
};
use crate::meta::{to_upper, upper_case};
use crate::text::{
    from_chars, slice_chars, strip_end, strip_end_at, to_chars, Strip,
};

verus! {

/// The text with a backslash before each hyphen.
pub open spec fn escaped(s: Seq<char>) -> Seq<char>
    decreases s.len(),
{
    if s.len() == 0 {
        Seq::<char>::empty()
    } else if s.last() == '-' {
        escaped(s.drop_last()) + seq!['\\', '-']
    } else {
        escaped(s.drop_last()).push(s.last())
    }
}

/// Writes a text with a backslash before each hyphen.
pub fn push_escaped(out: &mut String, s: &str)
    ensures
        final(out)@ == old(out)@ + escaped(s@),
{
    let ghost before = out@;
    let chars = to_chars(s);
    let mut i: usize = 0;
    assert(chars@.take(0) =~= Seq::<char>::empty());
    assert(out@ =~= before + escaped(chars@.take(0)));
    while i < chars.len()
        invariant
            i <= chars@.len(),
            chars@ == s@,
            out@ == before + escaped(chars@.take(i as int)),
        decreases chars@.len() - i,
    {
        let c = chars[i];
        assert(chars@.take(i + 1).drop_last() =~= chars@.take(i as int));
        assert(chars@.take(i + 1).last() == c);
        if c == '-' {
            out.push('\\');
        }
        out.push(c);
        assert(out@ =~= before + escaped(chars@.take(i + 1)));
        i += 1;
    }
    assert(chars@.take(chars@.len() as int) =~= chars@);
}

/// A key in bold.
pub open spec fn bold(k: Seq<char>) -> Seq<char> {
    "\\fB"@ + escaped(k) + "\\fR"@
}

/// One entry of a section: its keys in bold and the label of its value on
/// one line, as far as it has them, and its description on the next. An
/// entry with nothing but a description stands as a paragraph, indented or
/// not.
pub open spec fn entry_text(
    short: Option<Seq<char>>,
    long: Option<Seq<char>>,
    label: Option<Seq<char>>,
    description: Seq<char>,
    indent: bool,
) -> Seq<char> {
    (match (short, long, label) {
        (Some(s), Some(l), Some(v)) => ".TP\n"@ + bold(s) + ", "@ + bold(l) + " "@ + escaped(v)
            + "\n"@,
        (Some(k), None, Some(v)) => ".TP\n"@ + bold(k) + " "@ + escaped(v) + "\n"@,
        (None, Some(k), Some(v)) => ".TP\n"@ + bold(k) + " "@ + escaped(v) + "\n"@,
        (Some(s), Some(l), None) => ".TP\n"@ + bold(s) + ", "@ + bold(l) + "\n"@,
        (Some(k), None, None) => ".TP\n"@ + bold(k) + "\n"@,
        (None, Some(k), None) => ".TP\n"@ + bold(k) + "\n"@,
        (None, None, Some(k)) => ".TP\n"@ + bold(k) + "\n"@,
        (None, None, None) => if indent {
            ".TP\n"@
        } else {
            Seq::<char>::empty()
        },
    }) + escaped(description) + "\n"@
}

/// Writes a key in bold.
fn push_bold(out: &mut String, k: &str)
    ensures
        final(out)@ == old(out)@ + bold(k@),
{
    let ghost before = out@;
    out.append("\\fB");
    push_escaped(out, k);
    out.append("\\fR");
    assert(out@ =~= before + bold(k@));
}

/// Writes one entry of a section.
pub fn push_entry(
    out: &mut String,
    short: Option<&str>,
    long: Option<&str>,
    label: Option<&str>,
    description: &str,
    indent: bool,
)
    ensures
        final(out)@ == old(out)@ + entry_text(
            opt_str(short),
            opt_str(long),
            opt_str(label),
            description@,
            indent,
        ),
{
    let ghost before = out@;
    match (short, long, label) {
        (Some(s), Some(l), Some(v)) => {
            out.append(".TP\n");
            push_bold(out, s);
            out.append(", ");
            push_bold(out, l);
            out.append(" ");
            push_escaped(out, v);
            out.append("\n");
        },
        (Some(k), None, Some(v)) => {
            out.append(".TP\n");
            push_bold(out, k);
            out.append(" ");
            push_escaped(out, v);
            out.append("\n");
        },
        (None, Some(k), Some(v)) => {
            out.append(".TP\n");
            push_bold(out, k);
            out.append(" ");
            push_escaped(out, v);
            out.append("\n");
        },
        (Some(s), Some(l), None) => {
            out.append(".TP\n");
            push_bold(out, s);
            out.append(", ");
            push_bold(out, l);
            out.append("\n");
        },
        (Some(k), None, None) => {
            out.append(".TP\n");
            push_bold(out, k);
            out.append("\n");
        },
        (None, Some(k), None) => {
            out.append(".TP\n");
            push_bold(out, k);
            out.append("\n");
        },
        (None, None, Some(k)) => {
            out.append(".TP\n");
            push_bold(out, k);
            out.append("\n");
        },
        (None, None, None) => {
            if indent {
                out.append(".TP\n");
            }
        },
    }
    push_escaped(out, description);
    out.append("\n");
    assert(out@ =~= before + entry_text(
        opt_str(short),
        opt_str(long),
        opt_str(label),
        description@,
        indent,
    ));
}

/// The head of a section: its label, as a subsection where it is indented.
pub open spec fn section_head(label: Seq<char>, indent: bool) -> Seq<char> {
    (if indent {
        ".SS "@
    } else {
        ".SH "@
    }) + escaped(label) + "\n"@
}

/// Writes the head of a section.
fn push_head(out: &mut String, label: &str, indent: bool)
    ensures
        final(out)@ == old(out)@ + section_head(label@, indent),
{
    let ghost before = out@;
    if indent {
        out.append(".SS ");
    } else {
        out.append(".SH ");
    }
    push_escaped(out, label);
    out.append("\n");
    assert(out@ =~= before + section_head(label@, indent));
}

/// The entries of the flags.
pub open spec fn flag_entries(flags: Seq<Flag>) -> Seq<char>
    decreases flags.len(),
{
    if flags.len() == 0 {
        Seq::<char>::empty()
    } else {
        let f = flags.last();
        flag_entries(flags.drop_last()) + entry_text(
            key_text(f.short),
            key_text(f.long),
            None,
            f.description@,
            true,
        )
    }
}

/// The entries of the options.
pub open spec fn option_entries(options: Seq<OptionFlag>) -> Seq<char>
    decreases options.len(),
{
    if options.len() == 0 {
        Seq::<char>::empty()
    } else {
        let o = options.last();
        option_entries(options.drop_last()) + entry_text(
            key_text(o.flag.short),
            key_text(o.flag.long),
            Some(o.label@),
            o.flag.description@,
            true,
        )
    }
}

/// The entries of the subcommands: of each command that has a parent.
pub open spec fn sub_entries(subs: Seq<Subcommand>) -> Seq<char>
    decreases subs.len(),
{
    if subs.len() == 0 {
        Seq::<char>::empty()
    } else if subs.last().parent is None {
        sub_entries(subs.drop_last())
    } else {
        sub_entries(subs.drop_last()) + entry_text(
            None,
            Some(subs.last().name.text()),
            None,
            subs.last().description@,
            true,
        )
    }
}

/// The entries of the items of a section.
pub open spec fn item_entries(items: Seq<[String; 2]>, indent: bool) -> Seq<char>
    decreases items.len(),
{
    if items.len() == 0 {
        Seq::<char>::empty()
    } else {
        item_entries(items.drop_last(), indent) + entry_text(
            None,
            Some(items.last()@[0]@),
            None,
            items.last()@[1]@,
            indent,
        )
    }
}

/// A section of the manifest: its head, its lines as one paragraph where it
/// has any, and its items. The label of a section that is not indented loses
/// the colons and the white space at its end.
pub open spec fn custom_text(s: Section) -> Seq<char> {
    section_head(
        if s.inside {
            s.name@
        } else {
            strip_end(s.name@, Strip::Colons)
        },
        s.inside,
    ) + (if s.lines@.len() > 0 {
        entry_text(None, None, None, s.lines@, s.inside)
    } else {
        Seq::<char>::empty()
    }) + item_entries(s.items@, s.inside)
}

/// The sections of the manifest, one after the other.
pub open spec fn customs_text(sections: Seq<Section>) -> Seq<char>
    decreases sections.len(),
{
    if sections.len() == 0 {
        Seq::<char>::empty()
    } else {
        customs_text(sections.drop_last()) + custom_text(sections.last())
    }
}

/// Writes the entries of the flags.
fn push_flag_entries(out: &mut String, flags: &Vec<Flag>)
    ensures
        final(out)@ == old(out)@ + flag_entries(flags@),
{
    let ghost before = out@;
    let mut i: usize = 0;
    assert(flags@.take(0) =~= Seq::<Flag>::empty());
    assert(out@ =~= before + flag_entries(flags@.take(0)));
    while i < flags.len()
        invariant
            i <= flags@.len(),
            out@ == before + flag_entries(flags@.take(i as int)),
        decreases flags@.len() - i,
    {
        let f = &flags[i];
        assert(flags@.take(i + 1).drop_last() =~= flags@.take(i as int));
        assert(flags@.take(i + 1).last() == *f);
        push_entry(out, f.short(), f.long(), None, f.description(), true);
        assert(out@ =~= before + flag_entries(flags@.take(i + 1)));
        i += 1;
    }
    assert(flags@.take(flags@.len() as int) =~= flags@);
}

/// Writes the entries of the options.
fn push_option_entries(out: &mut String, options: &Vec<OptionFlag>)
    ensures
        final(out)@ == old(out)@ + option_entries(options@),
{
    let ghost before = out@;
    let mut i: usize = 0;
    assert(options@.take(0) =~= Seq::<OptionFlag>::empty());
    assert(out@ =~= before + option_entries(options@.take(0)));
    while i < options.len()
        invariant
            i <= options@.len(),
            out@ == before + option_entries(options@.take(i as int)),
        decreases options@.len() - i,
    {
        let o = &options[i];
        assert(options@.take(i + 1).drop_last() =~= options@.take(i as int));
        assert(options@.take(i + 1).last() == *o);
        push_entry(out, o.short(), o.long(), Some(o.label()), o.description(), true);
        assert(out@ =~= before + option_entries(options@.take(i + 1)));
        i += 1;
    }
    assert(options@.take(options@.len() as int) =~= options@);
}

/// Writes the entries of the subcommands.
fn push_sub_entries(out: &mut String, subs: &Vec<Subcommand>)
    ensures
        final(out)@ == old(out)@ + sub_entries(subs@),
{
    let ghost before = out@;
    let mut i: usize = 0;
    assert(subs@.take(0) =~= Seq::<Subcommand>::empty());
    assert(out@ =~= before + sub_entries(subs@.take(0)));
    while i < subs.len()
        invariant
            i <= subs@.len(),
            out@ == before + sub_entries(subs@.take(i as int)),
        decreases subs@.len() - i,
    {
        let s = &subs[i];
        assert(subs@.take(i + 1).drop_last() =~= subs@.take(i as int));
        assert(subs@.take(i + 1).last() == *s);
        if !s.is_main() {
            push_entry(out, None, Some(s.bin()), None, s.description(), true);
            assert(out@ =~= before + sub_entries(subs@.take(i + 1)));
        }
        i += 1;
    }
    assert(subs@.take(subs@.len() as int) =~= subs@);
}

/// Writes the entries of the items of a section.
fn push_item_entries(out: &mut String, items: &Vec<[String; 2]>, indent: bool)
    ensures
        final(out)@ == old(out)@ + item_entries(items@, indent),
{
    let ghost before = out@;
    let mut i: usize = 0;
    assert(items@.take(0) =~= Seq::<[String; 2]>::empty());
    assert(out@ =~= before + item_entries(items@.take(0), indent));
    while i < items.len()
        invariant
            i <= items@.len(),
            out@ == before + item_entries(items@.take(i as int), indent),
        decreases items@.len() - i,
    {
        let item = &items[i];
        assert(items@.take(i + 1).drop_last() =~= items@.take(i as int));
        assert(items@.take(i + 1).last() == *item);
        push_entry(out, None, Some(item[0].as_str()), None, item[1].as_str(), indent);
        assert(out@ =~= before + item_entries(items@.take(i + 1), indent));
        i += 1;
    }
    assert(items@.take(items@.len() as int) =~= items@);
}

/// Writes a section of the manifest.
fn push_custom(out: &mut String, s: &Section)
    ensures
        final(out)@ == old(out)@ + custom_text(*s),
{
    let ghost before = out@;
    if s.inside {
        push_head(out, s.name.as_str(), true);
    } else {
        let chars = to_chars(s.name.as_str());
        assert(chars@.skip(0) =~= chars@);
        let end = strip_end_at(&chars, 0, Strip::Colons);
        let label = from_chars(&slice_chars(&chars, 0, end));
        push_head(out, label.as_str(), false);
    }
    if !s.lines.as_str().is_empty() {
        push_entry(out, None, None, None, s.lines.as_str(), s.inside);
    }
    push_item_entries(out, &s.items, s.inside);
    assert(out@ =~= before + custom_text(*s));
}

/// Writes the sections of the manifest.
fn push_customs(out: &mut String, sections: &Vec<Section>)
    ensures
        final(out)@ == old(out)@ + customs_text(sections@),
{
    let ghost before = out@;
    let mut i: usize = 0;
    assert(sections@.take(0) =~= Seq::<Section>::empty());
    assert(out@ =~= before + customs_text(sections@.take(0)));
    while i < sections.len()
        invariant
            i <= sections@.len(),
            out@ == before + customs_text(sections@.take(i as int)),
        decreases sections@.len() - i,
    {
        assert(sections@.take(i + 1).drop_last() =~= sections@.take(i as int));
        assert(sections@.take(i + 1).last() == sections@[i as int]);
        push_custom(out, &sections[i]);
        assert(out@ =~= before + customs_text(sections@.take(i + 1)));
        i += 1;
    }
    assert(sections@.take(sections@.len() as int) =~= sections@);
}

/// The text in upper case, without its double quotes.
pub open spec fn title(s: Seq<char>) -> Seq<char>
    decreases s.len(),
{
    if s.len() == 0 {
        Seq::<char>::empty()
    } else {
        title(s.drop_last()) + unquoted(upper_case(s.last()))
    }
}

/// The text without its double quotes.
pub open spec fn unquoted(s: Seq<char>) -> Seq<char>
    decreases s.len(),
{
    if s.len() == 0 {
        Seq::<char>::empty()
    } else if s.last() == '"' {
        unquoted(s.drop_last())
    } else {
        unquoted(s.drop_last()).push(s.last())
    }
}

/// A name for the head of a manual page: in upper case and without double
/// quotes; nothing where nothing is left.
pub fn nice_title(raw: &str) -> (r: Option<String>)
    ensures
        match r {
            Some(t) => t@ == title(raw@) && t@.len() > 0,
            None => title(raw@).len() == 0,
        },
{
    let chars = to_chars(raw);
    let mut out: Vec<char> = Vec::new();
    let mut i: usize = 0;
    assert(chars@.take(0) =~= Seq::<char>::empty());
    while i < chars.len()
        invariant
            i <= chars@.len(),
            out@ == title(chars@.take(i as int)),
        decreases chars@.len() - i,
    {
        assert(chars@.take(i + 1).drop_last() =~= chars@.take(i as int));
        assert(chars@.take(i + 1).last() == chars@[i as int]);
        let up = to_upper(chars[i]);
        let ghost before = out@;
        let mut k: usize = 0;
        assert(up@.take(0) =~= Seq::<char>::empty());
        while k < up.len()
            invariant
                k <= up@.len(),
                out@ == before + unquoted(up@.take(k as int)),
            decreases up@.len() - k,
        {
            assert(up@.take(k + 1).drop_last() =~= up@.take(k as int));
            assert(up@.take(k + 1).last() == up@[k as int]);
            if up[k] != '"' {
                out.push(up[k]);
            }
            assert(out@ =~= before + unquoted(up@.take(k + 1)));
            k += 1;
        }
        assert(up@.take(up@.len() as int) =~= up@);
        i += 1;
    }
    assert(chars@.take(chars@.len() as int) =~= chars@);
    if out.len() == 0 {
        None
    } else {
        Some(from_chars(&out))
    }
}

/// The name of a command for the head of its page: its nice name as a title,
/// or its command in upper case where that leaves nothing.
pub open spec fn page_name(s: Subcommand) -> Seq<char> {
    let nice = title(
        match s.nice_name {
            Some(n) => n@,
            None => s.name.text(),
        },
    );
    if nice.len() > 0 {
        nice
    } else {
        upper(s.name.text())
    }
}

/// The text in upper case.
pub open spec fn upper(s: Seq<char>) -> Seq<char>
    decreases s.len(),
{
    if s.len() == 0 {
        Seq::<char>::empty()
    } else {
        upper(s.drop_last()) + upper_case(s.last())
    }
}

/// The text in upper case.
pub fn to_upper_text(raw: &str) -> (out: String)
    ensures
        out@ == upper(raw@),
{
    let chars = to_chars(raw);
    let mut out: Vec<char> = Vec::new();
    let mut i: usize = 0;
    assert(chars@.take(0) =~= Seq::<char>::empty());
    while i < chars.len()
        invariant
            i <= chars@.len(),
            out@ == upper(chars@.take(i as int)),
        decreases chars@.len() - i,
    {
        assert(chars@.take(i + 1).drop_last() =~= chars@.take(i as int));
        assert(chars@.take(i + 1).last() == chars@[i as int]);
        let up = to_upper(chars[i]);
        crate::author::push_all(&mut out, &up);
        i += 1;
    }
    assert(chars@.take(chars@.len() as int) =~= chars@);
    from_chars(&out)
}

/// The name of the parent of a command for the head of its page, where it
/// has a parent whose nice name leaves a title.
pub open spec fn parent_name(s: Subcommand) -> Option<Seq<char>> {
    match s.parent {
        Some(p) => if title(p.0@).len() > 0 {
            Some(title(p.0@))
        } else {
            None
        },
        None => None,
    }
}

/// The name of a command with that of its parent before it.
pub open spec fn full_name(s: Subcommand) -> Seq<char> {
    match parent_name(s) {
        Some(p) => p + " "@ + page_name(s),
        None => page_name(s),
    }
}

/// A command with that of its parent before it.
pub open spec fn full_cmd(s: Subcommand) -> Seq<char> {
    match s.parent {
        Some(p) => p.1.text() + " "@ + s.name.text(),
        None => s.name.text(),
    }
}

/// Whether the page of a command lists subcommands: the command is the main
/// one, and some other command is not.
pub open spec fn lists_subs(s: Subcommand, subs: Seq<Subcommand>) -> bool {
    s.parent is None && exists|i: int| 0 <= i < subs.len() && (#[trigger] subs[i]).parent is Some
}

/// The head of the page: title line, name and description.
pub open spec fn page_head(s: Subcommand, month: Seq<char>, year: Seq<char>) -> Seq<char> {
    ".TH \""@ + escaped(full_name(s)) + "\" \"1\" \""@ + month + " "@ + year + "\" \""@ + escaped(
        full_cmd(s),
    ) + " v"@ + escaped(s.version@) + "\" \"User Commands\"\n.SH NAME\n"@ + escaped(page_name(s))
        + " \\- Manual page for "@ + escaped(full_cmd(s)) + " v"@ + escaped(s.version@)
        + ".\n.SH DESCRIPTION\n"@ + escaped(s.description@) + "\n"@
}

/// The label of the trailing argument in the usage, after a space.
pub open spec fn usage_arg(s: Subcommand) -> Seq<char> {
    match s.data.args {
        Some(a) => " "@ + escaped(a.label@),
        None => Seq::<char>::empty(),
    }
}

/// The usage: the command, what it takes, and the label of its trailing
/// argument.
pub open spec fn usage_text(s: Subcommand, subs: Seq<Subcommand>) -> Seq<char> {
    ".SS USAGE:\n.TP\n"@ + escaped(full_cmd(s)) + text_if(lists_subs(s, subs), " [SUBCOMMAND]"@)
        + text_if(s.data.flags@.len() > 0, " [FLAGS]"@) + text_if(
        s.data.options@.len() > 0,
        " [OPTIONS]"@,
    ) + usage_arg(s) + "\n"@
}

/// The section of the flags, where there are any.
pub open spec fn flags_section(s: Subcommand) -> Seq<char> {
    text_if(s.data.flags@.len() > 0, section_head("FLAGS:"@, true) + flag_entries(s.data.flags@))
}

/// The section of the options, where there are any.
pub open spec fn options_section(s: Subcommand) -> Seq<char> {
    text_if(
        s.data.options@.len() > 0,
        section_head("OPTIONS:"@, true) + option_entries(s.data.options@),
    )
}

/// The section of the trailing argument, where there is one.
pub open spec fn args_section(s: Subcommand) -> Seq<char> {
    match s.data.args {
        Some(a) => section_head("TRAILING:"@, true) + entry_text(
            None,
            None,
            Some(a.label@),
            a.description@,
            true,
        ),
        None => Seq::<char>::empty(),
    }
}

/// The section of the subcommands, on the page of a main command with
/// subcommands.
pub open spec fn subs_section(s: Subcommand, subs: Seq<Subcommand>) -> Seq<char> {
    text_if(lists_subs(s, subs), section_head("SUBCOMMANDS:"@, true) + sub_entries(subs))
}

/// The sections of the page that come from the flags, the options, the
/// trailing argument and the subcommands, each where there is something to
/// show.
pub open spec fn builtin_text(s: Subcommand, subs: Seq<Subcommand>) -> Seq<char> {
    flags_section(s) + options_section(s) + args_section(s) + subs_section(s, subs)
}

/// The manual page of a command, made in the given month of the given year.
/// `subs` are all the commands of the program: the page of the main command
/// lists the others.
pub open spec fn man_text(
    s: Subcommand,
    subs: Seq<Subcommand>,
    month: Seq<char>,
    year: Seq<char>,
) -> Seq<char> {
    page_head(s, month, year) + usage_text(s, subs) + builtin_text(s, subs) + customs_text(
        s.data.sections@,
    )
}

/// The text where the condition holds, else nothing.
pub open spec fn text_if(cond: bool, text: Seq<char>) -> Seq<char> {
    if cond {
        text
    } else {
        Seq::<char>::empty()
    }
}

/// Writes the text where the condition holds.
fn push_if(out: &mut String, cond: bool, text: &str)
    ensures
        final(out)@ == old(out)@ + text_if(cond, text@),
{
    let ghost before = out@;
    if cond {
        out.append(text);
    }
    assert(out@ =~= before + text_if(cond, text@));
}

/// Whether some command has a parent.
fn any_sub(subs: &Vec<Subcommand>) -> (r: bool)
    ensures
        r == exists|i: int| 0 <= i < subs@.len() && (#[trigger] subs@[i]).parent is Some,
{
    let mut i: usize = 0;
    while i < subs.len()
        invariant
            i <= subs@.len(),
            forall|j: int| 0 <= j < i ==> (#[trigger] subs@[j]).parent is None,
        decreases subs@.len() - i,
    {
        if !subs[i].is_main() {
            return true;
        }
        i += 1;
    }
    false
}

impl Subcommand {
    /// The name of the command for the head of its page.
    pub fn page_name(&self) -> (out: String)
        ensures
            out@ == page_name(*self),
    {
        match nice_title(self.nice_name()) {
            Some(t) => t,
            None => to_upper_text(self.bin()),
        }
    }

    /// Writes the head of the page.
    fn push_page_head(&self, out: &mut String, month: &str, year: &str)
        ensures
            final(out)@ == old(out)@ + page_head(*self, month@, year@),
    {
        let ghost before = out@;
        let name = self.page_name();
        let parent = match self.parent_nice_name() {
            Some(p) => nice_title(p),
            None => None,
        };
        let mut whole = String::new();
        match &parent {
            Some(p) => {
                whole.append(p.as_str());
                whole.append(" ");
            },
            None => {},
        }
        whole.append(name.as_str());
        assert(whole@ =~= full_name(*self));
        let mut line = String::new();
        match self.parent_bin() {
            Some(p) => {
                line.append(p);
                line.append(" ");
            },
            None => {},
        }
        line.append(self.bin());
        assert(line@ =~= full_cmd(*self));
        out.append(".TH \"");
        push_escaped(out, whole.as_str());
        out.append("\" \"1\" \"");
        out.append(month);
        out.append(" ");
        out.append(year);
        out.append("\" \"");
        push_escaped(out, line.as_str());
        out.append(" v");
        push_escaped(out, self.version());
        out.append("\" \"User Commands\"\n.SH NAME\n");
        push_escaped(out, name.as_str());
        out.append(" \\- Manual page for ");
        push_escaped(out, line.as_str());
        out.append(" v");
        push_escaped(out, self.version());
        out.append(".\n.SH DESCRIPTION\n");
        push_escaped(out, self.description());
        out.append("\n");
        assert(out@ =~= before + page_head(*self, month@, year@));
    }

    /// Writes the label of the trailing argument in the usage.
    fn push_usage_arg(&self, out: &mut String)
        ensures
            final(out)@ == old(out)@ + usage_arg(*self),
    {
        let ghost before = out@;
        match &self.data.args {
            Some(a) => {
                out.append(" ");
                push_escaped(out, a.label());
                assert(out@ =~= before + usage_arg(*self));
            },
            None => {
                assert(out@ =~= before + usage_arg(*self));
            },
        }
    }

    /// Writes the usage.
    fn push_usage(&self, out: &mut String, subs: &Vec<Subcommand>)
        ensures
            final(out)@ == old(out)@ + usage_text(*self, subs@),
    {
        let ghost before = out@;
        let mut line = String::new();
        match self.parent_bin() {
            Some(p) => {
                line.append(p);
                line.append(" ");
            },
            None => {},
        }
        line.append(self.bin());
        assert(line@ =~= full_cmd(*self));
        out.append(".SS USAGE:\n.TP\n");
        push_escaped(out, line.as_str());
        let listed = self.is_main() && any_sub(subs);
        push_if(out, listed, " [SUBCOMMAND]");
        push_if(out, self.data.flags.len() > 0, " [FLAGS]");
        push_if(out, self.data.options.len() > 0, " [OPTIONS]");
        self.push_usage_arg(out);
        out.append("\n");
        assert(out@ =~= before + usage_text(*self, subs@));
    }

    /// Writes the section of the flags.
    fn push_flags_section(&self, out: &mut String)
        ensures
            final(out)@ == old(out)@ + flags_section(*self),
    {
        let ghost before = out@;
        if self.data.flags.len() > 0 {
            push_head(out, "FLAGS:", true);
            push_flag_entries(out, &self.data.flags);
        }
        assert(out@ =~= before + flags_section(*self));
    }

    /// Writes the section of the options.
    fn push_options_section(&self, out: &mut String)
        ensures
            final(out)@ == old(out)@ + options_section(*self),
    {
        let ghost before = out@;
        if self.data.options.len() > 0 {
            push_head(out, "OPTIONS:", true);
            push_option_entries(out, &self.data.options);
        }
        assert(out@ =~= before + options_section(*self));
    }

    /// Writes the section of the trailing argument.
    fn push_args_section(&self, out: &mut String)
        ensures
            final(out)@ == old(out)@ + args_section(*self),
    {
        let ghost before = out@;
        match &self.data.args {
            Some(a) => {
                push_head(out, "TRAILING:", true);
                push_entry(out, None, None, Some(a.label()), a.description(), true);
                assert(out@ =~= before + args_section(*self));
            },
            None => {
                assert(out@ =~= before + args_section(*self));
            },
        }
    }

    /// Writes the section of the subcommands.
    fn push_subs_section(&self, out: &mut String, subs: &Vec<Subcommand>)
        ensures
            final(out)@ == old(out)@ + subs_section(*self, subs@),
    {
        let ghost before = out@;
        if self.is_main() && any_sub(subs) {
            push_head(out, "SUBCOMMANDS:", true);
            push_sub_entries(out, subs);
        }
        assert(out@ =~= before + subs_section(*self, subs@));
    }

    /// Writes the sections that come from the flags, the options, the
    /// trailing argument and the subcommands.
    fn push_builtin(&self, out: &mut String, subs: &Vec<Subcommand>)
        ensures
            final(out)@ == old(out)@ + builtin_text(*self, subs@),
    {
        let ghost before = out@;
        self.push_flags_section(out);
        self.push_options_section(out);
        self.push_args_section(out);
        self.push_subs_section(out, subs);
        assert(out@ =~= before + builtin_text(*self, subs@));
    }

    /// The manual page of the command: see `man_text`.
    pub fn man(&self, subs: &Vec<Subcommand>, month: &str, year: &str) -> (out: String)
        ensures
            out@ == man_text(*self, subs@, month@, year@),
    {
        let mut out = String::new();
        self.push_page_head(&mut out, month, year);
        self.push_usage(&mut out, subs);
        self.push_builtin(&mut out, subs);
        push_customs(&mut out, &self.data.sections);
        out
    }
}

/// The names of the files of the pages of the commands, each with its page.
pub open spec fn pages_of(
    subs: Seq<Subcommand>,
    upto: int,
    month: Seq<char>,
    year: Seq<char>,
) -> Seq<(Seq<char>, Seq<char>)> {
    Seq::new(
        upto as nat,
        |i: int|
            (
                man_file(crate::bash::parent_text(subs[i]), subs[i].name.text()),
                man_text(subs[i], subs, month, year),
            ),
    )
}

/// The texts of a list of pairs of strings.
pub open spec fn pair_texts(list: Seq<(String, String)>) -> Seq<(Seq<char>, Seq<char>)> {
    Seq::new(list.len(), |i: int| (list[i].0@, list[i].1@))
}

/// The manual pages of a program: for each command the name of the file and
/// the page. A program without commands is an error.
pub fn pages(subs: &Vec<Subcommand>, month: &str, year: &str) -> (r: Result<
    Vec<(String, String)>,
    BashManError,
>)
    ensures
        match r {
            Ok(list) => subs@.len() > 0 && pair_texts(list@) == pages_of(
                subs@,
                subs@.len() as int,
                month@,
                year@,
            ),
            Err(e) => subs@.len() == 0 && e == BashManError::Man,
        },
{
    if subs.len() == 0 {
        return Err(BashManError::Man);
    }
    let mut out: Vec<(String, String)> = Vec::new();
    let mut i: usize = 0;
    assert(pair_texts(out@) =~= pages_of(subs@, 0, month@, year@));
    while i < subs.len()
        invariant
            i <= subs@.len(),
            pair_texts(out@) == pages_of(subs@, i as int, month@, year@),
        decreases subs@.len() - i,
    {
        let s = &subs[i];
        let ghost before = pair_texts(out@);
        let parent = s.parent_bin();
        assert(opt_str(parent) == crate::bash::parent_text(*s));
        let name = output_file(parent, s.bin());
        let page = s.man(subs, month, year);
        out.push((name, page));
        assert(pair_texts(out@) =~= before.push((name@, page@)));
        assert(pair_texts(out@) =~= pages_of(subs@, i + 1, month@, year@));
        i += 1;
    }
    Ok(out)
}

} // verus!
