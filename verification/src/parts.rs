//! From what the manifest says to the commands of a program, each with its
//! switches, its options and its trailing argument.

use vstd::prelude::*;
use crate::err::BashManError;
use crate::manifest::{
    add_subcommand_arg, add_subcommand_flag, add_subcommand_option, copy_key, flag_keys, is_sub_at, no_sub,
    option_keys, replaced_at, same_command, slot_of, sub_key, subs_wf, with_flag, with_option,
    Flag, OptionFlag, Subcommand, TrailingArg,
};
use vstd::std_specs::convert::FromSpec;
use crate::credits::RawCredits;
use crate::keyword::KeyWord;
use crate::list::{lemma_insert_text, reversed, strictly_sorted, text_slot};
use crate::manifest::{keys_sorted, ManifestData, RawSubCmd, Section};
use crate::page::version_text;
use crate::pkg::{Dependency, PackageName};
use crate::version::Version;
use crate::meta::{
    all_claims, bashman_fault, claim_fault, deserialize_bashman,
    deserialize_nonempty_str_normalized, empty_value, first_claim_fault, first_sub_fault, key_view,
    keyed_options, keyed_switches, known_names, lemma_sub_fault_stays, line_claims, line_names,
    name_claims, option_claims, option_ready, ready, sub_fault, switch_claims, switch_ready,
    line_break, tells, ClaimView, Fault, KeyView, RawArg, RawBashMan, RawOption, RawSection,
    RawSwitch,
};
use crate::order::{lemma_text_irreflexive, text_less};
use crate::text::{chars_of, joined, normalized, strings_of, to_chars};

verus! {

/// No two commands have one key.
pub open spec fn distinct_subs(subs: Seq<Subcommand>) -> bool {
    forall|i: int, j: int|
        0 <= i < j < subs.len() ==> sub_key(#[trigger] subs[i]) != sub_key(#[trigger] subs[j])
}

/// The switch of a line.
pub open spec fn flag_of(line: RawSwitch) -> Flag {
    Flag {
        short: line.short,
        long: line.long,
        description: line.description,
        duplicate: line.duplicate,
    }
}

/// The switches of a command once a line for the commands `names` has offered
/// it `flag`: with the flag put in its place where the line names the command
/// and the command has none of that sort key yet.
pub open spec fn flags_with(base: Seq<Flag>, flag: Flag, names: Seq<Seq<char>>, key: Seq<char>) -> Seq<
    Flag,
> {
    if names.contains(key) {
        with_flag(base, flag)
    } else {
        base
    }
}

/// The switches that the lines give to the command with the key `key`, line
/// after line.
pub open spec fn flags_for(start: Seq<Flag>, lines: Seq<RawSwitch>, key: Seq<char>) -> Seq<Flag>
    decreases lines.len(),
{
    if lines.len() == 0 {
        start
    } else {
        flags_with(
            flags_for(start, lines.drop_last(), key),
            flag_of(lines.last()),
            strings_of(lines.last().subcommands@),
            key,
        )
    }
}

/// The commands `after` are the commands `before`, each with the switches
/// that the lines give it and the line at hand has given it so far.
pub open spec fn flags_given(
    before: Seq<Subcommand>,
    after: Seq<Subcommand>,
    lines: Seq<RawSwitch>,
    flag: Flag,
    names: Seq<Seq<char>>,
) -> bool {
    &&& after.len() == before.len()
    &&& forall|j: int|
        0 <= j < before.len() ==> {
            &&& same_command(before[j], #[trigger] after[j])
            &&& after[j].data.options == before[j].data.options
            &&& after[j].data.args == before[j].data.args
            &&& after[j].data.flags@ == flags_with(
                flags_for(before[j].data.flags@, lines, sub_key(before[j])),
                flag,
                names,
                sub_key(before[j]),
            )
        }
}

/// The commands `after` are the commands `before`, each with the switches
/// that the lines give it.
pub open spec fn with_flags(
    before: Seq<Subcommand>,
    after: Seq<Subcommand>,
    lines: Seq<RawSwitch>,
) -> bool {
    &&& after.len() == before.len()
    &&& forall|j: int|
        0 <= j < before.len() ==> {
            &&& same_command(before[j], #[trigger] after[j])
            &&& after[j].data.options == before[j].data.options
            &&& after[j].data.args == before[j].data.args
            &&& after[j].data.flags@ == flags_for(
                before[j].data.flags@,
                lines,
                sub_key(before[j]),
            )
        }
}

/// The place where a key belongs is a place of the list, or its end.
pub proof fn lemma_slot_range(keys: Seq<Seq<char>>, k: Seq<char>)
    ensures
        0 <= slot_of(keys, k) <= keys.len(),
    decreases keys.len(),
{
    if keys.len() > 0 {
        lemma_slot_range(keys.drop_last(), k);
    }
}

/// A flag that was put in is not put in again.
pub proof fn lemma_with_flag_once(list: Seq<Flag>, f: Flag)
    ensures
        with_flag(with_flag(list, f), f) == with_flag(list, f),
{
    let keys = flag_keys(list);
    if !keys.contains(f.sort_text()) {
        let at = slot_of(keys, f.sort_text());
        lemma_slot_range(keys, f.sort_text());
        let now = list.insert(at, f);
        assert(flag_keys(now)[at] == f.sort_text());
        assert(flag_keys(now).contains(f.sort_text()));
    }
}

/// One more name of a line, and the command of that name has its flag.
proof fn lemma_flag_step(
    before: Seq<Subcommand>,
    cur: Seq<Subcommand>,
    next: Seq<Subcommand>,
    lines: Seq<RawSwitch>,
    flag: Flag,
    names: Seq<Seq<char>>,
    name: Seq<char>,
    at: int,
    s: Subcommand,
)
    requires
        distinct_subs(before),
        subs_wf(cur),
        flags_given(before, cur, lines, flag, names),
        is_sub_at(cur, name, at),
        replaced_at(cur, next, at, s),
        s.data.options == cur[at].data.options,
        s.data.args == cur[at].data.args,
        s.data.flags@ == with_flag(cur[at].data.flags@, flag),
    ensures
        flags_given(before, next, lines, flag, names.push(name)),
{
    let more = names.push(name);
    assert forall|j: int| 0 <= j < before.len() implies {
        &&& same_command(before[j], #[trigger] next[j])
        &&& next[j].data.options == before[j].data.options
        &&& next[j].data.args == before[j].data.args
        &&& next[j].data.flags@ == flags_with(
            flags_for(before[j].data.flags@, lines, sub_key(before[j])),
            flag,
            more,
            sub_key(before[j]),
        )
    } by {
        let key = sub_key(before[j]);
        let base = flags_for(before[j].data.flags@, lines, key);
        assert(same_command(before[j], cur[j]));
        assert(sub_key(cur[j]) == key);
        assert(same_command(before[at], cur[at]));
        assert(sub_key(before[at]) == name);
        if j == at {
            assert(more[names.len() as int] == name);
            assert(more.contains(key));
            if names.contains(key) {
                lemma_with_flag_once(base, flag);
            }
        } else {
            assert(next[j] == cur[j]);
            assert(key != name);
            if more.contains(key) {
                let k = choose|k: int| 0 <= k < more.len() && more[k] == key;
                assert(names[k] == key);
            }
            if names.contains(key) {
                let k = choose|k: int| 0 <= k < names.len() && names[k] == key;
                assert(more[k] == key);
            }
        }
    }
}

/// Gives each command the switches that the lines have for it. A line for a
/// command that is not there is an error.
pub(crate) fn hand_flags(start: Vec<Subcommand>, lines: &Vec<RawSwitch>) -> (r: Result<
    Vec<Subcommand>,
    BashManError,
>)
    requires
        subs_wf(start@),
        distinct_subs(start@),
    ensures
        match r {
            Ok(out) => subs_wf(out@) && with_flags(start@, out@, lines@),
            Err(e) => exists|i: int, k: int|
                0 <= i < lines@.len() && 0 <= k < lines@[i].subcommands@.len() && no_sub(
                    start@,
                    (#[trigger] lines@[i].subcommands@[k])@,
                ),
        },
{
    let ghost before = start@;
    let mut subs = start;
    let mut i: usize = 0;
    proof {
        assert(lines@.take(0).len() == 0);
    }
    while i < lines.len()
        invariant
            i <= lines@.len(),
            subs_wf(subs@),
            distinct_subs(before),
            before == start@,
            with_flags(before, subs@, lines@.take(i as int)),
        decreases lines@.len() - i,
    {
        let line = &lines[i];
        let flag = Flag {
            short: copy_key(&line.short),
            long: copy_key(&line.long),
            description: line.description.clone(),
            duplicate: line.duplicate,
        };
        let ghost done = lines@.take(i as int);
        let ghost names = strings_of(line.subcommands@);
        let mut k: usize = 0;
        proof {
            assert(names.take(0).len() == 0);
            assert(flags_given(before, subs@, done, flag, names.take(0)));
        }
        while k < line.subcommands.len()
            invariant
                k <= line.subcommands@.len(),
                i < lines@.len(),
                line == &lines@[i as int],
                names == strings_of(line.subcommands@),
                done == lines@.take(i as int),
                flag == flag_of(*line),
                subs_wf(subs@),
                distinct_subs(before),
            before == start@,
                flags_given(before, subs@, done, flag, names.take(k as int)),
            decreases line.subcommands@.len() - k,
        {
            let ghost cur = subs@;
            match add_subcommand_flag(&mut subs, line.subcommands[k].as_str(), flag.copy()) {
                Ok(()) => {
                    proof {
                        let name = line.subcommands@[k as int]@;
                        let (at, s) = choose|at: int, s: Subcommand|
                            is_sub_at(cur, name, at) && #[trigger] replaced_at(cur, subs@, at, s)
                                && s.data.options == cur[at].data.options && s.data.args
                                == cur[at].data.args && s.data.flags@ == with_flag(
                                cur[at].data.flags@,
                                flag,
                            );
                        lemma_flag_step(
                            before,
                            cur,
                            subs@,
                            done,
                            flag,
                            names.take(k as int),
                            name,
                            at,
                            s,
                        );
                        assert(names.take(k + 1) =~= names.take(k as int).push(name));
                    }
                },
                Err(e) => {
                    proof {
                        let name = line.subcommands@[k as int]@;
                        assert forall|j: int| 0 <= j < before.len() implies sub_key(
                            #[trigger] before[j],
                        ) != name by {
                            assert(same_command(before[j], cur[j]));
                        }
                        assert(no_sub(before, lines@[i as int].subcommands@[k as int]@));
                    }
                    return Err(e);
                },
            }
            k += 1;
        }
        proof {
            let more = lines@.take(i + 1);
            assert(names.take(names.len() as int) =~= names);
            assert(more.drop_last() =~= done);
            assert(more.last() == lines@[i as int]);
        }
        i += 1;
    }
    proof {
        assert(lines@.take(lines@.len() as int) =~= lines@);
    }
    Ok(subs)
}

/// The option of a line; its label, where the line gives none, is `label`.
pub open spec fn option_of(line: RawOption, label: String) -> OptionFlag {
    OptionFlag {
        flag: Flag {
            short: line.short,
            long: line.long,
            description: line.description,
            duplicate: line.duplicate,
        },
        label: match line.label {
            Some(l) => l,
            None => label,
        },
        path: line.path,
    }
}

/// The options of a command once a line for the commands `names` has offered
/// it `option`: with the option put in its place where the line names the
/// command and the command has none of that sort key yet.
pub open spec fn options_with(
    base: Seq<OptionFlag>,
    option: OptionFlag,
    names: Seq<Seq<char>>,
    key: Seq<char>,
) -> Seq<OptionFlag> {
    if names.contains(key) {
        with_option(base, option)
    } else {
        base
    }
}

/// The options that the lines give to the command with the key `key`, line
/// after line.
pub open spec fn options_for(
    start: Seq<OptionFlag>,
    lines: Seq<RawOption>,
    label: String,
    key: Seq<char>,
) -> Seq<OptionFlag>
    decreases lines.len(),
{
    if lines.len() == 0 {
        start
    } else {
        options_with(
            options_for(start, lines.drop_last(), label, key),
            option_of(lines.last(), label),
            strings_of(lines.last().subcommands@),
            key,
        )
    }
}

/// The commands `after` are the commands `before`, each with the options
/// that the lines give it and the line at hand has given it so far.
pub open spec fn options_given(
    before: Seq<Subcommand>,
    after: Seq<Subcommand>,
    lines: Seq<RawOption>,
    label: String,
    option: OptionFlag,
    names: Seq<Seq<char>>,
) -> bool {
    &&& after.len() == before.len()
    &&& forall|j: int|
        0 <= j < before.len() ==> {
            &&& same_command(before[j], #[trigger] after[j])
            &&& after[j].data.flags == before[j].data.flags
            &&& after[j].data.args == before[j].data.args
            &&& after[j].data.options@ == options_with(
                options_for(before[j].data.options@, lines, label, sub_key(before[j])),
                option,
                names,
                sub_key(before[j]),
            )
        }
}

/// The commands `after` are the commands `before`, each with the options
/// that the lines give it.
pub open spec fn with_options(
    before: Seq<Subcommand>,
    after: Seq<Subcommand>,
    lines: Seq<RawOption>,
    label: String,
) -> bool {
    &&& after.len() == before.len()
    &&& forall|j: int|
        0 <= j < before.len() ==> {
            &&& same_command(before[j], #[trigger] after[j])
            &&& after[j].data.flags == before[j].data.flags
            &&& after[j].data.args == before[j].data.args
            &&& after[j].data.options@ == options_for(
                before[j].data.options@,
                lines,
                label,
                sub_key(before[j]),
            )
        }
}

/// An option that was put in is not put in again.
pub proof fn lemma_with_option_once(list: Seq<OptionFlag>, o: OptionFlag)
    ensures
        with_option(with_option(list, o), o) == with_option(list, o),
{
    let keys = option_keys(list);
    if !keys.contains(o.flag.sort_text()) {
        let at = slot_of(keys, o.flag.sort_text());
        lemma_slot_range(keys, o.flag.sort_text());
        let now = list.insert(at, o);
        assert(option_keys(now)[at] == o.flag.sort_text());
        assert(option_keys(now).contains(o.flag.sort_text()));
    }
}

/// One more name of a line, and the command of that name has its option.
proof fn lemma_option_step(
    before: Seq<Subcommand>,
    cur: Seq<Subcommand>,
    next: Seq<Subcommand>,
    lines: Seq<RawOption>,
    label: String,
    option: OptionFlag,
    names: Seq<Seq<char>>,
    name: Seq<char>,
    at: int,
    s: Subcommand,
)
    requires
        distinct_subs(before),
        subs_wf(cur),
        options_given(before, cur, lines, label, option, names),
        is_sub_at(cur, name, at),
        replaced_at(cur, next, at, s),
        s.data.flags == cur[at].data.flags,
        s.data.args == cur[at].data.args,
        s.data.options@ == with_option(cur[at].data.options@, option),
    ensures
        options_given(before, next, lines, label, option, names.push(name)),
{
    let more = names.push(name);
    assert forall|j: int| 0 <= j < before.len() implies {
        &&& same_command(before[j], #[trigger] next[j])
        &&& next[j].data.flags == before[j].data.flags
        &&& next[j].data.args == before[j].data.args
        &&& next[j].data.options@ == options_with(
            options_for(before[j].data.options@, lines, label, sub_key(before[j])),
            option,
            more,
            sub_key(before[j]),
        )
    } by {
        let key = sub_key(before[j]);
        let base = options_for(before[j].data.options@, lines, label, key);
        assert(same_command(before[j], cur[j]));
        assert(sub_key(cur[j]) == key);
        assert(same_command(before[at], cur[at]));
        assert(sub_key(before[at]) == name);
        if j == at {
            assert(more[names.len() as int] == name);
            assert(more.contains(key));
            if names.contains(key) {
                lemma_with_option_once(base, option);
            }
        } else {
            assert(next[j] == cur[j]);
            assert(key != name);
            if more.contains(key) {
                let k = choose|k: int| 0 <= k < more.len() && more[k] == key;
                assert(names[k] == key);
            }
            if names.contains(key) {
                let k = choose|k: int| 0 <= k < names.len() && names[k] == key;
                assert(more[k] == key);
            }
        }
    }
}

/// Gives each command the options that the lines have for it; an option
/// without a label gets a copy of `label`. A line for a command that is not
/// there is an error.
pub(crate) fn hand_options(start: Vec<Subcommand>, lines: &Vec<RawOption>, label: &String) -> (r:
    Result<Vec<Subcommand>, BashManError>)
    requires
        subs_wf(start@),
        distinct_subs(start@),
    ensures
        match r {
            Ok(out) => subs_wf(out@) && with_options(start@, out@, lines@, *label),
            Err(e) => exists|i: int, k: int|
                0 <= i < lines@.len() && 0 <= k < lines@[i].subcommands@.len() && no_sub(
                    start@,
                    (#[trigger] lines@[i].subcommands@[k])@,
                ),
        },
{
    let ghost before = start@;
    let mut subs = start;
    let mut i: usize = 0;
    proof {
        assert(lines@.take(0).len() == 0);
    }
    while i < lines.len()
        invariant
            i <= lines@.len(),
            subs_wf(subs@),
            distinct_subs(before),
            before == start@,
            with_options(before, subs@, lines@.take(i as int), *label),
        decreases lines@.len() - i,
    {
        let line = &lines[i];
        let option = OptionFlag {
            flag: Flag {
                short: copy_key(&line.short),
                long: copy_key(&line.long),
                description: line.description.clone(),
                duplicate: line.duplicate,
            },
            label: match &line.label {
                Some(l) => l.clone(),
                None => label.clone(),
            },
            path: line.path,
        };
        let ghost done = lines@.take(i as int);
        let ghost names = strings_of(line.subcommands@);
        let mut k: usize = 0;
        proof {
            assert(names.take(0).len() == 0);
            assert(options_given(before, subs@, done, *label, option, names.take(0)));
        }
        while k < line.subcommands.len()
            invariant
                k <= line.subcommands@.len(),
                i < lines@.len(),
                line == &lines@[i as int],
                names == strings_of(line.subcommands@),
                done == lines@.take(i as int),
                option == option_of(*line, *label),
                subs_wf(subs@),
                distinct_subs(before),
                before == start@,
                options_given(before, subs@, done, *label, option, names.take(k as int)),
            decreases line.subcommands@.len() - k,
        {
            let ghost cur = subs@;
            match add_subcommand_option(&mut subs, line.subcommands[k].as_str(), option.copy()) {
                Ok(()) => {
                    proof {
                        let name = line.subcommands@[k as int]@;
                        let (at, s) = choose|at: int, s: Subcommand|
                            is_sub_at(cur, name, at) && #[trigger] replaced_at(cur, subs@, at, s)
                                && s.data.flags == cur[at].data.flags && s.data.args
                                == cur[at].data.args && s.data.options@ == with_option(
                                cur[at].data.options@,
                                option,
                            );
                        lemma_option_step(
                            before,
                            cur,
                            subs@,
                            done,
                            *label,
                            option,
                            names.take(k as int),
                            name,
                            at,
                            s,
                        );
                        assert(names.take(k + 1) =~= names.take(k as int).push(name));
                    }
                },
                Err(e) => {
                    proof {
                        let name = line.subcommands@[k as int]@;
                        assert forall|j: int| 0 <= j < before.len() implies sub_key(
                            #[trigger] before[j],
                        ) != name by {
                            assert(same_command(before[j], cur[j]));
                        }
                        assert(no_sub(before, lines@[i as int].subcommands@[k as int]@));
                    }
                    return Err(e);
                },
            }
            k += 1;
        }
        proof {
            let more = lines@.take(i + 1);
            assert(names.take(names.len() as int) =~= names);
            assert(more.drop_last() =~= done);
            assert(more.last() == lines@[i as int]);
        }
        i += 1;
    }
    proof {
        assert(lines@.take(lines@.len() as int) =~= lines@);
    }
    Ok(subs)
}

/// The trailing argument of a line; its label, where the line gives none, is
/// `label`.
pub open spec fn arg_of(line: RawArg, label: String) -> TrailingArg {
    TrailingArg {
        label: match line.label {
            Some(l) => l,
            None => label,
        },
        description: line.description,
    }
}

/// The keys of the commands.
pub open spec fn sub_keys(subs: Seq<Subcommand>) -> Seq<Seq<char>> {
    Seq::new(subs.len(), |j: int| sub_key(subs[j]))
}

/// The commands that the lines are for, line after line.
pub open spec fn arg_names(lines: Seq<RawArg>) -> Seq<Seq<char>>
    decreases lines.len(),
{
    if lines.len() == 0 {
        Seq::<Seq<char>>::empty()
    } else {
        arg_names(lines.drop_last()) + strings_of(lines.last().subcommands@)
    }
}

/// What goes wrong with the name at `i`: no command has it, or a name before
/// it was the same, so that the command has its argument already.
pub open spec fn arg_fault(names: Seq<Seq<char>>, known: Seq<Seq<char>>, i: int) -> Option<Fault> {
    if !known.contains(names[i]) {
        Some(Fault::Unknown(names[i]))
    } else if names.take(i).contains(names[i]) {
        Some(Fault::Twice(names[i]))
    } else {
        None
    }
}

/// The first thing that goes wrong among the first `upto` names.
pub open spec fn first_arg_fault(names: Seq<Seq<char>>, known: Seq<Seq<char>>, upto: int) -> Option<
    Fault,
>
    decreases upto,
{
    if upto <= 0 {
        None
    } else {
        match first_arg_fault(names, known, upto - 1) {
            Some(f) => Some(f),
            None => arg_fault(names, known, upto - 1),
        }
    }
}

/// The trailing argument of a command once a line for the commands `names`
/// has offered it `arg`.
pub open spec fn arg_with(
    base: Option<TrailingArg>,
    arg: TrailingArg,
    names: Seq<Seq<char>>,
    key: Seq<char>,
) -> Option<TrailingArg> {
    if names.contains(key) {
        Some(arg)
    } else {
        base
    }
}

/// The trailing argument that the lines give to the command with the key
/// `key`: that of the last line that names it.
pub open spec fn arg_for(lines: Seq<RawArg>, label: String, key: Seq<char>) -> Option<TrailingArg>
    decreases lines.len(),
{
    if lines.len() == 0 {
        None
    } else {
        arg_with(
            arg_for(lines.drop_last(), label, key),
            arg_of(lines.last(), label),
            strings_of(lines.last().subcommands@),
            key,
        )
    }
}

/// The commands `after` are the commands `before`, each with the argument
/// that the lines give it and the line at hand has given it so far.
pub open spec fn args_given(
    before: Seq<Subcommand>,
    after: Seq<Subcommand>,
    lines: Seq<RawArg>,
    label: String,
    arg: TrailingArg,
    names: Seq<Seq<char>>,
) -> bool {
    &&& after.len() == before.len()
    &&& forall|j: int|
        0 <= j < before.len() ==> {
            &&& same_command(before[j], #[trigger] after[j])
            &&& after[j].data.flags == before[j].data.flags
            &&& after[j].data.options == before[j].data.options
            &&& after[j].data.args == arg_with(
                arg_for(lines, label, sub_key(before[j])),
                arg,
                names,
                sub_key(before[j]),
            )
        }
}

/// The commands `after` are the commands `before`, each with the argument
/// that the lines give it.
pub open spec fn with_args(
    before: Seq<Subcommand>,
    after: Seq<Subcommand>,
    lines: Seq<RawArg>,
    label: String,
) -> bool {
    &&& after.len() == before.len()
    &&& forall|j: int|
        0 <= j < before.len() ==> {
            &&& same_command(before[j], #[trigger] after[j])
            &&& after[j].data.flags == before[j].data.flags
            &&& after[j].data.options == before[j].data.options
            &&& after[j].data.args == arg_for(lines, label, sub_key(before[j]))
        }
}

/// No command has an argument.
pub open spec fn no_args(subs: Seq<Subcommand>) -> bool {
    forall|j: int| 0 <= j < subs.len() ==> (#[trigger] subs[j]).data.args is None
}

/// The commands that have an argument are those that were named.
pub open spec fn args_seen(before: Seq<Subcommand>, after: Seq<Subcommand>, seen: Seq<Seq<char>>) -> bool {
    forall|j: int|
        0 <= j < before.len() ==> ((#[trigger] after[j]).data.args is Some <==> seen.contains(
            sub_key(before[j]),
        ))
}

/// A fault that is found stays the first as more is looked at.
pub proof fn lemma_arg_fault_stays(names: Seq<Seq<char>>, known: Seq<Seq<char>>, i: int, n: int)
    requires
        0 <= i <= n,
        first_arg_fault(names, known, i) is Some,
    ensures
        first_arg_fault(names, known, n) == first_arg_fault(names, known, i),
    decreases n - i,
{
    if i < n {
        lemma_arg_fault_stays(names, known, i, n - 1);
    }
}

/// What goes wrong among the first names depends on those names alone.
pub proof fn lemma_arg_fault_prefix(
    a: Seq<Seq<char>>,
    b: Seq<Seq<char>>,
    known: Seq<Seq<char>>,
    n: int,
)
    requires
        0 <= n <= a.len(),
        n <= b.len(),
        a.take(n) == b.take(n),
    ensures
        first_arg_fault(a, known, n) == first_arg_fault(b, known, n),
    decreases n,
{
    if n > 0 {
        assert(a.take(n - 1) =~= a.take(n).take(n - 1));
        assert(b.take(n - 1) =~= b.take(n).take(n - 1));
        lemma_arg_fault_prefix(a, b, known, n - 1);
        assert(a[n - 1] == a.take(n)[n - 1]);
        assert(b[n - 1] == b.take(n)[n - 1]);
    }
}

/// The names of the first lines come first among the names of all lines.
pub proof fn lemma_arg_names_prefix(lines: Seq<RawArg>, i: int)
    requires
        0 <= i <= lines.len(),
    ensures
        arg_names(lines.take(i)).len() <= arg_names(lines).len(),
        arg_names(lines).take(arg_names(lines.take(i)).len() as int) == arg_names(lines.take(i)),
    decreases lines.len(),
{
    if i == lines.len() {
        assert(lines.take(i) =~= lines);
        assert(arg_names(lines).take(arg_names(lines).len() as int) =~= arg_names(lines));
    } else {
        let front = lines.drop_last();
        lemma_arg_names_prefix(front, i);
        assert(front.take(i) =~= lines.take(i));
        let n = arg_names(lines.take(i)).len() as int;
        assert(arg_names(lines).take(n) =~= arg_names(front).take(n));
    }
}

/// One more name of a line, and the command of that name has its argument.
proof fn lemma_arg_step(
    before: Seq<Subcommand>,
    cur: Seq<Subcommand>,
    next: Seq<Subcommand>,
    lines: Seq<RawArg>,
    label: String,
    arg: TrailingArg,
    names: Seq<Seq<char>>,
    seen: Seq<Seq<char>>,
    name: Seq<char>,
    at: int,
    s: Subcommand,
)
    requires
        distinct_subs(before),
        args_given(before, cur, lines, label, arg, names),
        args_seen(before, cur, seen),
        is_sub_at(cur, name, at),
        replaced_at(cur, next, at, s),
        s.data.flags == cur[at].data.flags,
        s.data.options == cur[at].data.options,
        s.data.args == Some(arg),
    ensures
        args_given(before, next, lines, label, arg, names.push(name)),
        args_seen(before, next, seen.push(name)),
{
    let more = names.push(name);
    let wide = seen.push(name);
    assert(same_command(before[at], cur[at]));
    assert(sub_key(before[at]) == name);
    assert(more[names.len() as int] == name);
    assert(wide[seen.len() as int] == name);
    assert forall|j: int| 0 <= j < before.len() implies {
        &&& same_command(before[j], #[trigger] next[j])
        &&& next[j].data.flags == before[j].data.flags
        &&& next[j].data.options == before[j].data.options
        &&& next[j].data.args == arg_with(
            arg_for(lines, label, sub_key(before[j])),
            arg,
            more,
            sub_key(before[j]),
        )
        &&& (next[j].data.args is Some <==> wide.contains(sub_key(before[j])))
    } by {
        let key = sub_key(before[j]);
        assert(same_command(before[j], cur[j]));
        assert(sub_key(cur[j]) == key);
        if j == at {
            assert(more.contains(key));
            assert(wide.contains(key));
        } else {
            assert(next[j] == cur[j]);
            assert(key != name);
            if more.contains(key) {
                let k = choose|k: int| 0 <= k < more.len() && more[k] == key;
                assert(names[k] == key);
            }
            if names.contains(key) {
                let k = choose|k: int| 0 <= k < names.len() && names[k] == key;
                assert(more[k] == key);
            }
            if wide.contains(key) {
                let k = choose|k: int| 0 <= k < wide.len() && wide[k] == key;
                assert(seen[k] == key);
            }
            if seen.contains(key) {
                let k = choose|k: int| 0 <= k < seen.len() && seen[k] == key;
                assert(wide[k] == key);
            }
        }
    }
}

/// Gives each command the trailing argument that the lines have for it; an
/// argument without a label gets a copy of `label`. A line for a command that
/// is not there is an error, and so is a second argument for one command.
pub(crate) fn hand_args(start: Vec<Subcommand>, lines: &Vec<RawArg>, label: &String) -> (r: Result<
    Vec<Subcommand>,
    BashManError,
>)
    requires
        subs_wf(start@),
        distinct_subs(start@),
        no_args(start@),
    ensures
        match r {
            Ok(out) => first_arg_fault(
                arg_names(lines@),
                sub_keys(start@),
                arg_names(lines@).len() as int,
            ) is None && subs_wf(out@) && with_args(start@, out@, lines@, *label),
            Err(e) => first_arg_fault(
                arg_names(lines@),
                sub_keys(start@),
                arg_names(lines@).len() as int,
            ) matches Some(f) && tells(e, f),
        },
{
    let ghost before = start@;
    let ghost known = sub_keys(start@);
    let ghost all = arg_names(lines@);
    let ghost mut seen = Seq::<Seq<char>>::empty();
    let mut subs = start;
    let mut i: usize = 0;
    proof {
        assert(lines@.take(0).len() == 0);
    }
    while i < lines.len()
        invariant
            i <= lines@.len(),
            subs_wf(subs@),
            distinct_subs(before),
            before == start@,
            known == sub_keys(before),
            all == arg_names(lines@),
            seen == arg_names(lines@.take(i as int)),
            first_arg_fault(seen, known, seen.len() as int) is None,
            args_seen(before, subs@, seen),
            with_args(before, subs@, lines@.take(i as int), *label),
        decreases lines@.len() - i,
    {
        let line = &lines[i];
        let arg = TrailingArg {
            label: match &line.label {
                Some(l) => l.clone(),
                None => label.clone(),
            },
            description: line.description.clone(),
        };
        let ghost done = lines@.take(i as int);
        let ghost names = strings_of(line.subcommands@);
        let mut k: usize = 0;
        proof {
            assert(names.take(0).len() == 0);
            assert(seen =~= arg_names(done) + names.take(0));
            assert(args_given(before, subs@, done, *label, arg, names.take(0)));
        }
        while k < line.subcommands.len()
            invariant
                k <= line.subcommands@.len(),
                i < lines@.len(),
                line == &lines@[i as int],
                names == strings_of(line.subcommands@),
                done == lines@.take(i as int),
                arg == arg_of(*line, *label),
                subs_wf(subs@),
                distinct_subs(before),
                before == start@,
                known == sub_keys(before),
                all == arg_names(lines@),
                seen == arg_names(done) + names.take(k as int),
                first_arg_fault(seen, known, seen.len() as int) is None,
                args_seen(before, subs@, seen),
                args_given(before, subs@, done, *label, arg, names.take(k as int)),
            decreases line.subcommands@.len() - k,
        {
            let ghost cur = subs@;
            let ghost name = line.subcommands@[k as int]@;
            let ghost more = seen.push(name);
            let r = add_subcommand_arg(&mut subs, line.subcommands[k].as_str(), arg.copy());
            proof {
                assert(names.take(k + 1) =~= names.take(k as int).push(name));
                assert(more =~= arg_names(done) + names.take(k + 1));
                assert(more.take(seen.len() as int) =~= seen);
                assert(seen.take(seen.len() as int) =~= seen);
                lemma_arg_fault_prefix(more, seen, known, seen.len() as int);
                assert(more[seen.len() as int] == name);
                assert forall|j: int| 0 <= j < before.len() implies same_command(
                    before[j],
                    #[trigger] cur[j],
                ) && sub_key(cur[j]) == sub_key(before[j]) && known[j] == sub_key(before[j]) by {}
                // The names so far stand first among all the names.
                lemma_arg_names_prefix(lines@, i + 1);
                let upto = lines@.take(i + 1);
                assert(upto.drop_last() =~= done);
                assert(upto.last() == lines@[i as int]);
                assert(arg_names(upto) == arg_names(done) + names);
                assert(more =~= arg_names(upto).take(more.len() as int));
                assert(all.take(more.len() as int) =~= arg_names(upto).take(more.len() as int));
                assert(more.take(more.len() as int) =~= more);
                lemma_arg_fault_prefix(all, more, known, more.len() as int);
                if no_sub(cur, name) {
                    if known.contains(name) {
                        let j = choose|j: int| 0 <= j < known.len() && known[j] == name;
                        assert(sub_key(cur[j]) == name);
                    }
                    assert(arg_fault(more, known, seen.len() as int) == Some(Fault::Unknown(name)));
                    lemma_arg_fault_stays(all, known, more.len() as int, all.len() as int);
                } else {
                    let (at, s) = choose|at: int, s: Subcommand|
                        is_sub_at(cur, name, at) && #[trigger] replaced_at(cur, subs@, at, s)
                            && s.data.flags == cur[at].data.flags && s.data.options
                            == cur[at].data.options && s.data.args == Some(arg) && (match r {
                            Ok(()) => cur[at].data.args is None,
                            Err(e) => cur[at].data.args is Some && (
                            e matches BashManError::MultipleArgs(t) && t@ == name),
                        });
                    assert(known[at] == name);
                    assert(known.contains(name));
                    if r is Err {
                        assert(seen.contains(name));
                        assert(arg_fault(more, known, seen.len() as int) == Some(
                            Fault::Twice(name),
                        ));
                        lemma_arg_fault_stays(all, known, more.len() as int, all.len() as int);
                    } else {
                        assert(!seen.contains(name));
                        assert(arg_fault(more, known, seen.len() as int) is None);
                        lemma_arg_step(
                            before,
                            cur,
                            subs@,
                            done,
                            *label,
                            arg,
                            names.take(k as int),
                            seen,
                            name,
                            at,
                            s,
                        );
                    }
                }
            }
            match r {
                Ok(()) => {},
                Err(e) => {
                    return Err(e);
                },
            }
            proof {
                seen = more;
            }
            k += 1;
        }
        proof {
            let upto = lines@.take(i + 1);
            assert(names.take(names.len() as int) =~= names);
            assert(upto.drop_last() =~= done);
            assert(upto.last() == lines@[i as int]);
        }
        i += 1;
    }
    proof {
        assert(lines@.take(lines@.len() as int) =~= lines@);
    }
    Ok(subs)
}

/// The subcommands have names, and no two of them have one name.
pub open spec fn free_names(raws: Seq<RawSubCmd>) -> bool {
    &&& forall|k: int| 0 <= k < raws.len() ==> (#[trigger] raws[k]).cmd.text().len() > 0
    &&& forall|a: int, b: int|
        0 <= a < b < raws.len() ==> (#[trigger] raws[a]).cmd.text() != (#[trigger] raws[b]).cmd.text()
}

/// Where no name is taken, every subcommand has a name of its own.
pub proof fn lemma_free_names(raws: Seq<RawSubCmd>)
    requires
        first_sub_fault(raws, raws.len() as int) is None,
    ensures
        free_names(raws),
{
    assert forall|k: int| 0 <= k < raws.len() implies sub_fault(raws, k) is None by {
        if sub_fault(raws, k) is Some {
            assert(first_sub_fault(raws, k + 1) is Some);
            lemma_sub_fault_stays(raws, k + 1, raws.len() as int);
        }
    }
    assert forall|k: int| 0 <= k < raws.len() implies (#[trigger] raws[k]).cmd.text().len()
        > 0 by {
        assert(sub_fault(raws, k) is None);
        let known = known_names(raws.take(k));
        assert(known[0] == Seq::<char>::empty());
        if raws[k].cmd.text().len() == 0 {
            assert(raws[k].cmd.text() =~= known[0]);
        }
    }
    assert forall|a: int, b: int| 0 <= a < b < raws.len() implies (#[trigger] raws[a]).cmd.text()
        != (#[trigger] raws[b]).cmd.text() by {
        assert(sub_fault(raws, b) is None);
        let known = known_names(raws.take(b));
        assert(known[a + 1] == raws.take(b)[a].cmd.text());
    }
}

/// The command `s` is the subcommand `raw` of the command `main`: it has the
/// version of `main`, names `main` as its parent, and has nothing else yet.
pub open spec fn is_sub_of(s: Subcommand, raw: RawSubCmd, main: Subcommand) -> bool {
    &&& s.nice_name == raw.name
    &&& s.name == raw.cmd
    &&& s.description == raw.description
    &&& s.version@ == main.version@
    &&& s.parent matches Some((n, k)) && k == main.name && n@ == (match main.nice_name {
        Some(t) => t@,
        None => main.name.text(),
    })
    &&& s.data.sections@.len() == 0
}

/// The command has no switch, no option and no trailing argument.
pub open spec fn bare(s: Subcommand) -> bool {
    &&& s.data.flags@.len() == 0
    &&& s.data.options@.len() == 0
    &&& s.data.args is None
}

/// None of the commands has a switch, an option or a trailing argument.
pub open spec fn all_bare(subs: Seq<Subcommand>) -> bool {
    forall|j: int| 0 <= j < subs.len() ==> bare(#[trigger] subs[j])
}

/// One of the commands from the place `lo` on is the subcommand `raw`.
pub open spec fn has_sub(subs: Seq<Subcommand>, lo: int, raw: RawSubCmd, main: Subcommand) -> bool {
    exists|j: int| lo <= j < subs.len() && is_sub_of(#[trigger] subs[j], raw, main)
}

/// The command `s` is one of the subcommands from the place `lo` on.
pub open spec fn has_raw(raws: Seq<RawSubCmd>, lo: int, s: Subcommand, main: Subcommand) -> bool {
    exists|k: int| lo <= k < raws.len() && is_sub_of(s, #[trigger] raws[k], main)
}

/// The commands of a program: the main command first, then its subcommands
/// by name.
pub open spec fn commands_of(out: Seq<Subcommand>, main: Subcommand, raws: Seq<RawSubCmd>) -> bool {
    &&& out.len() == raws.len() + 1
    &&& out[0] == main
    &&& forall|i: int, j: int|
        1 <= i < j < out.len() ==> text_less(
            (#[trigger] out[i]).name.text(),
            (#[trigger] out[j]).name.text(),
        )
    &&& forall|k: int| 0 <= k < raws.len() ==> has_sub(out, 1, #[trigger] raws[k], main)
    &&& forall|j: int| 1 <= j < out.len() ==> has_raw(raws, 0, #[trigger] out[j], main)
}

/// The names of the commands.
pub open spec fn sub_names(subs: Seq<Subcommand>) -> Seq<Seq<char>> {
    Seq::new(subs.len(), |j: int| subs[j].name.text())
}

/// The subcommands `subs`, in order, are those made of the last subcommands
/// of the manifest, from `from` on.
pub open spec fn subs_of(subs: Seq<Subcommand>, main: Subcommand, raws: Seq<RawSubCmd>, from: int) -> bool {
    &&& subs.len() == raws.len() - from
    &&& strictly_sorted(sub_names(subs))
    &&& forall|k: int| from <= k < raws.len() ==> has_sub(subs, 0, #[trigger] raws[k], main)
    &&& forall|j: int| 0 <= j < subs.len() ==> has_raw(raws, from, #[trigger] subs[j], main)
}

/// One more subcommand put in its place.
proof fn lemma_sub_placed(
    subs: Seq<Subcommand>,
    main: Subcommand,
    raws: Seq<RawSubCmd>,
    from: int,
    at: int,
    s: Subcommand,
)
    requires
        0 < from <= raws.len(),
        subs_of(subs, main, raws, from),
        is_sub_of(s, raws[from - 1], main),
        0 <= at <= subs.len(),
        forall|j: int| 0 <= j < at ==> text_less(#[trigger] sub_names(subs)[j], s.name.text()),
        at < subs.len() ==> text_less(s.name.text(), sub_names(subs)[at]),
    ensures
        subs_of(subs.insert(at, s), main, raws, from - 1),
{
    let next = subs.insert(at, s);
    lemma_insert_text(sub_names(subs), at, s.name.text());
    assert(sub_names(next) =~= sub_names(subs).insert(at, s.name.text()));
    assert forall|k: int| from - 1 <= k < raws.len() implies has_sub(
        next,
        0,
        #[trigger] raws[k],
        main,
    ) by {
        if k == from - 1 {
            assert(next[at] == s);
            assert(is_sub_of(next[at], raws[k], main));
        } else {
            assert(has_sub(subs, 0, raws[k], main));
            let j = choose|j: int|
                0 <= j < subs.len() && is_sub_of(#[trigger] subs[j], raws[k], main);
            if j < at {
                assert(next[j] == subs[j]);
                assert(is_sub_of(next[j], raws[k], main));
            } else {
                assert(next[j + 1] == subs[j]);
                assert(is_sub_of(next[j + 1], raws[k], main));
            }
        }
    }
    assert forall|j: int| 0 <= j < next.len() implies has_raw(
        raws,
        from - 1,
        #[trigger] next[j],
        main,
    ) by {
        if j == at {
            assert(is_sub_of(next[j], raws[from - 1], main));
        } else {
            let i = if j < at {
                j
            } else {
                j - 1
            };
            assert(next[j] == subs[i]);
            assert(has_raw(raws, from, subs[i], main));
            let k = choose|k: int|
                from <= k < raws.len() && is_sub_of(subs[i], #[trigger] raws[k], main);
            assert(is_sub_of(next[j], raws[k], main));
        }
    }
}

/// The commands of a program: the main command and, made of what the manifest
/// says of them, its subcommands by name.
pub(crate) fn commands(main: Subcommand, list: Vec<RawSubCmd>) -> (out: Vec<Subcommand>)
    requires
        free_names(list@),
        bare(main),
    ensures
        commands_of(out@, main, list@),
        all_bare(out@),
{
    let ghost all = list@;
    let mut raws = list;
    let mut subs: Vec<Subcommand> = Vec::new();
    let mut names: Vec<Vec<char>> = Vec::new();
    assert(chars_of(names@) =~= sub_names(subs@));
    assert(raws@ =~= all.take(raws@.len() as int));
    while raws.len() > 0
        invariant
            all == list@,
            free_names(all),
            raws@.len() <= all.len(),
            raws@ == all.take(raws@.len() as int),
            subs_of(subs@, main, all, raws@.len() as int),
            chars_of(names@) == sub_names(subs@),
            all_bare(subs@),
        decreases raws@.len(),
    {
        let ghost from = raws@.len() as int;
        let raw = raws.pop().unwrap();
        assert(raw == all[from - 1]);
        let ghost old_subs = subs@;
        let ghost old_names = names@;
        let item = to_chars(raw.cmd.as_str());
        let (at, found) = text_slot(&names, &item);
        let sub = raw.into_subcommand(
            main.version.clone(),
            Some((main.nice_name().to_owned(), main.name.copy())),
        );
        proof {
            assert(is_sub_of(sub, all[from - 1], main));
            if found {
                let j = at as int;
                assert(sub_names(subs@)[j] == item@);
                assert(has_raw(all, from, subs@[j], main));
                let k = choose|k: int|
                    from <= k < all.len() && is_sub_of(subs@[j], #[trigger] all[k], main);
                assert(all[k].cmd.text() == all[from - 1].cmd.text());
            }
            lemma_sub_placed(subs@, main, all, from, at as int, sub);
            assert(raws@ =~= all.take(from - 1));
        }
        subs.insert(at, sub);
        names.insert(at, item);
        proof {
            assert(subs@ == old_subs.insert(at as int, sub));
            assert(names@ == old_names.insert(at as int, item));
            assert(chars_of(names@) =~= chars_of(old_names).insert(at as int, item@));
            assert(sub_names(subs@) =~= sub_names(old_subs).insert(at as int, sub.name.text()));
            assert forall|j: int| 0 <= j < subs@.len() implies bare(#[trigger] subs@[j]) by {
                if j < at {
                    assert(subs@[j] == old_subs[j]);
                } else if j > at {
                    assert(subs@[j] == old_subs[j - 1]);
                }
            }
        }
    }
    let ghost rest = subs@;
    subs.insert(0, main);
    proof {
        let out = subs@;
        assert forall|i: int, j: int| 1 <= i < j < out.len() implies text_less(
            (#[trigger] out[i]).name.text(),
            (#[trigger] out[j]).name.text(),
        ) by {
            assert(out[i] == rest[i - 1]);
            assert(out[j] == rest[j - 1]);
            assert(text_less(sub_names(rest)[i - 1], sub_names(rest)[j - 1]));
        }
        assert forall|k: int| 0 <= k < all.len() implies has_sub(out, 1, #[trigger] all[k], main) by {
            assert(has_sub(rest, 0, all[k], main));
            let j = choose|j: int| 0 <= j < rest.len() && is_sub_of(#[trigger] rest[j], all[k], main);
            assert(out[j + 1] == rest[j]);
            assert(is_sub_of(out[j + 1], all[k], main));
        }
        assert forall|j: int| 1 <= j < out.len() implies has_raw(all, 0, #[trigger] out[j], main) by {
            assert(out[j] == rest[j - 1]);
            assert(has_raw(all, 0, rest[j - 1], main));
        }
        assert forall|j: int| 0 <= j < out.len() implies bare(#[trigger] out[j]) by {
            if j > 0 {
                assert(out[j] == rest[j - 1]);
            }
        }
    }
    subs
}

/// Where nothing goes wrong among the first claims, nothing goes wrong with
/// any of them.
pub proof fn lemma_no_claim_fault(claims: Seq<ClaimView>, known: Seq<Seq<char>>, i: int, n: int)
    requires
        0 <= i < n,
        first_claim_fault(claims, known, n) is None,
    ensures
        claim_fault(claims, known, i) is None,
    decreases n,
{
    if i < n - 1 {
        lemma_no_claim_fault(claims, known, i, n - 1);
    }
}

/// Where nothing goes wrong with the claims, a command that one of them asks
/// to be there is there.
pub proof fn lemma_claimed_known(claims: Seq<ClaimView>, known: Seq<Seq<char>>, name: Seq<char>)
    requires
        first_claim_fault(claims, known, claims.len() as int) is None,
        claims.contains(ClaimView { name, key: None }),
    ensures
        known.contains(name),
{
    let c = ClaimView { name, key: None };
    let i = choose|i: int| 0 <= i < claims.len() && claims[i] == c;
    lemma_no_claim_fault(claims, known, i, claims.len() as int);
}

/// A line asks each of its commands to be there.
pub proof fn lemma_line_claims(
    short: Option<KeyView>,
    long: Option<KeyView>,
    names: Seq<Seq<char>>,
    name: Seq<char>,
)
    requires
        names.contains(name),
    ensures
        line_claims(short, long, names).contains(ClaimView { name, key: None }),
    decreases names.len(),
{
    let c = ClaimView { name, key: None };
    let front = line_claims(short, long, names.drop_last());
    let back = name_claims(short, long, names.last());
    if names.last() == name {
        assert(back[0] == c);
        assert((front + back)[front.len() as int] == c);
    } else {
        let i = choose|i: int| 0 <= i < names.len() && names[i] == name;
        assert(names.drop_last()[i] == name);
        lemma_line_claims(short, long, names.drop_last(), name);
        let j = choose|j: int| 0 <= j < front.len() && front[j] == c;
        assert((front + back)[j] == c);
    }
}

/// A switch with a key asks each of its commands to be there.
pub proof fn lemma_switch_claims(flags: Seq<RawSwitch>, i: int, name: Seq<char>)
    requires
        0 <= i < keyed_switches(flags).len(),
        line_names(keyed_switches(flags)[i].subcommands@).contains(name),
    ensures
        switch_claims(flags).contains(ClaimView { name, key: None }),
    decreases flags.len(),
{
    let c = ClaimView { name, key: None };
    let f = flags.last();
    let front = switch_claims(flags.drop_last());
    if f.short is Some || f.long is Some {
        let back = line_claims(key_view(f.short), key_view(f.long), line_names(f.subcommands@));
        if i == keyed_switches(flags).len() - 1 {
            lemma_line_claims(key_view(f.short), key_view(f.long), line_names(f.subcommands@), name);
            let j = choose|j: int| 0 <= j < back.len() && back[j] == c;
            assert((front + back)[front.len() + j] == c);
        } else {
            lemma_switch_claims(flags.drop_last(), i, name);
            let j = choose|j: int| 0 <= j < front.len() && front[j] == c;
            assert((front + back)[j] == c);
        }
    } else {
        lemma_switch_claims(flags.drop_last(), i, name);
    }
}

/// An option with a key asks each of its commands to be there.
pub proof fn lemma_option_claims(options: Seq<RawOption>, i: int, name: Seq<char>)
    requires
        0 <= i < keyed_options(options).len(),
        line_names(keyed_options(options)[i].subcommands@).contains(name),
    ensures
        option_claims(options).contains(ClaimView { name, key: None }),
    decreases options.len(),
{
    let c = ClaimView { name, key: None };
    let f = options.last();
    let front = option_claims(options.drop_last());
    if f.short is Some || f.long is Some {
        let back = line_claims(key_view(f.short), key_view(f.long), line_names(f.subcommands@));
        if i == keyed_options(options).len() - 1 {
            lemma_line_claims(key_view(f.short), key_view(f.long), line_names(f.subcommands@), name);
            let j = choose|j: int| 0 <= j < back.len() && back[j] == c;
            assert((front + back)[front.len() + j] == c);
        } else {
            lemma_option_claims(options.drop_last(), i, name);
            let j = choose|j: int| 0 <= j < front.len() && front[j] == c;
            assert((front + back)[j] == c);
        }
    } else {
        lemma_option_claims(options.drop_last(), i, name);
    }
}

/// Where what the manifest says is sound, each switch and each option that
/// is left is for commands that are there.
pub proof fn lemma_lines_known(m: RawBashMan, raw: RawBashMan)
    requires
        ready(m, raw),
        bashman_fault(raw) is None,
    ensures
        forall|i: int, k: int|
            0 <= i < m.flags@.len() && 0 <= k < m.flags@[i].subcommands@.len() ==> known_names(
                raw.subcommands@,
            ).contains((#[trigger] m.flags@[i].subcommands@[k])@),
        forall|i: int, k: int|
            0 <= i < m.options@.len() && 0 <= k < m.options@[i].subcommands@.len()
                ==> known_names(raw.subcommands@).contains(
                (#[trigger] m.options@[i].subcommands@[k])@,
            ),
{
    let known = known_names(raw.subcommands@);
    let a = switch_claims(raw.flags@);
    let b = option_claims(raw.options@);
    let all = all_claims(raw);
    assert forall|i: int, k: int|
        0 <= i < m.flags@.len() && 0 <= k < m.flags@[i].subcommands@.len() implies known.contains(
        (#[trigger] m.flags@[i].subcommands@[k])@,
    ) by {
        let name = m.flags@[i].subcommands@[k]@;
        let c = ClaimView { name, key: None };
        assert(switch_ready(m.flags@[i], keyed_switches(raw.flags@)[i]));
        assert(strings_of(m.flags@[i].subcommands@)[k] == name);
        assert(line_names(keyed_switches(raw.flags@)[i].subcommands@).contains(name));
        lemma_switch_claims(raw.flags@, i, name);
        let j = choose|j: int| 0 <= j < a.len() && a[j] == c;
        assert(all[j] == c);
        lemma_claimed_known(all, known, name);
    }
    assert forall|i: int, k: int|
        0 <= i < m.options@.len() && 0 <= k < m.options@[i].subcommands@.len()
        implies known.contains((#[trigger] m.options@[i].subcommands@[k])@) by {
        let name = m.options@[i].subcommands@[k]@;
        let c = ClaimView { name, key: None };
        assert(option_ready(m.options@[i], keyed_options(raw.options@)[i]));
        assert(strings_of(m.options@[i].subcommands@)[k] == name);
        assert(line_names(keyed_options(raw.options@)[i].subcommands@).contains(name));
        lemma_option_claims(raw.options@, i, name);
        let j = choose|j: int| 0 <= j < b.len() && b[j] == c;
        assert(all[a.len() + j] == c);
        lemma_claimed_known(all, known, name);
    }
}

/// The section `s` is the section `raw` of the manifest, its lines joined.
pub open spec fn is_section(s: Section, raw: RawSection) -> bool {
    &&& s.name == raw.name
    &&& s.inside == raw.inside
    &&& s.lines@ == joined(strings_of(raw.lines@), line_break())
    &&& s.items == raw.items
}

/// The sections are those of the manifest, one for one.
pub open spec fn sections_of(out: Seq<Section>, raws: Seq<RawSection>) -> bool {
    &&& out.len() == raws.len()
    &&& forall|i: int| 0 <= i < out.len() ==> is_section(#[trigger] out[i], raws[i])
}

/// The sections of the manual, made of those of the manifest.
pub fn sections_from(raws: Vec<RawSection>) -> (out: Vec<Section>)
    ensures
        sections_of(out@, raws@),
{
    let ghost all = raws@;
    let mut rest = reversed(raws);
    let mut out: Vec<Section> = Vec::new();
    while rest.len() > 0
        invariant
            rest@.len() + out@.len() == all.len(),
            forall|i: int| 0 <= i < rest@.len() ==> #[trigger] rest@[i] == all[all.len() - 1 - i],
            forall|i: int| 0 <= i < out@.len() ==> is_section(#[trigger] out@[i], all[i]),
        decreases rest@.len(),
    {
        let raw = rest.pop().unwrap();
        out.push(Section::from(raw));
    }
    out
}

/// The credits are those of the manifest, one for one: each direct, and
/// optional where the manifest says so.
pub open spec fn credits_of(out: Seq<Dependency>, raws: Seq<RawCredits>) -> bool {
    &&& out.len() == raws.len()
    &&& forall|i: int| 0 <= i < out.len() ==> #[trigger] out[i] == Dependency::from_spec(raws[i])
}

/// The dependencies that the manifest adds by hand.
pub fn credits_from(raws: Vec<RawCredits>) -> (out: Vec<Dependency>)
    ensures
        credits_of(out@, raws@),
{
    let ghost all = raws@;
    let mut rest = reversed(raws);
    let mut out: Vec<Dependency> = Vec::new();
    while rest.len() > 0
        invariant
            rest@.len() + out@.len() == all.len(),
            forall|i: int| 0 <= i < rest@.len() ==> #[trigger] rest@[i] == all[all.len() - 1 - i],
            forall|i: int| 0 <= i < out@.len() ==> #[trigger] out@[i] == Dependency::from_spec(all[i]),
        decreases rest@.len(),
    {
        let raw = rest.pop().unwrap();
        out.push(Dependency::from(raw));
    }
    out
}

/// The label of an option that has none.
pub open spec fn value_label() -> Seq<char> {
    "<VAL>"@
}

/// The label of a trailing argument that has none.
pub open spec fn arg_label() -> Seq<char> {
    "<ARG(S)…>"@
}

/// What is said where the main package has no description.
pub open spec fn no_description() -> Seq<char> {
    "missing description for main package"@
}

/// The command has the switches, the options and the trailing argument that
/// the manifest gives it.
pub open spec fn gets(s: Subcommand, m: RawBashMan, val: String, arg: String) -> bool {
    &&& s.data.flags@ == flags_for(Seq::<Flag>::empty(), m.flags@, sub_key(s))
    &&& s.data.options@ == options_for(Seq::<OptionFlag>::empty(), m.options@, val, sub_key(s))
    &&& s.data.args == arg_for(m.args@, arg, sub_key(s))
}

/// The main command of the package: its name is the command, and the
/// sections of the manifest are its sections.
pub open spec fn is_main_of(
    main: Subcommand,
    name: Seq<char>,
    version: Seq<char>,
    description: Seq<char>,
    m: RawBashMan,
) -> bool {
    &&& main.nice_name == m.nice_name
    &&& main.name matches KeyWord::Command(t) && t@ == name
    &&& main.description@ == description
    &&& main.version@ == version
    &&& main.parent is None
    &&& sections_of(main.data.sections@, m.sections@)
}

/// The main package with what the manifest says for it.
#[derive(Debug)]
pub struct RawMainPackage {
    pub dir_bash: Option<String>,
    pub dir_man: Option<String>,
    pub dir_credits: Option<String>,
    pub subcommands: Vec<Subcommand>,
    pub credits: Vec<Dependency>,
}

/// The package is what the manifest `m` says of the program with the given
/// name, version and description: the main command first, then the
/// subcommands by name, each with what the lines of the manifest give it. An
/// option without a label has the label `val`, a trailing argument without
/// one the label `arg`.
pub open spec fn is_package(
    pkg: RawMainPackage,
    name: Seq<char>,
    version: Seq<char>,
    description: Seq<char>,
    m: RawBashMan,
    val: String,
    arg: String,
) -> bool {
    &&& pkg.dir_bash == m.dir_bash
    &&& pkg.dir_man == m.dir_man
    &&& pkg.dir_credits == m.dir_credits
    &&& credits_of(pkg.credits@, m.credits@)
    &&& pkg.subcommands@.len() > 0
    &&& is_main_of(pkg.subcommands@[0], name, version, description, m)
    &&& commands_of(pkg.subcommands@, pkg.subcommands@[0], m.subcommands@)
    &&& forall|j: int|
        0 <= j < pkg.subcommands@.len() ==> gets(#[trigger] pkg.subcommands@[j], m, val, arg)
}

/// What goes wrong with the trailing arguments of the manifest, if anything.
pub open spec fn args_fault(m: RawBashMan) -> Option<Fault> {
    first_arg_fault(
        arg_names(m.args@),
        known_names(m.subcommands@),
        arg_names(m.args@).len() as int,
    )
}

/// Every switch and every option is for commands that are there.
pub open spec fn lines_known(m: RawBashMan) -> bool {
    &&& forall|i: int, k: int|
        0 <= i < m.flags@.len() && 0 <= k < m.flags@[i].subcommands@.len() ==> known_names(
            m.subcommands@,
        ).contains((#[trigger] m.flags@[i].subcommands@[k])@)
    &&& forall|i: int, k: int|
        0 <= i < m.options@.len() && 0 <= k < m.options@[i].subcommands@.len() ==> known_names(
            m.subcommands@,
        ).contains((#[trigger] m.options@[i].subcommands@[k])@)
}

/// What goes wrong among the names depends on which commands are there, not
/// on their order.
pub proof fn lemma_arg_fault_known(
    names: Seq<Seq<char>>,
    a: Seq<Seq<char>>,
    b: Seq<Seq<char>>,
    n: int,
)
    requires
        forall|x: Seq<char>| a.contains(x) <==> b.contains(x),
    ensures
        first_arg_fault(names, a, n) == first_arg_fault(names, b, n),
    decreases n,
{
    if n > 0 {
        lemma_arg_fault_known(names, a, b, n - 1);
    }
}

/// The keys of the commands are the names that the manifest makes known;
/// no two commands have one key.
pub proof fn lemma_command_keys(list: Seq<Subcommand>, main: Subcommand, raws: Seq<RawSubCmd>)
    requires
        commands_of(list, main, raws),
        main.parent is None,
        free_names(raws),
    ensures
        forall|x: Seq<char>| known_names(raws).contains(x) <==> sub_keys(list).contains(x),
        distinct_subs(list),
{
    let known = known_names(raws);
    let keys = sub_keys(list);
    assert forall|j: int| 1 <= j < list.len() implies sub_key(#[trigger] list[j])
        == list[j].name.text() && known.contains(sub_key(list[j])) && sub_key(list[j]).len()
        > 0 by {
        assert(has_raw(raws, 0, list[j], main));
        let k = choose|k: int| 0 <= k < raws.len() && is_sub_of(list[j], #[trigger] raws[k], main);
        assert(known[k + 1] == raws[k].cmd.text());
    }
    assert forall|x: Seq<char>| known.contains(x) <==> keys.contains(x) by {
        if known.contains(x) {
            let i = choose|i: int| 0 <= i < known.len() && known[i] == x;
            if i == 0 {
                assert(keys[0] == x);
            } else {
                assert(has_sub(list, 1, raws[i - 1], main));
                let j = choose|j: int|
                    1 <= j < list.len() && is_sub_of(#[trigger] list[j], raws[i - 1], main);
                assert(keys[j] == x);
            }
        }
        if keys.contains(x) {
            let j = choose|j: int| 0 <= j < keys.len() && keys[j] == x;
            if j == 0 {
                assert(known[0] == x);
            } else {
                assert(known.contains(sub_key(list[j])));
            }
        }
    }
    assert forall|i: int, j: int| 0 <= i < j < list.len() implies sub_key(#[trigger] list[i])
        != sub_key(#[trigger] list[j]) by {
        if i == 0 {
            assert(sub_key(list[0]).len() == 0);
        } else {
            assert(text_less(list[i].name.text(), list[j].name.text()));
            lemma_text_irreflexive(list[i].name.text());
        }
    }
}

/// Commands that are the same but for what they were given have the same
/// keys.
proof fn lemma_keys_kept(before: Seq<Subcommand>, after: Seq<Subcommand>)
    requires
        after.len() == before.len(),
        forall|j: int| 0 <= j < before.len() ==> same_command(before[j], #[trigger] after[j]),
    ensures
        sub_keys(after) == sub_keys(before),
        distinct_subs(before) ==> distinct_subs(after),
{
    assert(sub_keys(after) =~= sub_keys(before));
    if distinct_subs(before) {
        assert forall|i: int, j: int| 0 <= i < j < after.len() implies sub_key(#[trigger] after[i])
            != sub_key(#[trigger] after[j]) by {
            assert(same_command(before[i], after[i]));
            assert(same_command(before[j], after[j]));
        }
    }
}

/// Commands that are the same but for what they were given are the commands
/// of the same manifest.
proof fn lemma_commands_kept(before: Seq<Subcommand>, after: Seq<Subcommand>, raws: Seq<RawSubCmd>)
    requires
        commands_of(before, before[0], raws),
        after.len() == before.len(),
        forall|j: int| 0 <= j < before.len() ==> same_command(before[j], #[trigger] after[j]),
    ensures
        commands_of(after, after[0], raws),
{
    assert(same_command(before[0], after[0]));
    assert forall|i: int, j: int| 1 <= i < j < after.len() implies text_less(
        (#[trigger] after[i]).name.text(),
        (#[trigger] after[j]).name.text(),
    ) by {
        assert(same_command(before[i], after[i]));
        assert(same_command(before[j], after[j]));
    }
    assert forall|k: int| 0 <= k < raws.len() implies has_sub(
        after,
        1,
        #[trigger] raws[k],
        after[0],
    ) by {
        assert(has_sub(before, 1, raws[k], before[0]));
        let j = choose|j: int|
            1 <= j < before.len() && is_sub_of(#[trigger] before[j], raws[k], before[0]);
        assert(same_command(before[j], after[j]));
        assert(is_sub_of(after[j], raws[k], after[0]));
    }
    assert forall|j: int| 1 <= j < after.len() implies has_raw(
        raws,
        0,
        #[trigger] after[j],
        after[0],
    ) by {
        assert(same_command(before[j], after[j]));
        assert(has_raw(raws, 0, before[j], before[0]));
        let k = choose|k: int|
            0 <= k < raws.len() && is_sub_of(before[j], #[trigger] raws[k], before[0]);
        assert(is_sub_of(after[j], raws[k], after[0]));
    }
}

/// What the manifest says is sound: each subcommand has a name of its own,
/// and each switch and each option is for commands that are there.
pub open spec fn sound(m: RawBashMan) -> bool {
    &&& free_names(m.subcommands@)
    &&& lines_known(m)
}

/// What the manifest says where it says nothing.
pub open spec fn is_blank(m: RawBashMan) -> bool {
    &&& m.nice_name is None
    &&& m.dir_bash is None
    &&& m.dir_man is None
    &&& m.dir_credits is None
    &&& m.subcommands@.len() == 0
    &&& m.flags@.len() == 0
    &&& m.options@.len() == 0
    &&& m.args@.len() == 0
    &&& m.sections@.len() == 0
    &&& m.credits@.len() == 0
}

/// `m` is what the manifest says, sound and made ready; where the manifest
/// says nothing, `m` is blank.
pub open spec fn prepared(m: RawBashMan, metadata: Option<RawBashMan>) -> bool {
    match metadata {
        Some(raw) => bashman_fault(raw) is None && ready(m, raw),
        None => is_blank(m),
    }
}

impl RawMainPackage {
    /// The package of a manifest that is sound and ready.
    fn assemble(name: PackageName, version: &Version, description: String, m: RawBashMan) -> (r:
        Result<RawMainPackage, BashManError>)
        requires
            sound(m),
        ensures
            match r {
                Ok(pkg) => args_fault(m) is None && exists|val: String, arg: String|
                    val@ == value_label() && arg@ == arg_label() && #[trigger] is_package(
                        pkg,
                        name@,
                        version_text(version@),
                        description@,
                        m,
                        val,
                        arg,
                    ),
                Err(e) => args_fault(m) matches Some(f) && tells(e, f),
            },
    {
        let RawBashMan {
            nice_name,
            dir_bash,
            dir_man,
            dir_credits,
            subcommands,
            flags,
            options,
            args,
            sections,
            credits,
        } = m;
        let main = Subcommand {
            nice_name,
            name: KeyWord::Command(name.as_str().to_owned()),
            description,
            version: version.text(),
            parent: None,
            data: ManifestData {
                flags: Vec::new(),
                options: Vec::new(),
                args: None,
                sections: sections_from(sections),
            },
        };
        let ghost first = main;
        let ghost known = known_names(subcommands@);
        let list = commands(main, subcommands);
        let ghost bare_list = list@;
        proof {
            lemma_command_keys(bare_list, first, subcommands@);
            assert forall|j: int| 0 <= j < bare_list.len() implies keys_sorted(
                flag_keys((#[trigger] bare_list[j]).data.flags@),
            ) && keys_sorted(option_keys(bare_list[j].data.options@)) by {
                assert(bare(bare_list[j]));
            }
        }
        let list = match hand_flags(list, &flags) {
            Ok(l) => l,
            Err(e) => {
                proof {
                    let (i, k) = choose|i: int, k: int|
                        0 <= i < flags@.len() && 0 <= k < flags@[i].subcommands@.len() && no_sub(
                            bare_list,
                            (#[trigger] flags@[i].subcommands@[k])@,
                        );
                    let x = flags@[i].subcommands@[k]@;
                    assert(known.contains(x));
                    let j = choose|j: int|
                        0 <= j < sub_keys(bare_list).len() && sub_keys(bare_list)[j] == x;
                    assert(sub_key(bare_list[j]) == x);
                }
                return Err(e);
            },
        };
        let ghost flagged = list@;
        proof {
            lemma_keys_kept(bare_list, flagged);
        }
        let val = "<VAL>".to_owned();
        let list = match hand_options(list, &options, &val) {
            Ok(l) => l,
            Err(e) => {
                proof {
                    let (i, k) = choose|i: int, k: int|
                        0 <= i < options@.len() && 0 <= k < options@[i].subcommands@.len()
                            && no_sub(flagged, (#[trigger] options@[i].subcommands@[k])@);
                    let x = options@[i].subcommands@[k]@;
                    assert(known.contains(x));
                    let j = choose|j: int|
                        0 <= j < sub_keys(flagged).len() && sub_keys(flagged)[j] == x;
                    assert(sub_key(flagged[j]) == x);
                }
                return Err(e);
            },
        };
        let ghost optioned = list@;
        proof {
            lemma_keys_kept(flagged, optioned);
            assert forall|j: int| 0 <= j < optioned.len() implies (
            #[trigger] optioned[j]).data.args is None by {
                assert(bare(bare_list[j]));
                assert(flagged[j].data.args == bare_list[j].data.args);
            }
            lemma_arg_fault_known(
                arg_names(args@),
                sub_keys(optioned),
                known,
                arg_names(args@).len() as int,
            );
        }
        let arg = "<ARG(S)…>".to_owned();
        let list = match hand_args(list, &args, &arg) {
            Ok(l) => l,
            Err(e) => {
                return Err(e);
            },
        };
        let credits = credits_from(credits);
        let pkg = RawMainPackage { dir_bash, dir_man, dir_credits, subcommands: list, credits };
        proof {
            let out = list@;
            assert forall|j: int| 0 <= j < bare_list.len() implies same_command(
                bare_list[j],
                #[trigger] out[j],
            ) && gets(out[j], m, val, arg) by {
                assert(same_command(bare_list[j], flagged[j]));
                assert(same_command(flagged[j], optioned[j]));
                assert(same_command(optioned[j], out[j]));
                assert(bare(bare_list[j]));
                assert(bare_list[j].data.flags@ =~= Seq::<Flag>::empty());
                assert(flagged[j].data.options@ =~= Seq::<OptionFlag>::empty());
            }
            lemma_commands_kept(bare_list, out, subcommands@);
            assert(same_command(bare_list[0], out[0]));
            assert(is_package(pkg, name@, version_text(version@), description@, m, val, arg));
        }
        Ok(pkg)
    }

    /// The main package of a program: its commands, each with the switches,
    /// the options and the trailing argument that the manifest gives it, and
    /// the dependencies that the manifest adds by hand. The description must
    /// be there and say something; what the manifest says must be sound; and
    /// a trailing argument must be for commands that are there, one for each
    /// at most.
    pub fn try_from_parts(
        name: PackageName,
        version: &Version,
        description: Option<&str>,
        metadata: Option<RawBashMan>,
    ) -> (r: Result<RawMainPackage, BashManError>)
        ensures
            match r {
                Ok(pkg) => description matches Some(d) && normalized(d@).len() > 0 && exists|
                    m: RawBashMan,
                    val: String,
                    arg: String,
                |
                    prepared(m, metadata) && args_fault(m) is None && val@ == value_label()
                        && arg@ == arg_label() && #[trigger] is_package(
                        pkg,
                        name@,
                        version_text(version@),
                        normalized(d@),
                        m,
                        val,
                        arg,
                    ),
                Err(e) => match description {
                    None => e matches BashManError::ParseCargoMetadata(t) && t@
                        == no_description(),
                    Some(d) => if normalized(d@).len() == 0 {
                        e matches BashManError::ParseCargoMetadata(t) && t@ == empty_value()
                    } else {
                        metadata matches Some(raw) && (match bashman_fault(raw) {
                            Some(f) => tells(e, f),
                            None => exists|m: RawBashMan| #[trigger]
                                ready(m, raw) && (args_fault(m) matches Some(f) && tells(e, f)),
                        })
                    },
                },
            },
    {
        let description = match description {
            Some(d) => match deserialize_nonempty_str_normalized(d) {
                Ok(t) => t,
                Err(e) => {
                    return Err(e);
                },
            },
            None => {
                return Err(
                    BashManError::ParseCargoMetadata(
                        "missing description for main package".to_owned(),
                    ),
                );
            },
        };
        let m = match metadata {
            Some(raw) => match deserialize_bashman(raw) {
                Ok(m) => {
                    proof {
                        lemma_lines_known(m, raw);
                        lemma_free_names(raw.subcommands@);
                    }
                    m
                },
                Err(e) => {
                    return Err(e);
                },
            },
            None => RawBashMan {
                nice_name: None,
                dir_bash: None,
                dir_man: None,
                dir_credits: None,
                subcommands: Vec::new(),
                flags: Vec::new(),
                options: Vec::new(),
                args: Vec::new(),
                sections: Vec::new(),
                credits: Vec::new(),
            },
        };
        assert(prepared(m, metadata));
        RawMainPackage::assemble(name, version, description, m)
    }
}

/// Whether there is anything to complete: more than one command, or a
/// command with a switch, an option or a trailing argument.
pub open spec fn bash_data(subs: Seq<Subcommand>) -> bool {
    subs.len() > 1 || (subs.len() == 1 && (subs[0].data.flags@.len() > 0
        || subs[0].data.options@.len() > 0 || subs[0].data.args is Some))
}

/// Whether there is anything for a manual: more than one command, or a
/// command with a switch, an option, a trailing argument or a section.
pub open spec fn man_data(subs: Seq<Subcommand>) -> bool {
    bash_data(subs) || (subs.len() == 1 && subs[0].data.sections@.len() > 0)
}

impl RawMainPackage {
    /// Whether the package has anything that completions can be made of.
    pub fn has_bash(&self) -> (r: bool)
        ensures
            r == bash_data(self.subcommands@),
    {
        if self.subcommands.len() != 1 {
            return self.subcommands.len() > 1;
        }
        let data = &self.subcommands[0].data;
        data.flags.len() > 0 || data.options.len() > 0 || data.args.is_some()
    }

    /// Whether the package has anything that a manual can be made of.
    pub fn has_man(&self) -> (r: bool)
        ensures
            r == man_data(self.subcommands@),
    {
        self.has_bash() || (self.subcommands.len() == 1
            && self.subcommands[0].data.sections.len() > 0)
    }
}

} // verus!
