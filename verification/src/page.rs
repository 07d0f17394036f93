//! The credits page: a Markdown table of the dependencies, with a legend.

use vstd::prelude::*;
use vstd::string::StringExecFns;
use crate::cargo::opt_text;
use crate::context::{carries, target_only, build_only, FLAG_DIRECT, FLAG_OPTIONAL};
use crate::credits::is_conditional;
use crate::license::oxford;
use crate::pkg::Dependency;
use crate::text::strings_of;
use crate::version::{Version, VersionView};

verus! {

/// `oxford_join::OxfordJoin::oxford_and` joins a list of texts with `and`:
/// nothing for none, the text itself for one, `a and b` for two, and
/// `a, b, and c` for more.
#[verifier::external_body]
fn oxford_and(list: &Vec<String>) -> (r: String)
    ensures
        r@ == oxford(strings_of(list@), "and"@),
{
    oxford_join::OxfordJoin::oxford_and(list.as_slice()).into_owned()
}

/// The character of a digit.
pub open spec fn digit_char(d: nat) -> char {
    if d == 0 {
        '0'
    } else if d == 1 {
        '1'
    } else if d == 2 {
        '2'
    } else if d == 3 {
        '3'
    } else if d == 4 {
        '4'
    } else if d == 5 {
        '5'
    } else if d == 6 {
        '6'
    } else if d == 7 {
        '7'
    } else if d == 8 {
        '8'
    } else {
        '9'
    }
}

/// A number in decimal.
pub open spec fn decimal(n: nat) -> Seq<char>
    decreases n,
{
    if n < 10 {
        seq![digit_char(n)]
    } else {
        decimal(n / 10).push(digit_char(n % 10))
    }
}

/// A version as it is written: the three numbers with dots between, then a
/// hyphen and the pre-release tag, then a plus and the build metadata, each
/// where there is one.
pub open spec fn version_text(v: VersionView) -> Seq<char> {
    decimal(v.major) + "."@ + decimal(v.minor) + "."@ + decimal(v.patch) + (if v.pre.len() > 0 {
        "-"@ + v.pre
    } else {
        Seq::<char>::empty()
    }) + (if v.build.len() > 0 {
        "+"@ + v.build
    } else {
        Seq::<char>::empty()
    })
}

/// Writes a number in decimal.
pub fn push_decimal(out: &mut String, n: u64)
    ensures
        final(out)@ == old(out)@ + decimal(n as nat),
    decreases n,
{
    let ghost before = out@;
    if n >= 10 {
        push_decimal(out, n / 10);
    }
    let d = n % 10;
    let c = if d == 0 {
        '0'
    } else if d == 1 {
        '1'
    } else if d == 2 {
        '2'
    } else if d == 3 {
        '3'
    } else if d == 4 {
        '4'
    } else if d == 5 {
        '5'
    } else if d == 6 {
        '6'
    } else if d == 7 {
        '7'
    } else if d == 8 {
        '8'
    } else {
        '9'
    };
    out.push(c);
    proof {
        if n >= 10 {
            assert(out@ =~= before + decimal((n / 10) as nat).push(c));
        } else {
            assert(out@ =~= before + seq![c]);
        }
    }
}

impl Version {
    /// The version as it is written.
    pub fn text(&self) -> (out: String)
        ensures
            out@ == version_text(self@),
    {
        let mut out = String::new();
        push_decimal(&mut out, self.major);
        out.append(".");
        push_decimal(&mut out, self.minor);
        out.append(".");
        push_decimal(&mut out, self.patch);
        let ghost head = out@;
        assert(head =~= decimal(self@.major) + "."@ + decimal(self@.minor) + "."@ + decimal(
            self@.patch,
        ));
        if !self.pre.as_str().is_empty() {
            out.append("-");
            out.append(self.pre.as_str());
        }
        let ghost mid = out@;
        assert(mid =~= head + (if self@.pre.len() > 0 {
            "-"@ + self@.pre
        } else {
            Seq::<char>::empty()
        }));
        if !self.build.as_str().is_empty() {
            out.append("+");
            out.append(self.build.as_str());
        }
        assert(out@ =~= mid + (if self@.build.len() > 0 {
            "+"@ + self@.build
        } else {
            Seq::<char>::empty()
        }));
        out
    }
}

/// What opens the name of a dependency: bold for a direct one, italic for a
/// conditional one.
pub open spec fn name_open(direct: bool, conditional: bool) -> Seq<char> {
    if direct && conditional {
        "**_"@
    } else if direct {
        "**"@
    } else if conditional {
        "_"@
    } else {
        ""@
    }
}

/// What closes the name of a dependency.
pub open spec fn name_close(direct: bool, conditional: bool) -> Seq<char> {
    if direct && conditional {
        "_**"@
    } else if direct {
        "**"@
    } else if conditional {
        "_"@
    } else {
        ""@
    }
}

/// The name of a dependency in its marks, as a link where it has an address.
pub open spec fn name_cell(d: Dependency) -> Seq<char> {
    let direct = carries(d.context, FLAG_DIRECT);
    let marked = name_open(direct, is_conditional(d)) + d.name@ + name_close(
        direct,
        is_conditional(d),
    );
    match d.url {
        Some(url) => "["@ + marked + "]("@ + url@ + ")"@,
        None => marked,
    }
}

/// The mark of a dependency that is only needed to build.
pub open spec fn build_mark(d: Dependency) -> Seq<char> {
    if build_only(d.context) {
        " ⚒️"@
    } else {
        ""@
    }
}

/// The row of a dependency: name, version, authors and license.
pub open spec fn row_text(d: Dependency) -> Seq<char> {
    "| "@ + name_cell(d) + build_mark(d) + " | "@ + version_text(d.version@) + " | "@ + oxford(
        strings_of(d.authors@),
        "and"@,
    ) + " | "@ + (match d.license {
        Some(l) => l@,
        None => ""@,
    }) + " |"@
}

impl Dependency {
    /// The row of the dependency in the table of credits.
    pub fn row(&self) -> (out: String)
        ensures
            out@ == row_text(*self),
    {
        let direct = self.direct();
        let conditional = self.conditional();
        let mut out = String::new();
        out.append("| ");
        let ghost s0 = out@;
        match &self.url {
            Some(_) => {
                out.append("[");
            },
            None => {},
        }
        let ghost s1 = out@;
        if direct && conditional {
            out.append("**_");
        } else if direct {
            out.append("**");
        } else if conditional {
            out.append("_");
        }
        out.append(self.name.as_str());
        if direct && conditional {
            out.append("_**");
        } else if direct {
            out.append("**");
        } else if conditional {
            out.append("_");
        }
        proof {
            let marked = name_open(direct, conditional) + self.name@ + name_close(direct, conditional);
            assert(""@ =~= Seq::<char>::empty()) by {
                reveal_strlit("");
            }
            assert(out@ =~= s1 + marked);
        }
        match &self.url {
            Some(url) => {
                out.append("](");
                out.append(url.as_str());
                out.append(")");
            },
            None => {},
        }
        let ghost s2 = out@;
        assert(s2 =~= s0 + name_cell(*self));
        if self.build() {
            out.append(" ⚒️");
        }
        let ghost s3 = out@;
        proof {
            assert(""@ =~= Seq::<char>::empty()) by {
                reveal_strlit("");
            }
            assert(s3 =~= s2 + build_mark(*self));
        }
        out.append(" | ");
        out.append(self.version.text().as_str());
        out.append(" | ");
        out.append(oxford_and(&self.authors).as_str());
        out.append(" | ");
        match &self.license {
            Some(l) => {
                out.append(l.as_str());
            },
            None => {},
        }
        out.append(" |");
        proof {
            assert(""@ =~= Seq::<char>::empty()) by {
                reveal_strlit("");
            }
            assert(out@ =~= row_text(*self));
        }
        out
    }
}

/// The rows of the dependencies, each on its line.
pub open spec fn rows_text(deps: Seq<Dependency>) -> Seq<char>
    decreases deps.len(),
{
    if deps.len() == 0 {
        Seq::<char>::empty()
    } else {
        rows_text(deps.drop_last()) + row_text(deps.last()) + "\n"@
    }
}

/// Some dependency is only needed to build.
pub open spec fn any_build(deps: Seq<Dependency>) -> bool {
    exists|i: int| 0 <= i < deps.len() && build_only(#[trigger] deps[i].context)
}

/// Some dependency is not direct.
pub open spec fn any_child(deps: Seq<Dependency>) -> bool {
    exists|i: int| 0 <= i < deps.len() && !carries(#[trigger] deps[i].context, FLAG_DIRECT)
}

/// The head of the page: the package, its version, the target where the page
/// is made for one, and when the page was made.
pub open spec fn head_text(
    name: Seq<char>,
    version: Seq<char>,
    target: Option<Seq<char>>,
    generated: Seq<char>,
) -> Seq<char> {
    "# Project Dependencies\n    Package:   "@ + name + "\n    Version:   "@ + version + (
    match target {
        Some(t) => "\n    Target:    "@ + t,
        None => Seq::<char>::empty(),
    }) + "\n    Generated: "@ + generated + " UTC\n\n"@
}

/// The legend for a table that shows build-only dependencies, dependencies
/// that are not direct, or conditional ones; nothing where it shows none of
/// them.
pub open spec fn legend_of(build: bool, children: bool, conditional: bool) -> Seq<char> {
    if build || children || conditional {
        "\n### Legend\n\n"@ + (if children {
            "* **Direct Dependency**\n* Child Dependency\n"@
        } else {
            Seq::<char>::empty()
        }) + (if conditional {
            "* _Optional Dependency_\n"@
        } else {
            Seq::<char>::empty()
        }) + (if build {
            "* ⚒️ Build-Only\n"@
        } else {
            Seq::<char>::empty()
        })
    } else {
        Seq::<char>::empty()
    }
}

/// The legend of a table: what the marks mean, for the marks that the table
/// shows. The conditional dependencies stand last in the table, so the last
/// one tells whether there are any.
pub open spec fn legend_text(deps: Seq<Dependency>) -> Seq<char> {
    if deps.len() > 0 {
        legend_of(any_build(deps), any_child(deps), is_conditional(deps.last()))
    } else {
        Seq::<char>::empty()
    }
}

/// The whole page.
pub open spec fn page_text(
    name: Seq<char>,
    version: Seq<char>,
    target: Option<Seq<char>>,
    generated: Seq<char>,
    deps: Seq<Dependency>,
) -> Seq<char> {
    head_text(name, version, target, generated) + (if deps.len() == 0 {
        "This project has no dependencies.\n"@
    } else {
        "| Package | Version | Author(s) | License |\n| ---- | ---- | ---- | ---- |\n"@
            + rows_text(deps) + legend_text(deps)
    })
}

/// The text of an optional string slice.
pub open spec fn opt_slice(o: Option<&str>) -> Option<Seq<char>> {
    match o {
        Some(s) => Some(s@),
        None => None,
    }
}

/// Writes the head of the page.
fn push_head(out: &mut String, name: &str, version: &str, target: Option<&str>, generated: &str)
    ensures
        final(out)@ == old(out)@ + head_text(name@, version@, opt_slice(target), generated@),
{
    let ghost before = out@;
    out.append("# Project Dependencies\n    Package:   ");
    out.append(name);
    out.append("\n    Version:   ");
    out.append(version);
    match target {
        Some(t) => {
            out.append("\n    Target:    ");
            out.append(t);
        },
        None => {},
    }
    out.append("\n    Generated: ");
    out.append(generated);
    out.append(" UTC\n\n");
    assert(out@ =~= before + head_text(name@, version@, opt_slice(target), generated@));
}

/// Writes the rows of the table, and tells whether some dependency is only
/// needed to build and whether some is not direct.
fn push_rows(out: &mut String, deps: &Vec<Dependency>) -> (r: (bool, bool))
    ensures
        final(out)@ == old(out)@ + rows_text(deps@),
        r.0 == any_build(deps@),
        r.1 == any_child(deps@),
{
    let ghost top = out@;
    let mut build = false;
    let mut children = false;
    let mut i: usize = 0;
    assert(deps@.take(0) =~= Seq::<Dependency>::empty());
    assert(out@ =~= top + rows_text(deps@.take(0)));
    while i < deps.len()
        invariant
            i <= deps@.len(),
            out@ == top + rows_text(deps@.take(i as int)),
            build == any_build(deps@.take(i as int)),
            children == any_child(deps@.take(i as int)),
        decreases deps@.len() - i,
    {
        let d = &deps[i];
        let ghost before = deps@.take(i as int);
        let ghost after = deps@.take(i + 1);
        assert(after.drop_last() =~= before);
        assert(after.last() == *d);
        proof {
            assert(after =~= before.push(*d));
            lemma_any_step(before, after, *d);
        }
        if d.build() {
            build = true;
        }
        if !d.direct() {
            children = true;
        }
        let row = d.row();
        let ghost text = out@;
        out.append(row.as_str());
        out.append("\n");
        assert(out@ =~= text + row_text(*d) + "\n"@);
        assert(out@ =~= top + rows_text(after));
        i += 1;
    }
    assert(deps@.take(deps@.len() as int) =~= deps@);
    (build, children)
}

proof fn lemma_any_step(before: Seq<Dependency>, after: Seq<Dependency>, d: Dependency)
    requires
        after == before.push(d),
    ensures
        any_build(after) == (any_build(before) || build_only(d.context)),
        any_child(after) == (any_child(before) || !carries(d.context, FLAG_DIRECT)),
{
    let n = before.len() as int;
    assert(after[n] == d);
    if any_build(before) {
        let j = choose|j: int| 0 <= j < before.len() && build_only(#[trigger] before[j].context);
        assert(build_only(after[j].context));
    }
    if any_build(after) {
        let j = choose|j: int| 0 <= j < after.len() && build_only(#[trigger] after[j].context);
        if j < n {
            assert(build_only(before[j].context));
        }
    }
    if build_only(d.context) {
        assert(build_only(after[n].context));
    }
    if any_child(before) {
        let j = choose|j: int|
            0 <= j < before.len() && !carries(#[trigger] before[j].context, FLAG_DIRECT);
        assert(!carries(after[j].context, FLAG_DIRECT));
    }
    if any_child(after) {
        let j = choose|j: int|
            0 <= j < after.len() && !carries(#[trigger] after[j].context, FLAG_DIRECT);
        if j < n {
            assert(!carries(before[j].context, FLAG_DIRECT));
        }
    }
    if !carries(d.context, FLAG_DIRECT) {
        assert(!carries(after[n].context, FLAG_DIRECT));
    }
}

/// Writes the legend.
fn push_legend(out: &mut String, build: bool, children: bool, conditional: bool)
    ensures
        final(out)@ == old(out)@ + legend_of(build, children, conditional),
{
    let ghost before = out@;
    if build || children || conditional {
        out.append("\n### Legend\n\n");
        if children {
            out.append("* **Direct Dependency**\n* Child Dependency\n");
        }
        if conditional {
            out.append("* _Optional Dependency_\n");
        }
        if build {
            out.append("* ⚒️ Build-Only\n");
        }
    }
    assert(out@ =~= before + legend_of(build, children, conditional));
}

/// Writes the credits page of a package: its name and version, the target
/// where the page is made for one, the time it is made at, and the table of
/// its dependencies with a legend.
pub fn render(
    name: &str,
    version: &str,
    target: Option<&str>,
    generated: &str,
    deps: &Vec<Dependency>,
) -> (out: String)
    ensures
        out@ == page_text(name@, version@, opt_slice(target), generated@, deps@),
{
    let mut out = String::new();
    push_head(&mut out, name, version, target, generated);
    let ghost head = out@;
    assert(head =~= head_text(name@, version@, opt_slice(target), generated@));
    if deps.len() == 0 {
        out.append("This project has no dependencies.\n");
        return out;
    }
    out.append("| Package | Version | Author(s) | License |\n| ---- | ---- | ---- | ---- |\n");
    let (build, children) = push_rows(&mut out, deps);
    let last = deps[deps.len() - 1].conditional();
    assert(deps@.last() == deps@[deps@.len() - 1]);
    push_legend(&mut out, build, children, last);
    out
}

} // verus!
