//! Text helpers: comparing, copying and tidying strings character by
//! character.

use vstd::prelude::*;
use vstd::string::StringExecFns;

verus! {

/// `String::push` appends the one character to the end of the string.
pub assume_specification[ String::push ](s: &mut String, c: char)
    ensures
        final(s)@ == old(s)@.push(c),
;

/// Whether two string slices hold the same characters.
pub fn str_eq(a: &str, b: &str) -> (r: bool)
    ensures
        r == (a@ == b@),
{
    let x = a.to_owned();
    let y = b.to_owned();
    x == y
}

/// The characters of a string, in order.
pub fn to_chars(s: &str) -> (out: Vec<char>)
    ensures
        out@ == s@,
{
    let mut out: Vec<char> = Vec::new();
    for c in it: s.chars()
        invariant
            it.seq() == s@,
            out@ == it.seq().take(it.index() as int),
    {
        out.push(c);
    }
    out
}

/// The string made of the given characters, in order.
pub fn from_chars(chars: &Vec<char>) -> (out: String)
    ensures
        out@ == chars@,
{
    let mut out = String::new();
    let mut i: usize = 0;
    while i < chars.len()
        invariant
            i <= chars.len(),
            out@ == chars@.take(i as int),
        decreases chars.len() - i,
    {
        out.push(chars[i]);
        i += 1;
    }
    out
}

/// Whether a character has Unicode's `White_Space` property.
pub uninterp spec fn white_space(c: char) -> bool;

/// Whether a character is a control code (Unicode's general category `Cc`).
pub uninterp spec fn control_code(c: char) -> bool;

/// `char::is_whitespace` tells whether the character has the `White_Space`
/// property.
pub assume_specification[ char::is_whitespace ](c: char) -> (r: bool)
    ensures
        r == white_space(c),
;

/// `char::is_control` tells whether the character is a control code.
pub assume_specification[ char::is_control ](c: char) -> (r: bool)
    ensures
        r == control_code(c),
;

/// The text without its leading white space.
pub open spec fn trim_start_of(s: Seq<char>) -> Seq<char>
    decreases s.len(),
{
    if s.len() > 0 && white_space(s[0]) {
        trim_start_of(s.drop_first())
    } else {
        s
    }
}

/// The text without its trailing white space.
pub open spec fn trim_end_of(s: Seq<char>) -> Seq<char>
    decreases s.len(),
{
    if s.len() > 0 && white_space(s.last()) {
        trim_end_of(s.drop_last())
    } else {
        s
    }
}

/// The text without its leading and trailing white space.
pub open spec fn trimmed(s: Seq<char>) -> Seq<char> {
    trim_end_of(trim_start_of(s))
}

/// The characters of `v` from `from` up to `to`.
pub fn slice_chars(v: &Vec<char>, from: usize, to: usize) -> (out: Vec<char>)
    requires
        from <= to <= v@.len(),
    ensures
        out@ == v@.subrange(from as int, to as int),
{
    let mut out: Vec<char> = Vec::new();
    let mut i: usize = from;
    while i < to
        invariant
            from <= i <= to,
            to <= v@.len(),
            out@ == v@.subrange(from as int, i as int),
        decreases to - i,
    {
        out.push(v[i]);
        assert(v@.subrange(from as int, i + 1) =~= v@.subrange(from as int, i as int).push(
            v@[i as int],
        ));
        i += 1;
    }
    out
}

/// Where the text starts once its leading white space is left out.
pub fn trim_start_at(v: &Vec<char>) -> (start: usize)
    ensures
        start <= v@.len(),
        v@.skip(start as int) == trim_start_of(v@),
{
    let mut start: usize = 0;
    assert(v@.skip(0) =~= v@);
    while start < v.len() && v[start].is_whitespace()
        invariant
            start <= v@.len(),
            trim_start_of(v@.skip(start as int)) == trim_start_of(v@),
        decreases v@.len() - start,
    {
        assert(v@.skip(start as int).drop_first() =~= v@.skip(start + 1));
        start += 1;
    }
    start
}

/// Where the text ends once its trailing white space is left out.
pub fn trim_end_at(v: &Vec<char>, start: usize) -> (end: usize)
    requires
        start <= v@.len(),
    ensures
        start <= end <= v@.len(),
        v@.subrange(start as int, end as int) == trim_end_of(v@.skip(start as int)),
{
    let mut end: usize = v.len();
    assert(v@.subrange(start as int, end as int) =~= v@.skip(start as int));
    while end > start && v[end - 1].is_whitespace()
        invariant
            start <= end <= v@.len(),
            trim_end_of(v@.subrange(start as int, end as int)) == trim_end_of(
                v@.skip(start as int),
            ),
        decreases end,
    {
        assert(v@.subrange(start as int, end as int).drop_last() =~= v@.subrange(
            start as int,
            end - 1,
        ));
        end -= 1;
    }
    end
}

/// The text without its leading and trailing white space.
pub fn trim_chars(v: &Vec<char>) -> (out: Vec<char>)
    ensures
        out@ == trimmed(v@),
{
    let start = trim_start_at(v);
    let end = trim_end_at(v, start);
    slice_chars(v, start, end)
}

/// Where a tidied text stands: nothing written yet, inside a word, or
/// after a word with white space seen since.
#[derive(Clone, Copy, Debug, PartialEq, Eq, Structural)]
pub enum Gap {
    /// Nothing has been written yet.
    Start,
    /// The last character read was written.
    Word,
    /// Something was written, and white space was read since.
    Space,
}

/// The tidy form of a text that is read in the state `st`: control codes
/// are left out, white space before the first word and after the last is
/// left out, and each run of white space between two words becomes one
/// space. A character that is both white space and a control code counts as
/// white space.
pub open spec fn tidy(s: Seq<char>, st: Gap) -> Seq<char>
    decreases s.len(),
{
    if s.len() == 0 {
        Seq::<char>::empty()
    } else if white_space(s[0]) {
        tidy(
            s.drop_first(),
            if st is Word {
                Gap::Space
            } else {
                st
            },
        )
    } else if control_code(s[0]) {
        tidy(s.drop_first(), st)
    } else if st is Space {
        seq![' ', s[0]] + tidy(s.drop_first(), Gap::Word)
    } else {
        seq![s[0]] + tidy(s.drop_first(), Gap::Word)
    }
}

/// The tidy form of a text.
pub open spec fn normalized(s: Seq<char>) -> Seq<char> {
    tidy(s, Gap::Start)
}

/// Tidies a text: see `tidy`.
pub fn normalize_chars(v: &Vec<char>) -> (out: Vec<char>)
    ensures
        out@ == normalized(v@),
{
    let mut out: Vec<char> = Vec::new();
    let mut st = Gap::Start;
    let mut i: usize = 0;
    assert(v@.skip(0) =~= v@);
    while i < v.len()
        invariant
            i <= v@.len(),
            out@ + tidy(v@.skip(i as int), st) == normalized(v@),
        decreases v@.len() - i,
    {
        let c = v[i];
        let ghost rest = v@.skip(i as int);
        let ghost before = out@;
        assert(rest[0] == c);
        assert(rest.drop_first() =~= v@.skip(i + 1));
        if c.is_whitespace() {
            match st {
                Gap::Word => {
                    st = Gap::Space;
                },
                _ => {},
            }
        } else if c.is_control() {
        } else {
            match st {
                Gap::Space => {
                    out.push(' ');
                    out.push(c);
                    assert(out@ =~= before + seq![' ', c]);
                },
                _ => {
                    out.push(c);
                    assert(out@ =~= before + seq![c]);
                },
            }
            assert(out@ + tidy(v@.skip(i + 1), Gap::Word) =~= before + tidy(rest, st));
            st = Gap::Word;
        }
        i += 1;
    }
    assert(out@ + Seq::<char>::empty() =~= out@);
    out
}

/// Compacts the white space of a string and strips its control codes, in
/// place: see `tidy`.
pub fn normalize_string(raw: &mut String)
    ensures
        final(raw)@ == normalized(old(raw)@),
{
    let chars = to_chars(raw.as_str());
    let out = normalize_chars(&chars);
    *raw = from_chars(&out);
}

/// What stands for a character in Markdown-safe text: its HTML entity where
/// Markdown could take the character for markup, else itself.
pub open spec fn entity(c: char) -> Seq<char> {
    if c == '#' {
        seq!['&', '#', '3', '5', ';']
    } else if c == '*' {
        seq!['&', '#', '4', '2', ';']
    } else if c == '<' {
        seq!['&', 'l', 't', ';']
    } else if c == '>' {
        seq!['&', 'g', 't', ';']
    } else if c == '[' {
        seq!['&', '#', '9', '1', ';']
    } else if c == ']' {
        seq!['&', '#', '9', '3', ';']
    } else if c == '^' {
        seq!['&', '#', '9', '4', ';']
    } else if c == '_' {
        seq!['&', '#', '9', '5', ';']
    } else if c == '`' {
        seq!['&', '#', '9', '6', ';']
    } else if c == '|' {
        seq!['&', '#', '1', '2', '4', ';']
    } else if c == '~' {
        seq!['&', '#', '1', '2', '6', ';']
    } else {
        seq![c]
    }
}

/// The text with each character replaced by what `entity` gives for it.
pub open spec fn escaped(s: Seq<char>) -> Seq<char>
    decreases s.len(),
{
    if s.len() == 0 {
        Seq::<char>::empty()
    } else {
        entity(s[0]) + escaped(s.drop_first())
    }
}

/// Writes the entity of a character code: `&#`, the two or three digits of
/// the code, and `;`.
pub fn push_code(out: &mut Vec<char>, a: char, b: char, c: Option<char>)
    ensures
        final(out)@ == old(out)@ + (match c {
            Some(d) => seq!['&', '#', a, b, d, ';'],
            None => seq!['&', '#', a, b, ';'],
        }),
{
    let ghost before = out@;
    out.push('&');
    out.push('#');
    out.push(a);
    out.push(b);
    match c {
        Some(d) => {
            out.push(d);
            out.push(';');
            assert(out@ =~= before + seq!['&', '#', a, b, d, ';']);
        },
        None => {
            out.push(';');
            assert(out@ =~= before + seq!['&', '#', a, b, ';']);
        },
    }
}

/// Writes what stands for `c` in Markdown-safe text.
pub fn push_entity(out: &mut Vec<char>, c: char)
    ensures
        final(out)@ == old(out)@ + entity(c),
{
    let ghost before = out@;
    if c == '#' {
        push_code(out, '3', '5', None);
    } else if c == '*' {
        push_code(out, '4', '2', None);
    } else if c == '<' {
        out.push('&');
        out.push('l');
        out.push('t');
        out.push(';');
        assert(out@ =~= before + seq!['&', 'l', 't', ';']);
    } else if c == '>' {
        out.push('&');
        out.push('g');
        out.push('t');
        out.push(';');
        assert(out@ =~= before + seq!['&', 'g', 't', ';']);
    } else if c == '[' {
        push_code(out, '9', '1', None);
    } else if c == ']' {
        push_code(out, '9', '3', None);
    } else if c == '^' {
        push_code(out, '9', '4', None);
    } else if c == '_' {
        push_code(out, '9', '5', None);
    } else if c == '`' {
        push_code(out, '9', '6', None);
    } else if c == '|' {
        push_code(out, '1', '2', Some('4'));
    } else if c == '~' {
        push_code(out, '1', '2', Some('6'));
    } else {
        out.push(c);
        assert(out@ =~= before + seq![c]);
    }
}

/// Replaces the characters that Markdown could take for markup by their
/// HTML entities.
pub fn escape_chars(v: &Vec<char>) -> (out: Vec<char>)
    ensures
        out@ == escaped(v@),
{
    let mut out: Vec<char> = Vec::new();
    let mut i: usize = 0;
    assert(v@.skip(0) =~= v@);
    while i < v.len()
        invariant
            i <= v@.len(),
            out@ + escaped(v@.skip(i as int)) == escaped(v@),
        decreases v@.len() - i,
    {
        let ghost rest = v@.skip(i as int);
        let ghost before = out@;
        assert(rest[0] == v@[i as int]);
        assert(rest.drop_first() =~= v@.skip(i + 1));
        push_entity(&mut out, v[i]);
        assert(out@ + escaped(v@.skip(i + 1)) =~= before + escaped(rest));
        i += 1;
    }
    assert(out@ + Seq::<char>::empty() =~= out@);
    out
}

/// Replaces, in place, the characters that Markdown could take for markup by
/// their HTML entities.
pub fn esc_markdown(raw: &mut String)
    ensures
        final(raw)@ == escaped(old(raw)@),
{
    let chars = to_chars(raw.as_str());
    let out = escape_chars(&chars);
    *raw = from_chars(&out);
}

/// Whether a character is one of `[ ] < > ( ) |`.
pub open spec fn markup(c: char) -> bool {
    c == '[' || c == ']' || c == '<' || c == '>' || c == '(' || c == ')' || c == '|'
}

/// Whether a character is `<` or `>`.
pub open spec fn angle(c: char) -> bool {
    c == '<' || c == '>'
}

/// The text without the characters that `drop` holds of.
pub open spec fn without(s: Seq<char>, drop: spec_fn(char) -> bool) -> Seq<char>
    decreases s.len(),
{
    if s.len() == 0 {
        Seq::<char>::empty()
    } else if drop(s[0]) {
        without(s.drop_first(), drop)
    } else {
        seq![s[0]] + without(s.drop_first(), drop)
    }
}

/// The text without the characters `[ ] < > ( ) |`.
pub fn strip_markup(v: &Vec<char>) -> (out: Vec<char>)
    ensures
        out@ == without(v@, |c: char| markup(c)),
{
    let ghost drop = |c: char| markup(c);
    let mut out: Vec<char> = Vec::new();
    let mut i: usize = 0;
    assert(v@.skip(0) =~= v@);
    while i < v.len()
        invariant
            i <= v@.len(),
            drop == (|c: char| markup(c)),
            out@ + without(v@.skip(i as int), drop) == without(v@, drop),
        decreases v@.len() - i,
    {
        let c = v[i];
        let ghost rest = v@.skip(i as int);
        let ghost before = out@;
        assert(rest[0] == c);
        assert(rest.drop_first() =~= v@.skip(i + 1));
        assert(drop(c) == markup(c));
        if !(c == '[' || c == ']' || c == '<' || c == '>' || c == '(' || c == ')' || c == '|') {
            out.push(c);
            assert(out@ + without(v@.skip(i + 1), drop) =~= before + without(rest, drop));
        }
        i += 1;
    }
    assert(out@ + Seq::<char>::empty() =~= out@);
    out
}

/// The text without the characters `<` and `>`.
pub fn strip_angles(v: &Vec<char>) -> (out: Vec<char>)
    ensures
        out@ == without(v@, |c: char| angle(c)),
{
    let ghost drop = |c: char| angle(c);
    let mut out: Vec<char> = Vec::new();
    let mut i: usize = 0;
    assert(v@.skip(0) =~= v@);
    while i < v.len()
        invariant
            i <= v@.len(),
            drop == (|c: char| angle(c)),
            out@ + without(v@.skip(i as int), drop) == without(v@, drop),
        decreases v@.len() - i,
    {
        let c = v[i];
        let ghost rest = v@.skip(i as int);
        let ghost before = out@;
        assert(rest[0] == c);
        assert(rest.drop_first() =~= v@.skip(i + 1));
        assert(drop(c) == angle(c));
        if !(c == '<' || c == '>') {
            out.push(c);
            assert(out@ + without(v@.skip(i + 1), drop) =~= before + without(rest, drop));
        }
        i += 1;
    }
    assert(out@ + Seq::<char>::empty() =~= out@);
    out
}

/// Takes the characters `[ ] < > ( ) |` out of a string and trims it, in
/// place.
pub fn strip_markdown(raw: &mut String)
    ensures
        final(raw)@ == trimmed(without(old(raw)@, |c: char| markup(c))),
{
    let chars = to_chars(raw.as_str());
    let kept = strip_markup(&chars);
    let out = trim_chars(&kept);
    *raw = from_chars(&out);
}

/// A name without `<` and `>` and trimmed, or nothing where that leaves
/// nothing.
pub fn nice_name(raw: &str) -> (out: Option<String>)
    ensures
        match out {
            Some(name) => name@ == trimmed(without(raw@, |c: char| angle(c))) && name@.len() > 0,
            None => trimmed(without(raw@, |c: char| angle(c))).len() == 0,
        },
{
    let chars = to_chars(raw);
    let kept = strip_angles(&chars);
    let out = trim_chars(&kept);
    if out.len() == 0 {
        None
    } else {
        Some(from_chars(&out))
    }
}

/// Whether a character is an ASCII letter.
pub open spec fn ascii_alpha(c: char) -> bool {
    ('a' <= c && c <= 'z') || ('A' <= c && c <= 'Z')
}

/// Whether a character is an ASCII letter or digit.
pub open spec fn ascii_alnum(c: char) -> bool {
    ascii_alpha(c) || ('0' <= c && c <= '9')
}

/// The lower-case form of an ASCII capital; any other character as it is.
pub open spec fn ascii_lower(c: char) -> char {
    if 'A' <= c && c <= 'Z' {
        ((c as u8) + 32) as char
    } else {
        c
    }
}

/// The text with its ASCII capitals in lower case.
pub open spec fn lowered(s: Seq<char>) -> Seq<char> {
    Seq::new(s.len(), |i: int| ascii_lower(s[i]))
}

/// Whether some character of the text is an ASCII letter.
pub open spec fn has_alpha(s: Seq<char>) -> bool {
    exists|i: int| 0 <= i < s.len() && ascii_alpha(#[trigger] s[i])
}

/// Whether a character is an ASCII letter.
pub fn is_alpha(c: char) -> (r: bool)
    ensures
        r == ascii_alpha(c),
{
    ('a' <= c && c <= 'z') || ('A' <= c && c <= 'Z')
}

/// Whether a character is an ASCII letter or digit.
pub fn is_alnum(c: char) -> (r: bool)
    ensures
        r == ascii_alnum(c),
{
    is_alpha(c) || ('0' <= c && c <= '9')
}

/// The lower-case form of an ASCII capital; any other character as it is.
pub fn to_lower(c: char) -> (r: char)
    ensures
        r == ascii_lower(c),
{
    if 'A' <= c && c <= 'Z' {
        let b: u8 = c as u8;
        (b + 32) as char
    } else {
        c
    }
}

/// The text with its ASCII capitals in lower case.
pub fn lower_chars(v: &Vec<char>) -> (out: Vec<char>)
    ensures
        out@ == lowered(v@),
{
    let mut out: Vec<char> = Vec::new();
    let mut i: usize = 0;
    while i < v.len()
        invariant
            i <= v@.len(),
            out@.len() == i,
            forall|j: int| 0 <= j < i ==> out@[j] == ascii_lower(v@[j]),
        decreases v@.len() - i,
    {
        out.push(to_lower(v[i]));
        i += 1;
    }
    assert(out@ =~= lowered(v@));
    out
}

/// Whether some character of the text is an ASCII letter.
pub fn any_alpha(v: &Vec<char>) -> (r: bool)
    ensures
        r == has_alpha(v@),
{
    let mut i: usize = 0;
    while i < v.len()
        invariant
            i <= v@.len(),
            forall|j: int| 0 <= j < i ==> !ascii_alpha(#[trigger] v@[j]),
        decreases v@.len() - i,
    {
        if is_alpha(v[i]) {
            return true;
        }
        i += 1;
    }
    false
}

/// The pieces of a text: what stands between the separators. A text
/// without a separator is one piece, and so is the empty text.
pub open spec fn pieces(s: Seq<char>, sep: char) -> Seq<Seq<char>>
    decreases s.len(),
{
    if s.len() == 0 {
        seq![Seq::<char>::empty()]
    } else if s.last() == sep {
        pieces(s.drop_last(), sep).push(Seq::<char>::empty())
    } else {
        let front = pieces(s.drop_last(), sep);
        front.update(front.len() - 1, front.last().push(s.last()))
    }
}

/// The texts of a list of character lists.
pub open spec fn chars_of(list: Seq<Vec<char>>) -> Seq<Seq<char>> {
    Seq::new(list.len(), |i: int| list[i]@)
}

/// Splits a text at each separator.
pub fn split_chars(v: &Vec<char>, sep: char) -> (out: Vec<Vec<char>>)
    ensures
        chars_of(out@) == pieces(v@, sep),
        out@.len() > 0,
{
    let mut out: Vec<Vec<char>> = Vec::new();
    let mut cur: Vec<char> = Vec::new();
    let mut i: usize = 0;
    assert(v@.take(0) =~= Seq::<char>::empty());
    assert(chars_of(out@).push(cur@) =~= pieces(v@.take(0), sep));
    while i < v.len()
        invariant
            i <= v@.len(),
            chars_of(out@).push(cur@) == pieces(v@.take(i as int), sep),
        decreases v@.len() - i,
    {
        let c = v[i];
        let ghost before = chars_of(out@).push(cur@);
        let ghost cur0 = cur@;
        assert(v@.take(i + 1).drop_last() =~= v@.take(i as int));
        assert(v@.take(i + 1).last() == c);
        if c == sep {
            out.push(cur);
            cur = Vec::new();
            assert(chars_of(out@) =~= before);
        } else {
            cur.push(c);
            assert(before.last() == cur0);
            assert(chars_of(out@).push(cur@) =~= before.update(
                before.len() - 1,
                before.last().push(c),
            ));
        }
        i += 1;
    }
    assert(v@.take(v@.len() as int) =~= v@);
    let ghost fin = chars_of(out@).push(cur@);
    out.push(cur);
    assert(chars_of(out@) =~= fin);
    out
}

/// What to strip from the ends of a text.
#[derive(Clone, Copy, Debug, PartialEq, Eq, Structural)]
pub enum Strip {
    /// Tab, line feed, form feed, carriage return and space.
    Blank,
    /// White space, `<` and `>`.
    Brackets,
    /// White space and `:`.
    Colons,
}

/// Whether a character is a tab, a line feed, a form feed, a carriage return
/// or a space.
pub open spec fn blank(c: char) -> bool {
    c == '\t' || c == '\n' || c == '\x0C' || c == '\r' || c == ' '
}

impl Strip {
    /// Whether the character is one to strip.
    pub open spec fn holds(self, c: char) -> bool {
        match self {
            Strip::Blank => blank(c),
            Strip::Brackets => white_space(c) || angle(c),
            Strip::Colons => white_space(c) || c == ':',
        }
    }

    /// Whether the character is one to strip.
    pub fn test(self, c: char) -> (r: bool)
        ensures
            r == self.holds(c),
    {
        match self {
            Strip::Blank => c == '\t' || c == '\n' || c == '\x0C' || c == '\r' || c == ' ',
            Strip::Brackets => c.is_whitespace() || c == '<' || c == '>',
            Strip::Colons => c.is_whitespace() || c == ':',
        }
    }
}

/// The text without the characters to strip at its start.
pub open spec fn strip_start(s: Seq<char>, what: Strip) -> Seq<char>
    decreases s.len(),
{
    if s.len() > 0 && what.holds(s[0]) {
        strip_start(s.drop_first(), what)
    } else {
        s
    }
}

/// The text without the characters to strip at its end.
pub open spec fn strip_end(s: Seq<char>, what: Strip) -> Seq<char>
    decreases s.len(),
{
    if s.len() > 0 && what.holds(s.last()) {
        strip_end(s.drop_last(), what)
    } else {
        s
    }
}

/// Where the text starts once the characters to strip are left out.
pub fn strip_start_at(v: &Vec<char>, what: Strip) -> (start: usize)
    ensures
        start <= v@.len(),
        v@.skip(start as int) == strip_start(v@, what),
{
    let mut start: usize = 0;
    assert(v@.skip(0) =~= v@);
    while start < v.len() && what.test(v[start])
        invariant
            start <= v@.len(),
            strip_start(v@.skip(start as int), what) == strip_start(v@, what),
        decreases v@.len() - start,
    {
        assert(v@.skip(start as int).drop_first() =~= v@.skip(start + 1));
        start += 1;
    }
    start
}

/// Where the text from `start` on ends once the characters to strip are
/// left out.
pub fn strip_end_at(v: &Vec<char>, start: usize, what: Strip) -> (end: usize)
    requires
        start <= v@.len(),
    ensures
        start <= end <= v@.len(),
        v@.subrange(start as int, end as int) == strip_end(v@.skip(start as int), what),
{
    let mut end: usize = v.len();
    assert(v@.subrange(start as int, end as int) =~= v@.skip(start as int));
    while end > start && what.test(v[end - 1])
        invariant
            start <= end <= v@.len(),
            strip_end(v@.subrange(start as int, end as int), what) == strip_end(
                v@.skip(start as int),
                what,
            ),
        decreases end,
    {
        assert(v@.subrange(start as int, end as int).drop_last() =~= v@.subrange(
            start as int,
            end - 1,
        ));
        end -= 1;
    }
    end
}

/// Takes the blanks off the start of a string, in place: tabs, line feeds,
/// form feeds, carriage returns and spaces.
pub fn trim_start(txt: &mut String)
    ensures
        final(txt)@ == strip_start(old(txt)@, Strip::Blank),
{
    let v = to_chars(txt.as_str());
    let start = strip_start_at(&v, Strip::Blank);
    let out = slice_chars(&v, start, v.len());
    assert(v@.subrange(start as int, v@.len() as int) =~= v@.skip(start as int));
    *txt = from_chars(&out);
}

/// Takes the blanks off the end of a string, in place.
pub fn trim_end(txt: &mut String)
    ensures
        final(txt)@ == strip_end(old(txt)@, Strip::Blank),
{
    let v = to_chars(txt.as_str());
    assert(v@.skip(0) =~= v@);
    let end = strip_end_at(&v, 0, Strip::Blank);
    let out = slice_chars(&v, 0, end);
    *txt = from_chars(&out);
}

/// Takes the blanks off both ends of a string, in place.
pub fn trim(txt: &mut String)
    ensures
        final(txt)@ == strip_end(strip_start(old(txt)@, Strip::Blank), Strip::Blank),
{
    trim_start(txt);
    trim_end(txt);
}

/// The texts one after the other, with the glue between each two.
pub open spec fn joined(list: Seq<Seq<char>>, glue: Seq<char>) -> Seq<char>
    decreases list.len(),
{
    if list.len() == 0 {
        Seq::<char>::empty()
    } else if list.len() == 1 {
        list[0]
    } else {
        joined(list.drop_last(), glue) + glue + list.last()
    }
}

/// The texts of a list of strings.
pub open spec fn strings_of(list: Seq<String>) -> Seq<Seq<char>> {
    Seq::new(list.len(), |i: int| list[i]@)
}

/// Joins the strings, with the glue between each two.
pub fn join(src: &[String], glue: &str) -> (out: String)
    ensures
        out@ == joined(strings_of(src@), glue@),
{
    let ghost all = strings_of(src@);
    let mut out = String::new();
    let mut i: usize = 0;
    assert(all.take(0) =~= Seq::<Seq<char>>::empty());
    while i < src.len()
        invariant
            i <= src@.len(),
            all == strings_of(src@),
            out@ == joined(all.take(i as int), glue@),
        decreases src@.len() - i,
    {
        let ghost before = out@;
        assert(all.take(i + 1).drop_last() =~= all.take(i as int));
        assert(all.take(i + 1).last() == src@[i as int]@);
        if i > 0 {
            out.append(glue);
        }
        out.append(src[i].as_str());
        proof {
            if i == 0 {
                assert(out@ =~= src@[0]@);
                assert(all.take(1)[0] == src@[0]@);
            }
        }
        i += 1;
    }
    assert(all.take(all.len() as int) =~= all);
    out
}

} // verus!
