//! Author lines: a name, or a name and an e-mail address in angle
//! brackets, made ready for a Markdown table.

use vstd::prelude::*;
use crate::text::{
    any_alpha, ascii_lower, escape_chars, escaped, from_chars, has_alpha, normalize_chars,
    normalized, push_code, slice_chars, strip_end, strip_end_at, strip_start, strip_start_at,
    to_chars,
    to_lower, trim_chars, trimmed, Strip,
};

verus! {

/// What `Domain::email_parts` makes of an address: the local part and the
/// host, each in its normal form; nothing where the text is no address with
/// a known public suffix.
pub uninterp spec fn psl_email_parts(src: Seq<char>) -> Option<(Seq<char>, Seq<char>)>;

/// `adbyss_psl::Domain::email_parts` splits an e-mail address into its local
/// part and its host and puts both in their normal form. Its result depends
/// on the text alone.
#[verifier::external_body]
fn email_parts(src: &str) -> (r: Option<(String, String)>)
    ensures
        match r {
            Some((local, host)) => psl_email_parts(src@) == Some((local@, host@)),
            None => psl_email_parts(src@) is None,
        },
{
    match adbyss_psl::Domain::email_parts(src) {
        Some((local, host)) => Some((local.into_owned(), host.into_owned())),
        None => None,
    }
}

/// `i` is the first place of `c` in `s`.
pub open spec fn is_first(s: Seq<char>, c: char, i: int) -> bool {
    &&& 0 <= i < s.len()
    &&& s[i] == c
    &&& forall|j: int| 0 <= j < i ==> s[j] != c
}

/// `i` is the last place of `c` in `s`.
pub open spec fn is_last(s: Seq<char>, c: char, i: int) -> bool {
    &&& 0 <= i < s.len()
    &&& s[i] == c
    &&& forall|j: int| i < j < s.len() ==> s[j] != c
}

/// The first place of `c` in `s`, where there is one.
pub open spec fn first_of(s: Seq<char>, c: char) -> int {
    choose|i: int| is_first(s, c, i)
}

/// The last place of `c` in `s`, where there is one.
pub open spec fn last_of(s: Seq<char>, c: char) -> int {
    choose|i: int| is_last(s, c, i)
}

/// The first place of `c` in `v`.
pub fn find_first(v: &Vec<char>, c: char) -> (r: Option<usize>)
    ensures
        match r {
            Some(i) => is_first(v@, c, i as int) && first_of(v@, c) == i,
            None => forall|j: int| 0 <= j < v@.len() ==> v@[j] != c,
        },
{
    let mut i: usize = 0;
    while i < v.len()
        invariant
            i <= v@.len(),
            forall|j: int| 0 <= j < i ==> v@[j] != c,
        decreases v@.len() - i,
    {
        if v[i] == c {
            proof {
                let k = first_of(v@, c);
                assert(is_first(v@, c, i as int));
                assert(is_first(v@, c, k));
                if k < i {
                    assert(v@[k] != c);
                }
                if i < k {
                    assert(v@[i as int] != c);
                }
            }
            return Some(i);
        }
        i += 1;
    }
    None
}

/// The last place of `c` in `v`.
pub fn find_last(v: &Vec<char>, c: char) -> (r: Option<usize>)
    ensures
        match r {
            Some(i) => is_last(v@, c, i as int) && last_of(v@, c) == i,
            None => forall|j: int| 0 <= j < v@.len() ==> v@[j] != c,
        },
{
    let mut i: usize = v.len();
    while i > 0
        invariant
            i <= v@.len(),
            forall|j: int| i <= j < v@.len() ==> v@[j] != c,
        decreases i,
    {
        i -= 1;
        if v[i] == c {
            proof {
                let k = last_of(v@, c);
                assert(is_last(v@, c, i as int));
                assert(is_last(v@, c, k));
                if k < i {
                    assert(v@[i as int] != c);
                }
                if i < k {
                    assert(v@[k] != c);
                }
            }
            return Some(i);
        }
    }
    None
}

/// What stands for a character of the local part of an address: its HTML
/// entity where the character could be taken for markup, else itself.
pub open spec fn email_entity(c: char) -> Seq<char> {
    if c == '#' {
        seq!['&', '#', '3', '5', ';']
    } else if c == '%' {
        seq!['&', '#', '3', '7', ';']
    } else if c == '&' {
        seq!['&', '#', '3', '8', ';']
    } else if c == '*' {
        seq!['&', '#', '4', '2', ';']
    } else if c == '+' {
        seq!['&', '#', '4', '3', ';']
    } else if c == '/' {
        seq!['&', '#', '4', '7', ';']
    } else if c == '=' {
        seq!['&', '#', '6', '1', ';']
    } else if c == '?' {
        seq!['&', '#', '6', '3', ';']
    } else if c == '^' {
        seq!['&', '#', '9', '4', ';']
    } else if c == '_' {
        seq!['&', '#', '9', '5', ';']
    } else if c == '`' {
        seq!['&', '#', '9', '6', ';']
    } else if c == '|' {
        seq!['&', '#', '1', '2', '4', ';']
    } else if c == '~' {
        seq!['&', '#', '1', '2', '6', ';']
    } else {
        seq![c]
    }
}

/// The local part with each character replaced by what `email_entity` gives
/// for it.
pub open spec fn email_escaped(s: Seq<char>) -> Seq<char>
    decreases s.len(),
{
    if s.len() == 0 {
        Seq::<char>::empty()
    } else {
        email_entity(s[0]) + email_escaped(s.drop_first())
    }
}

/// The address made of a local part and a host: the local part escaped, `@`,
/// and the host as it is.
pub open spec fn email_text(local: Seq<char>, host: Seq<char>) -> Seq<char> {
    email_escaped(local) + seq!['@'] + host
}

/// Writes what stands for a character of the local part of an address.
fn push_email_entity(out: &mut Vec<char>, c: char)
    ensures
        final(out)@ == old(out)@ + email_entity(c),
{
    let ghost before = out@;
    if c == '#' {
        push_code(out, '3', '5', None);
    } else if c == '%' {
        push_code(out, '3', '7', None);
    } else if c == '&' {
        push_code(out, '3', '8', None);
    } else if c == '*' {
        push_code(out, '4', '2', None);
    } else if c == '+' {
        push_code(out, '4', '3', None);
    } else if c == '/' {
        push_code(out, '4', '7', None);
    } else if c == '=' {
        push_code(out, '6', '1', None);
    } else if c == '?' {
        push_code(out, '6', '3', None);
    } else if c == '^' {
        push_code(out, '9', '4', None);
    } else if c == '_' {
        push_code(out, '9', '5', None);
    } else if c == '`' {
        push_code(out, '9', '6', None);
    } else if c == '|' {
        push_code(out, '1', '2', Some('4'));
    } else if c == '~' {
        push_code(out, '1', '2', Some('6'));
    } else {
        out.push(c);
        assert(out@ =~= before + seq![c]);
    }
}

/// Appends the characters of `more` to `out`.
pub fn push_all(out: &mut Vec<char>, more: &Vec<char>)
    ensures
        final(out)@ == old(out)@ + more@,
{
    let ghost before = out@;
    let mut i: usize = 0;
    while i < more.len()
        invariant
            i <= more@.len(),
            out@ == before + more@.take(i as int),
        decreases more@.len() - i,
    {
        out.push(more[i]);
        assert(before + more@.take(i + 1) =~= (before + more@.take(i as int)).push(more@[i as int]));
        i += 1;
    }
    assert(more@.take(more@.len() as int) =~= more@);
}

/// The address made of a local part and a host, ready for Markdown.
pub fn esc_email(local: &str, host: &str) -> (out: Vec<char>)
    ensures
        out@ == email_text(local@, host@),
{
    let l = to_chars(local);
    let h = to_chars(host);
    let mut out: Vec<char> = Vec::new();
    let mut i: usize = 0;
    assert(l@.skip(0) =~= l@);
    while i < l.len()
        invariant
            i <= l@.len(),
            out@ + email_escaped(l@.skip(i as int)) == email_escaped(l@),
        decreases l@.len() - i,
    {
        let ghost rest = l@.skip(i as int);
        let ghost before = out@;
        assert(rest[0] == l@[i as int]);
        assert(rest.drop_first() =~= l@.skip(i + 1));
        push_email_entity(&mut out, l[i]);
        assert(out@ + email_escaped(l@.skip(i + 1)) =~= before + email_escaped(rest));
        i += 1;
    }
    assert(out@ + Seq::<char>::empty() =~= out@);
    out.push('@');
    push_all(&mut out, &h);
    assert(out@ =~= email_text(local@, host@));
    out
}

/// An author without an address: the text escaped and tidied where it holds
/// a letter, else nothing.
pub open spec fn plain_form(t: Seq<char>) -> Seq<char> {
    if has_alpha(t) {
        normalized(escaped(t))
    } else {
        Seq::<char>::empty()
    }
}

/// The opening of a Markdown link to an address, after the name.
pub open spec fn mailto() -> Seq<char> {
    seq![']', '(', 'm', 'a', 'i', 'l', 't', 'o', ':']
}

/// An author given as the text before the brackets and what the address in
/// the brackets was found to be. With an address: `[name](mailto:address)`,
/// or `<address>` where the name is empty once escaped and tidied. Without:
/// the text before the brackets as a plain author.
pub open spec fn author_form(name: Seq<char>, email: Option<(Seq<char>, Seq<char>)>) -> Seq<char> {
    match email {
        Some((local, host)) => {
            let n = normalized(escaped(name));
            let e = email_text(local, host);
            if n.len() == 0 {
                seq!['<'] + e + seq!['>']
            } else {
                seq!['['] + n + mailto() + e + seq![')']
            }
        },
        None => plain_form(name),
    }
}

/// Whether the trimmed text has a `<` whose first place is before the last
/// place of a `>`.
pub open spec fn bracketed(t: Seq<char>) -> bool {
    exists|a: int, b: int| is_first(t, '<', a) && is_last(t, '>', b) && a < b
}

/// What an author line becomes.
pub open spec fn author_text(s: Seq<char>) -> Seq<char> {
    let t = trimmed(s);
    if bracketed(t) {
        let a = first_of(t, '<');
        let b = last_of(t, '>');
        author_form(t.take(a), psl_email_parts(t.subrange(a + 1, b)))
    } else {
        plain_form(t)
    }
}

/// An author without an address.
pub fn plain_author(chars: &Vec<char>) -> (out: Vec<char>)
    ensures
        out@ == plain_form(chars@),
{
    if any_alpha(chars) {
        let e = escape_chars(chars);
        normalize_chars(&e)
    } else {
        Vec::new()
    }
}

/// An author from the text before the brackets and what the address in the
/// brackets was found to be: see `author_form`.
pub fn author_line(name: &Vec<char>, email: Option<(String, String)>) -> (out: Vec<char>)
    ensures
        out@ == author_form(
            name@,
            match email {
                Some((local, host)) => Some((local@, host@)),
                None => None,
            },
        ),
{
    match email {
        Some((local, host)) => {
            let e = escape_chars(name);
            let n = normalize_chars(&e);
            let addr = esc_email(local.as_str(), host.as_str());
            let mut out: Vec<char> = Vec::new();
            if n.len() == 0 {
                out.push('<');
                push_all(&mut out, &addr);
                out.push('>');
                assert(out@ =~= seq!['<'] + addr@ + seq!['>']);
            } else {
                out.push('[');
                push_all(&mut out, &n);
                out.push(']');
                out.push('(');
                out.push('m');
                out.push('a');
                out.push('i');
                out.push('l');
                out.push('t');
                out.push('o');
                out.push(':');
                push_all(&mut out, &addr);
                out.push(')');
                assert(out@ =~= seq!['['] + n@ + mailto() + addr@ + seq![')']);
            }
            out
        },
        None => plain_author(name),
    }
}

/// Tidies an author line, in place. A line of the form `name <address>`
/// becomes a Markdown link where the address is one; any other line is
/// escaped and tidied, and emptied where it holds no letter.
pub fn nice_author(raw: &mut String)
    ensures
        final(raw)@ == author_text(old(raw)@),
{
    let all = to_chars(raw.as_str());
    let chars = trim_chars(&all);
    let first = find_first(&chars, '<');
    let last = find_last(&chars, '>');
    let out = match (first, last) {
        (Some(a), Some(b)) => {
            if a < b {
                assert(bracketed(chars@));
                let inner = slice_chars(&chars, a + 1, b);
                let name = slice_chars(&chars, 0, a);
                assert(name@ =~= chars@.take(a as int));
                let text = from_chars(&inner);
                let email = email_parts(text.as_str());
                author_line(&name, email)
            } else {
                proof {
                    lemma_not_bracketed(chars@, a as int, b as int);
                }
                plain_author(&chars)
            }
        },
        _ => {
            assert(!bracketed(chars@));
            plain_author(&chars)
        },
    };
    *raw = from_chars(&out);
}

proof fn lemma_not_bracketed(t: Seq<char>, a: int, b: int)
    requires
        is_first(t, '<', a),
        is_last(t, '>', b),
        a >= b,
    ensures
        !bracketed(t),
{
    if bracketed(t) {
        let (x, y) = choose|x: int, y: int| is_first(t, '<', x) && is_last(t, '>', y) && x < y;
        if x < a {
            assert(t[x] != '<');
        }
        if a < x {
            assert(t[a] != '<');
        }
        if y < b {
            assert(t[b] != '>');
        }
        if b < y {
            assert(t[y] != '>');
        }
    }
}

/// The author lines as they come out: each line tidied, and the lines that
/// come out empty left out.
pub open spec fn authors_text(lines: Seq<String>) -> Seq<Seq<char>>
    decreases lines.len(),
{
    if lines.len() == 0 {
        Seq::<Seq<char>>::empty()
    } else if author_text(lines.last()@).len() == 0 {
        authors_text(lines.drop_last())
    } else {
        authors_text(lines.drop_last()).push(author_text(lines.last()@))
    }
}

/// The texts of a list of strings.
pub open spec fn texts(list: Seq<String>) -> Seq<Seq<char>> {
    Seq::new(list.len(), |i: int| list[i]@)
}

/// Tidies a list of author lines and leaves out those that come out empty.
pub fn deserialize_authors(lines: &Vec<String>) -> (out: Vec<String>)
    ensures
        texts(out@) == authors_text(lines@),
{
    let mut out: Vec<String> = Vec::new();
    let mut i: usize = 0;
    assert(texts(out@) =~= authors_text(lines@.take(0)));
    while i < lines.len()
        invariant
            i <= lines@.len(),
            texts(out@) == authors_text(lines@.take(i as int)),
        decreases lines@.len() - i,
    {
        let mut line = lines[i].clone();
        nice_author(&mut line);
        let ghost before = out@;
        let ghost pre = lines@.take(i as int);
        let ghost now = lines@.take(i + 1);
        assert(now.drop_last() =~= pre);
        assert(now.last() == lines@[i as int]);
        if !line.as_str().is_empty() {
            out.push(line);
            assert(texts(out@) =~= texts(before).push(line@));
        }
        i += 1;
    }
    assert(lines@.take(lines@.len() as int) =~= lines@);
    out
}

/// The host that `Domain::new` makes of a text: lower-case ASCII, with a
/// known public suffix; nothing where the text is no such host.
pub uninterp spec fn psl_host(src: Seq<char>) -> Option<Seq<char>>;

/// `adbyss_psl::Domain::new` reads a host name and puts it in its normal
/// form; the host is handed on as `Domain::as_str` gives it. Its result
/// depends on the text alone.
#[verifier::external_body]
fn domain_host(src: &str) -> (r: Option<String>)
    ensures
        match r {
            Some(host) => psl_host(src@) == Some(host@),
            None => psl_host(src@) is None,
        },
{
    match adbyss_psl::Domain::new(src) {
        Some(d) => Some(d.as_str().to_owned()),
        None => None,
    }
}

/// Whether a character may stand in the user part of an address: an ASCII
/// letter or digit, `.`, `+`, `-` or `_`.
pub open spec fn user_char(c: char) -> bool {
    ('a' <= c && c <= 'z') || ('A' <= c && c <= 'Z') || ('0' <= c && c <= '9') || c == '.' || c
        == '+' || c == '-' || c == '_'
}

/// Whether the text is a user part: not empty, and of such characters only.
pub open spec fn user_ok(user: Seq<char>) -> bool {
    &&& user.len() > 0
    &&& forall|i: int| 0 <= i < user.len() ==> user_char(#[trigger] user[i])
}

/// The address made of a user part and what its host was found to be: the
/// user part in lower case, `@`, and the host. Nothing where the user part is
/// none or the host was not found.
pub open spec fn email_form(user: Seq<char>, host: Option<Seq<char>>) -> Option<Seq<char>> {
    match host {
        Some(h) => if user_ok(user) {
            Some(Seq::new(user.len(), |i: int| ascii_lower(user[i])) + seq!['@'] + h)
        } else {
            None
        },
        None => None,
    }
}

/// The text of an address without what stands around it: white space, `<`
/// and `>` at both ends.
pub open spec fn email_core(s: Seq<char>) -> Seq<char> {
    strip_end(strip_start(s, Strip::Brackets), Strip::Brackets)
}

/// What a suspected address becomes: the core is parted at its first `@`
/// into user and host, neither empty, and the host is looked up.
pub open spec fn email_of(s: Seq<char>) -> Option<Seq<char>> {
    let t = email_core(s);
    if exists|i: int| is_first(t, '@', i) {
        let i = first_of(t, '@');
        if i == 0 || i == t.len() - 1 {
            None
        } else {
            email_form(t.take(i), psl_host(t.skip(i + 1)))
        }
    } else {
        None
    }
}

/// The address made of a user part and what its host was found to be: see
/// `email_form`.
pub fn email_line(user: &Vec<char>, host: Option<String>) -> (out: Option<String>)
    ensures
        (match out {
            Some(text) => Some(text@),
            None => None,
        }) == email_form(
            user@,
            match host {
                Some(h) => Some(h@),
                None => None,
            },
        ),
{
    let host = match host {
        Some(h) => h,
        None => {
            return None;
        },
    };
    if user.len() == 0 {
        return None;
    }
    let mut out: Vec<char> = Vec::new();
    let mut i: usize = 0;
    while i < user.len()
        invariant
            i <= user@.len(),
            out@.len() == i,
            forall|j: int| 0 <= j < i ==> user_char(#[trigger] user@[j]),
            forall|j: int| 0 <= j < i ==> out@[j] == ascii_lower(user@[j]),
        decreases user@.len() - i,
    {
        let c = user[i];
        let ok = ('a' <= c && c <= 'z') || ('A' <= c && c <= 'Z') || ('0' <= c && c <= '9') || c
            == '.' || c == '+' || c == '-' || c == '_';
        if !ok {
            assert(!user_char(user@[i as int]));
            return None;
        }
        out.push(to_lower(c));
        i += 1;
    }
    let ghost low = out@;
    assert(low =~= Seq::new(user@.len(), |i: int| ascii_lower(user@[i])));
    out.push('@');
    let h = to_chars(host.as_str());
    push_all(&mut out, &h);
    assert(out@ =~= low + seq!['@'] + host@);
    Some(from_chars(&out))
}

/// Checks a suspected e-mail address. What stands around it is taken off;
/// the user part must be made of ASCII letters and digits, `.`, `+`, `-` and
/// `_`, and is put in lower case; the host must be one with a known public
/// suffix, and is put in its normal form.
pub fn nice_email(raw: &str) -> (out: Option<String>)
    ensures
        (match out {
            Some(text) => Some(text@),
            None => None,
        }) == email_of(raw@),
{
    let all = to_chars(raw);
    let start = strip_start_at(&all, Strip::Brackets);
    let end = strip_end_at(&all, start, Strip::Brackets);
    let chars = slice_chars(&all, start, end);
    assert(chars@ == email_core(raw@));
    match find_first(&chars, '@') {
        Some(i) => {
            if i == 0 || i == chars.len() - 1 {
                return None;
            }
            let user = slice_chars(&chars, 0, i);
            let rest = slice_chars(&chars, i + 1, chars.len());
            assert(user@ =~= chars@.take(i as int));
            assert(rest@ =~= chars@.skip(i + 1));
            let text = from_chars(&rest);
            let host = domain_host(text.as_str());
            email_line(&user, host)
        },
        None => {
            assert(!exists|i: int| is_first(chars@, '@', i));
            None
        },
    }
}

} // verus!
