//! License texts.

use vstd::prelude::*;
use crate::list::{insert_text, is_sorted_set, lemma_sorted_set, sorted_set};
use crate::text::{
    any_alpha, chars_of, escape_chars, escaped, from_chars, has_alpha, markup, normalize_chars,
    normalized, pieces, split_chars, strings_of, strip_markup, to_chars, trim_chars, trimmed,
    without,
};

verus! {

/// The text with each `/` replaced by ` OR `.
pub open spec fn or_slashes(s: Seq<char>) -> Seq<char>
    decreases s.len(),
{
    if s.len() == 0 {
        Seq::<char>::empty()
    } else if s[0] == '/' {
        seq![' ', 'O', 'R', ' '] + or_slashes(s.drop_first())
    } else {
        seq![s[0]] + or_slashes(s.drop_first())
    }
}

/// What a license text becomes: escaped for Markdown, with ` OR ` for each
/// `/`, and tidied.
pub open spec fn license_text(s: Seq<char>) -> Seq<char> {
    normalized(or_slashes(escaped(s)))
}

/// Replaces each `/` by ` OR `.
pub fn replace_slashes(v: &Vec<char>) -> (out: Vec<char>)
    ensures
        out@ == or_slashes(v@),
{
    let mut out: Vec<char> = Vec::new();
    let mut i: usize = 0;
    assert(v@.skip(0) =~= v@);
    while i < v.len()
        invariant
            i <= v@.len(),
            out@ + or_slashes(v@.skip(i as int)) == or_slashes(v@),
        decreases v@.len() - i,
    {
        let c = v[i];
        let ghost rest = v@.skip(i as int);
        let ghost before = out@;
        assert(rest[0] == c);
        assert(rest.drop_first() =~= v@.skip(i + 1));
        if c == '/' {
            out.push(' ');
            out.push('O');
            out.push('R');
            out.push(' ');
            assert(out@ =~= before + seq![' ', 'O', 'R', ' ']);
        } else {
            out.push(c);
            assert(out@ =~= before + seq![c]);
        }
        assert(out@ + or_slashes(v@.skip(i + 1)) =~= before + or_slashes(rest));
        i += 1;
    }
    assert(out@ + Seq::<char>::empty() =~= out@);
    out
}

/// Makes a license text ready for a Markdown table: nothing where the text
/// holds no ASCII letter or comes out empty, else the text escaped, with
/// ` OR ` for each `/`, and tidied.
pub fn deserialize_license(raw: &str) -> (out: Option<String>)
    ensures
        match out {
            Some(text) => has_alpha(raw@) && text@ == license_text(raw@) && text@.len() > 0,
            None => !has_alpha(raw@) || license_text(raw@).len() == 0,
        },
{
    let chars = to_chars(raw);
    if !any_alpha(&chars) {
        return None;
    }
    let e = escape_chars(&chars);
    let r = replace_slashes(&e);
    let n = normalize_chars(&r);
    if n.len() == 0 {
        None
    } else {
        Some(from_chars(&n))
    }
}

/// The text with each ` OR ` replaced by `/`, from the left.
pub open spec fn ors_to_slash(s: Seq<char>) -> Seq<char>
    decreases s.len(),
{
    if s.len() == 0 {
        Seq::<char>::empty()
    } else if s.len() >= 4 && s[0] == ' ' && s[1] == 'O' && s[2] == 'R' && s[3] == ' ' {
        seq!['/'] + ors_to_slash(s.skip(4))
    } else {
        seq![s[0]] + ors_to_slash(s.drop_first())
    }
}

/// The pieces that are not empty once trimmed, trimmed.
pub open spec fn kept_items(parts: Seq<Seq<char>>) -> Seq<Seq<char>>
    decreases parts.len(),
{
    if parts.len() == 0 {
        Seq::<Seq<char>>::empty()
    } else if trimmed(parts.last()).len() == 0 {
        kept_items(parts.drop_last())
    } else {
        kept_items(parts.drop_last()).push(trimmed(parts.last()))
    }
}

/// The licenses that a text names: the text, with `/` for each ` OR ` and
/// without the characters `[ ] < > ( ) |`, is parted at each `/`; the parts
/// are trimmed, and the empty ones left out.
pub open spec fn license_items(s: Seq<char>) -> Seq<Seq<char>> {
    kept_items(pieces(without(ors_to_slash(s), |c: char| markup(c)), '/'))
}

/// The texts, each followed by a comma and a space.
pub open spec fn with_commas(list: Seq<Seq<char>>) -> Seq<char>
    decreases list.len(),
{
    if list.len() == 0 {
        Seq::<char>::empty()
    } else {
        with_commas(list.drop_last()) + list.last() + seq![',', ' ']
    }
}

/// The texts joined as a list in a sentence: nothing for none, the text
/// itself for one, `a word b` for two, and `a, b, word c` for more.
pub open spec fn oxford(list: Seq<Seq<char>>, word: Seq<char>) -> Seq<char> {
    if list.len() == 0 {
        Seq::<char>::empty()
    } else if list.len() == 1 {
        list[0]
    } else if list.len() == 2 {
        list[0] + seq![' '] + word + seq![' '] + list[1]
    } else {
        with_commas(list.drop_last()) + word + seq![' '] + list.last()
    }
}

/// `oxford_join::OxfordJoin::oxford_or` joins a list of texts with `or`:
/// nothing for none, the text itself for one, `a or b` for two, and
/// `a, b, or c` for more.
#[verifier::external_body]
fn oxford_or(list: &Vec<String>) -> (r: String)
    ensures
        r@ == oxford(strings_of(list@), "or"@),
{
    oxford_join::OxfordJoin::oxford_or(list.as_slice()).into_owned()
}

/// Replaces each ` OR ` by `/`.
pub fn replace_ors(v: &Vec<char>) -> (out: Vec<char>)
    ensures
        out@ == ors_to_slash(v@),
{
    let mut out: Vec<char> = Vec::new();
    let mut i: usize = 0;
    assert(v@.skip(0) =~= v@);
    while i < v.len()
        invariant
            i <= v@.len(),
            out@ + ors_to_slash(v@.skip(i as int)) == ors_to_slash(v@),
        decreases v@.len() - i,
    {
        let ghost rest = v@.skip(i as int);
        let ghost before = out@;
        assert(rest[0] == v@[i as int]);
        if v.len() - i >= 4 && v[i] == ' ' && v[i + 1] == 'O' && v[i + 2] == 'R' && v[i + 3] == ' ' {
            assert(rest[1] == v@[i + 1] && rest[2] == v@[i + 2] && rest[3] == v@[i + 3]);
            assert(rest.skip(4) =~= v@.skip(i + 4));
            out.push('/');
            assert(out@ + ors_to_slash(v@.skip(i + 4)) =~= before + ors_to_slash(rest));
            i += 4;
        } else {
            proof {
                if rest.len() >= 4 {
                    assert(rest[1] == v@[i + 1] && rest[2] == v@[i + 2] && rest[3] == v@[i + 3]);
                }
            }
            assert(rest.drop_first() =~= v@.skip(i + 1));
            out.push(v[i]);
            assert(out@ + ors_to_slash(v@.skip(i + 1)) =~= before + ors_to_slash(rest));
            i += 1;
        }
    }
    assert(out@ + Seq::<char>::empty() =~= out@);
    out
}

/// The licenses that a text names, in order, each once.
pub fn license_list(raw: &str) -> (out: Vec<String>)
    ensures
        is_sorted_set(strings_of(out@), license_items(raw@)),
        strings_of(out@) == sorted_set(license_items(raw@)),
{
    let chars = to_chars(raw);
    let slashed = replace_ors(&chars);
    let plain = strip_markup(&slashed);
    let parts = split_chars(&plain, '/');
    let ghost all = chars_of(parts@);
    let mut list: Vec<Vec<char>> = Vec::new();
    let mut i: usize = 0;
    assert(all.take(0) =~= Seq::<Seq<char>>::empty());
    while i < parts.len()
        invariant
            i <= parts@.len(),
            all == chars_of(parts@),
            is_sorted_set(chars_of(list@), kept_items(all.take(i as int))),
        decreases parts@.len() - i,
    {
        let ghost before = chars_of(list@);
        let ghost done = kept_items(all.take(i as int));
        assert(all.take(i + 1).drop_last() =~= all.take(i as int));
        assert(all.take(i + 1).last() == parts@[i as int]@);
        let item = trim_chars(&parts[i]);
        if item.len() > 0 {
            let ghost it = item@;
            insert_text(&mut list, item);
            proof {
                let now = kept_items(all.take(i + 1));
                assert(now == done.push(it));
                assert forall|x: Seq<char>| chars_of(list@).contains(x) <==> now.contains(x) by {
                    if now.contains(x) {
                        let k = choose|k: int| 0 <= k < now.len() && now[k] == x;
                        if k < done.len() {
                            assert(done[k] == x);
                            assert(done.contains(x));
                        }
                    }
                    if done.contains(x) {
                        let k = choose|k: int| 0 <= k < done.len() && done[k] == x;
                        assert(now[k] == x);
                    }
                    if x == it {
                        assert(now[done.len() as int] == x);
                    }
                }
            }
        }
        i += 1;
    }
    assert(all.take(all.len() as int) =~= all);
    let mut out: Vec<String> = Vec::new();
    let mut k: usize = 0;
    while k < list.len()
        invariant
            k <= list@.len(),
            out@.len() == k,
            forall|j: int| 0 <= j < k ==> (#[trigger] out@[j])@ == list@[j]@,
        decreases list@.len() - k,
    {
        out.push(from_chars(&list[k]));
        k += 1;
    }
    assert(strings_of(out@) =~= chars_of(list@));
    proof {
        lemma_sorted_set(strings_of(out@), license_items(raw@));
    }
    out
}

/// The licenses that a text names, as a list in a sentence: in order, each
/// once, joined with `or`.
pub fn nice_license(raw: &str) -> (out: String)
    ensures
        out@ == oxford(sorted_set(license_items(raw@)), "or"@),
{
    let list = license_list(raw);
    oxford_or(&list)
}

} // verus!
