//! Keywords: the names of (sub)commands and of short and long keys.

use vstd::prelude::*;
use crate::err::BashManError;
use crate::text::{
    ascii_alnum, from_chars, is_alnum, str_eq, to_chars, trim_chars, trimmed,
};

verus! {

/// A (sub)command or a key, checked when it is made.
#[derive(Clone, Debug, PartialEq, Eq)]
pub enum KeyWord {
    /// A (sub)command.
    Command(String),
    /// A short or long key.
    Key(String),
}

/// What a keyword is.
#[derive(Clone, Copy, Debug, PartialEq, Eq, Structural)]
pub enum KeyKind {
    /// A (sub)command.
    Command,
    /// A short or long key.
    Key,
}

/// The text starts with an ASCII letter or digit and goes on with letters,
/// digits, `-` and `_`.
pub open spec fn word_chars(s: Seq<char>) -> bool {
    &&& s.len() > 0
    &&& ascii_alnum(s[0])
    &&& forall|i: int| 0 <= i < s.len() ==> ascii_alnum(#[trigger] s[i]) || s[i] == '-' || s[i] == '_'
}

/// What the trimmed text `s` is: a command where it is a word; a key where it
/// is one dash and one letter or digit, or two dashes and a word; else
/// nothing.
pub open spec fn keyword_kind(s: Seq<char>) -> Option<KeyKind> {
    if word_chars(s) {
        Some(KeyKind::Command)
    } else if s.len() == 2 && s[0] == '-' && ascii_alnum(s[1]) {
        Some(KeyKind::Key)
    } else if s.len() >= 2 && s[0] == '-' && s[1] == '-' && word_chars(s.skip(2)) {
        Some(KeyKind::Key)
    } else {
        None
    }
}

/// Whether the characters of `v` from `from` on are a word.
fn is_word(v: &Vec<char>, from: usize) -> (r: bool)
    requires
        from <= v@.len(),
    ensures
        r == word_chars(v@.skip(from as int)),
{
    let ghost s = v@.skip(from as int);
    if from >= v.len() || !is_alnum(v[from]) {
        return false;
    }
    let mut i: usize = from;
    while i < v.len()
        invariant
            from <= i <= v@.len(),
            s == v@.skip(from as int),
            forall|j: int|
                0 <= j < i - from ==> ascii_alnum(#[trigger] s[j]) || s[j] == '-' || s[j] == '_',
        decreases v@.len() - i,
    {
        let c = v[i];
        assert(s[i - from] == c);
        if !(is_alnum(c) || c == '-' || c == '_') {
            return false;
        }
        i += 1;
    }
    true
}

impl KeyWord {
    /// The text of the keyword, dashes included.
    pub open spec fn text(&self) -> Seq<char> {
        match self {
            KeyWord::Command(s) => s@,
            KeyWord::Key(s) => s@,
        }
    }

    /// What the keyword is.
    pub open spec fn kind(&self) -> KeyKind {
        match self {
            KeyWord::Command(_) => KeyKind::Command,
            KeyWord::Key(_) => KeyKind::Key,
        }
    }

    /// Reads a keyword: the text is trimmed, and must then be a command or a
    /// key. Anything else is refused, with the trimmed text in the error.
    pub fn try_from(src: &str) -> (r: Result<KeyWord, BashManError>)
        ensures
            match r {
                Ok(k) => keyword_kind(trimmed(src@)) == Some(k.kind()) && k.text() == trimmed(
                    src@,
                ),
                Err(e) => keyword_kind(trimmed(src@)) is None && (e matches BashManError::KeyWord(
                    t,
                ) && t@ == trimmed(src@)),
            },
    {
        let raw = to_chars(src);
        let chars = trim_chars(&raw);
        let n = chars.len();
        assert(chars@.skip(0) =~= chars@);
        if is_word(&chars, 0) {
            return Ok(KeyWord::Command(from_chars(&chars)));
        }
        if n == 2 && chars[0] == '-' && is_alnum(chars[1]) {
            return Ok(KeyWord::Key(from_chars(&chars)));
        }
        if n >= 2 && chars[0] == '-' && chars[1] == '-' && is_word(&chars, 2) {
            return Ok(KeyWord::Key(from_chars(&chars)));
        }
        Err(BashManError::KeyWord(from_chars(&chars)))
    }

    /// Whether the two keywords are the same: of one kind, with one text.
    pub fn same(&self, other: &KeyWord) -> (r: bool)
        ensures
            r == (self.kind() == other.kind() && self.text() == other.text()),
    {
        match (self, other) {
            (KeyWord::Command(a), KeyWord::Command(b)) => str_eq(a.as_str(), b.as_str()),
            (KeyWord::Key(a), KeyWord::Key(b)) => str_eq(a.as_str(), b.as_str()),
            _ => false,
        }
    }

    /// A copy of the keyword.
    pub fn copy(&self) -> (r: KeyWord)
        ensures
            r == *self,
    {
        match self {
            KeyWord::Command(s) => KeyWord::Command(s.clone()),
            KeyWord::Key(s) => KeyWord::Key(s.clone()),
        }
    }

    /// What to call the keyword in a message.
    pub fn label(&self) -> (r: &'static str)
        ensures
            r@ == (match self.kind() {
                KeyKind::Command => "(sub)command"@,
                KeyKind::Key => "key"@,
            }),
    {
        match self {
            KeyWord::Command(_) => "(sub)command",
            KeyWord::Key(_) => "key",
        }
    }

    /// The text of the keyword.
    pub fn as_str(&self) -> (r: &str)
        ensures
            r@ == self.text(),
    {
        match self {
            KeyWord::Command(s) => s.as_str(),
            KeyWord::Key(s) => s.as_str(),
        }
    }
}

} // verus!
