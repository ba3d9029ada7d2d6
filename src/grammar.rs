//! The grammar of secret definitions, stated over the characters of the
//! input. Positions are character offsets; every rule takes the position
//! where it starts and gives the position where it stops.
use vstd::prelude::*;
use crate::escape::unescape;

verus! {

/// The character classes that the grammar skips over.
#[derive(Clone, Copy, PartialEq, Eq, Debug)]
pub enum CharClass {
    /// Space, tab, carriage return or line feed.
    Whitespace,
    /// Space or tab.
    Blank,
    /// An ASCII letter or digit, or an underscore.
    KeyChar,
    /// Carriage return or line feed.
    LineEnd,
    /// Anything but a quote, a space, a carriage return or a line feed.
    Bare,
}

pub open spec fn is_ascii_alphanumeric(c: char) -> bool {
    ('a' <= c && c <= 'z') || ('A' <= c && c <= 'Z') || ('0' <= c && c <= '9')
}

pub open spec fn in_class(k: CharClass, c: char) -> bool {
    match k {
        CharClass::Whitespace => c == ' ' || c == '\t' || c == '\r' || c == '\n',
        CharClass::Blank => c == ' ' || c == '\t',
        CharClass::KeyChar => is_ascii_alphanumeric(c) || c == '_',
        CharClass::LineEnd => c == '\r' || c == '\n',
        CharClass::Bare => !(c == '\'' || c == '"' || c == ' ' || c == '\r' || c == '\n'),
    }
}

/// The end of the longest run of class `k` that starts at `i`.
pub open spec fn skip(s: Seq<char>, i: int, k: CharClass) -> int
    decreases s.len() - i,
{
    if 0 <= i < s.len() && in_class(k, s[i]) {
        skip(s, i + 1, k)
    } else {
        i
    }
}

pub open spec fn export_word() -> Seq<char> {
    seq!['e', 'x', 'p', 'o', 'r', 't']
}

/// Where the key starts: after the word `export` and at least one blank,
/// if they stand at `i`.
pub open spec fn key_start(s: Seq<char>, i: int) -> int {
    if 0 <= i && i + 7 <= s.len() && s.subrange(i, i + 6) == export_word()
        && in_class(CharClass::Blank, s[i + 6]) {
        skip(s, i + 6, CharClass::Blank)
    } else {
        i
    }
}

/// Where the value starts when an equals sign, with blanks around it, stands
/// at `i`.
pub open spec fn after_equal_sign(s: Seq<char>, i: int) -> Option<int> {
    let j = skip(s, i, CharClass::Blank);
    if 0 <= j < s.len() && s[j] == '=' {
        Some(skip(s, j + 1, CharClass::Blank))
    } else {
        None
    }
}

/// The position of the closing quote `q` of a quoted text whose content
/// starts at `i`: a backslash must be followed by `q`, and the pair stands
/// for an escaped quote.
pub open spec fn closing_quote(s: Seq<char>, i: int, q: char) -> Option<int>
    decreases s.len() - i,
{
    if i < 0 || i >= s.len() {
        None
    } else if s[i] == q {
        Some(i)
    } else if s[i] == '\\' {
        if i + 1 < s.len() && s[i + 1] == q {
            closing_quote(s, i + 2, q)
        } else {
            None
        }
    } else {
        closing_quote(s, i + 1, q)
    }
}

/// A value at `i`: the start and end of its raw text, and where the value
/// ends. A quoted value holds at least one character between its quotes;
/// a bare value is at least one character long.
pub open spec fn value_at(s: Seq<char>, i: int) -> Option<(int, int, int)> {
    if 0 <= i < s.len() && (s[i] == '"' || s[i] == '\'') {
        match closing_quote(s, i + 1, s[i]) {
            Some(j) => if j > i + 1 {
                Some((i + 1, j, j + 1))
            } else {
                None
            },
            None => None,
        }
    } else {
        let j = skip(s, i, CharClass::Bare);
        if j > i {
            Some((i, j, j))
        } else {
            None
        }
    }
}

/// One entry at `i`: its key, its unescaped value, and where the entry
/// ends, past the line ends that follow it. Blanks, line ends and an
/// `export` word may come before the key; the key may be empty.
pub open spec fn entry_at(s: Seq<char>, i: int) -> Option<(Seq<char>, Seq<char>, int)> {
    let b = key_start(s, skip(s, i, CharClass::Whitespace));
    let k = skip(s, b, CharClass::KeyChar);
    match after_equal_sign(s, k) {
        Some(e) => match value_at(s, e) {
            Some((vs, ve, n)) => Some(
                (s.subrange(b, k), unescape(s.subrange(vs, ve)), skip(s, n, CharClass::LineEnd)),
            ),
            None => None,
        },
        None => None,
    }
}

/// Where an entry at `i` that does not match stops matching: at the missing
/// equals sign, or at the value that is not well-formed.
pub open spec fn entry_failure(s: Seq<char>, i: int) -> int {
    let k = skip(s, key_start(s, skip(s, i, CharClass::Whitespace)), CharClass::KeyChar);
    match after_equal_sign(s, k) {
        Some(e) => e,
        None => skip(s, k, CharClass::Blank),
    }
}

/// The entries that follow one another from `i` on, and where they stop.
pub open spec fn entries_from(s: Seq<char>, i: int) -> (Seq<(Seq<char>, Seq<char>)>, int)
    decreases s.len() - i,
{
    match entry_at(s, i) {
        Some((key, value, n)) => if i < n <= s.len() {
            let rest = entries_from(s, n);
            (seq![(key, value)] + rest.0, rest.1)
        } else {
            (Seq::empty(), i)
        },
        None => (Seq::empty(), i),
    }
}

/// A run of class `k` stays within the text, holds only characters of the
/// class, and stops at the end or at a character outside the class.
pub proof fn lemma_skip(s: Seq<char>, i: int, k: CharClass)
    requires
        0 <= i <= s.len(),
    ensures
        i <= skip(s, i, k) <= s.len(),
        skip(s, i, k) < s.len() ==> !in_class(k, s[skip(s, i, k)]),
        forall|j: int| i <= j < skip(s, i, k) ==> in_class(k, #[trigger] s[j]),
    decreases s.len() - i,
{
    if i < s.len() && in_class(k, s[i]) {
        lemma_skip(s, i + 1, k);
    }
}

pub proof fn lemma_key_start(s: Seq<char>, i: int)
    requires
        0 <= i <= s.len(),
    ensures
        i <= key_start(s, i) <= s.len(),
{
    if 0 <= i && i + 7 <= s.len() && s.subrange(i, i + 6) == export_word()
        && in_class(CharClass::Blank, s[i + 6]) {
        lemma_skip(s, i + 6, CharClass::Blank);
    }
}

pub proof fn lemma_closing_quote(s: Seq<char>, i: int, q: char)
    requires
        0 <= i,
    ensures
        closing_quote(s, i, q) matches Some(j) ==> i <= j < s.len() && s[j] == q,
    decreases s.len() - i,
{
    if 0 <= i < s.len() && s[i] != q {
        if s[i] == '\\' {
            if i + 1 < s.len() && s[i + 1] == q {
                lemma_closing_quote(s, i + 2, q);
            }
        } else {
            lemma_closing_quote(s, i + 1, q);
        }
    }
}

/// A matched entry takes at least one character and stays within the text.
pub proof fn lemma_entry_progress(s: Seq<char>, i: int)
    requires
        0 <= i <= s.len(),
    ensures
        entry_at(s, i) matches Some((key, value, n)) ==> i < n <= s.len(),
        i <= entry_failure(s, i) <= s.len(),
{
    let a = skip(s, i, CharClass::Whitespace);
    lemma_skip(s, i, CharClass::Whitespace);
    let b = key_start(s, a);
    lemma_key_start(s, a);
    let k = skip(s, b, CharClass::KeyChar);
    lemma_skip(s, b, CharClass::KeyChar);
    let j = skip(s, k, CharClass::Blank);
    lemma_skip(s, k, CharClass::Blank);
    if 0 <= j < s.len() && s[j] == '=' {
        let e = skip(s, j + 1, CharClass::Blank);
        lemma_skip(s, j + 1, CharClass::Blank);
        if 0 <= e < s.len() && (s[e] == '"' || s[e] == '\'') {
            lemma_closing_quote(s, e + 1, s[e]);
            if let Some(c) = closing_quote(s, e + 1, s[e]) {
                lemma_skip(s, c + 1, CharClass::LineEnd);
            }
        } else {
            let v = skip(s, e, CharClass::Bare);
            lemma_skip(s, e, CharClass::Bare);
            lemma_skip(s, v, CharClass::LineEnd);
        }
    }
}

/// A key is made of key characters only.
pub open spec fn plain_key(key: Seq<char>) -> bool {
    forall|m: int| 0 <= m < key.len() ==> in_class(CharClass::KeyChar, #[trigger] key[m])
}

proof fn lemma_entry_key(s: Seq<char>, i: int)
    requires
        0 <= i <= s.len(),
    ensures
        entry_at(s, i) matches Some((key, value, n)) ==> plain_key(key),
{
    let a = skip(s, i, CharClass::Whitespace);
    lemma_skip(s, i, CharClass::Whitespace);
    let b = key_start(s, a);
    lemma_key_start(s, a);
    let k = skip(s, b, CharClass::KeyChar);
    lemma_skip(s, b, CharClass::KeyChar);
    assert forall|m: int| 0 <= m < k - b implies in_class(
        CharClass::KeyChar,
        #[trigger] s.subrange(b, k)[m],
    ) by {
        assert(s.subrange(b, k)[m] == s[b + m]);
    }
}

/// Every entry parsed from a text has a key made of ASCII letters, digits
/// and underscores: no key holds a space, a quote or an equals sign.
pub proof fn lemma_keys_plain(s: Seq<char>, i: int)
    requires
        0 <= i <= s.len(),
    ensures
        forall|j: int| 0 <= j < entries_from(s, i).0.len() ==> plain_key(
            #[trigger] entries_from(s, i).0[j].0,
        ),
        forall|j: int, m: int|
            0 <= j < entries_from(s, i).0.len() && 0 <= m < entries_from(s, i).0[j].0.len()
                ==> {
                let c = #[trigger] entries_from(s, i).0[j].0[m];
                c != ' ' && c != '"' && c != '\'' && c != '='
            },
    decreases s.len() - i,
{
    lemma_entry_progress(s, i);
    lemma_entry_key(s, i);
    if let Some((key, value, n)) = entry_at(s, i) {
        lemma_keys_plain(s, n);
        let rest = entries_from(s, n).0;
        assert forall|j: int| 0 <= j < entries_from(s, i).0.len() implies plain_key(
            #[trigger] entries_from(s, i).0[j].0,
        ) by {
            if j > 0 {
                assert(entries_from(s, i).0[j] == rest[j - 1]);
            }
        }
        assert forall|j: int, m: int|
            0 <= j < entries_from(s, i).0.len() && 0 <= m < entries_from(s, i).0[j].0.len()
                implies {
            let c = #[trigger] entries_from(s, i).0[j].0[m];
            c != ' ' && c != '"' && c != '\'' && c != '='
        } by {
            assert(plain_key(entries_from(s, i).0[j].0));
            assert(in_class(CharClass::KeyChar, entries_from(s, i).0[j].0[m]));
        }
    }
}

/// The entries stop at a position within the text, after `i`.
pub proof fn lemma_entries_end(s: Seq<char>, i: int)
    requires
        0 <= i <= s.len(),
    ensures
        i <= entries_from(s, i).1 <= s.len(),
    decreases s.len() - i,
{
    lemma_entry_progress(s, i);
    if let Some((key, value, n)) = entry_at(s, i) {
        lemma_entries_end(s, n);
    }
}

} // verus!
