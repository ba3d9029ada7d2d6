//! The parser of secret definitions.
use vstd::prelude::*;
use crate::escape::unescape_value;
use crate::grammar::{
    after_equal_sign, closing_quote, entries_from, entry_at, entry_failure, export_word, in_class, key_start,
    lemma_closing_quote, lemma_entry_progress, lemma_key_start, lemma_skip, skip, value_at,
    CharClass,
};

verus! {

/// Why a text is not a sequence of secret definitions.
#[derive(Debug, PartialEq, Eq)]
pub enum ParseError {
    /// Entries matched from the start, but this text after them did not.
    TrailingInput(String),
    /// Not even one entry matched; the text from where the first entry
    /// stopped matching.
    GrammarFailure(String),
}

/// The pairs of a list of entries, as character sequences.
pub open spec fn pairs_view(v: Seq<(String, String)>) -> Seq<(Seq<char>, Seq<char>)> {
    v.map_values(|p: (String, String)| (p.0@, p.1@))
}

/// Relies on `String: FromIterator<&char>`: the string holds the given
/// characters in their order.
#[verifier::external_body]
fn string_of(chars: &Vec<char>) -> (r: String)
    ensures
        r@ == chars@,
{
    chars.iter().collect()
}

fn chars_of(input: &str) -> (r: Vec<char>)
    ensures
        r@ == input@,
{
    broadcast use vstd::string::axiom_spec_iter;
    let mut out: Vec<char> = Vec::new();
    for c in it: input.chars()
        invariant
            out@ == it.seq().take(it.index() as int),
    {
        out.push(c);
    }
    out
}

fn in_class_exec(k: CharClass, c: char) -> (r: bool)
    ensures
        r == in_class(k, c),
{
    match k {
        CharClass::Whitespace => c == ' ' || c == '\t' || c == '\r' || c == '\n',
        CharClass::Blank => c == ' ' || c == '\t',
        CharClass::KeyChar => ('a' <= c && c <= 'z') || ('A' <= c && c <= 'Z') || ('0' <= c && c
            <= '9') || c == '_',
        CharClass::LineEnd => c == '\r' || c == '\n',
        CharClass::Bare => !(c == '\'' || c == '"' || c == ' ' || c == '\r' || c == '\n'),
    }
}

fn skip_class(s: &Vec<char>, i: usize, k: CharClass) -> (r: usize)
    requires
        i <= s@.len(),
    ensures
        r == skip(s@, i as int, k),
        i <= r <= s@.len(),
{
    proof {
        lemma_skip(s@, i as int, k);
    }
    let mut j = i;
    while j < s.len() && in_class_exec(k, s[j])
        invariant
            i <= j <= s@.len(),
            skip(s@, j as int, k) == skip(s@, i as int, k),
        decreases s@.len() - j,
    {
        j = j + 1;
    }
    j
}

fn chars_between(s: &Vec<char>, from: usize, to: usize) -> (r: Vec<char>)
    requires
        from <= to <= s@.len(),
    ensures
        r@ == s@.subrange(from as int, to as int),
{
    let mut out: Vec<char> = Vec::new();
    let mut i = from;
    while i < to
        invariant
            from <= i <= to <= s@.len(),
            out@ == s@.subrange(from as int, i as int),
        decreases to - i,
    {
        out.push(s[i]);
        i = i + 1;
        assert(out@ =~= s@.subrange(from as int, i as int));
    }
    out
}

fn key_start_at(s: &Vec<char>, i: usize) -> (r: usize)
    requires
        i <= s@.len(),
    ensures
        r == key_start(s@, i as int),
{
    if s.len() >= 7 && i <= s.len() - 7 && s[i] == 'e' && s[i + 1] == 'x' && s[i + 2] == 'p' && s[i + 3] == 'o'
        && s[i + 4] == 'r' && s[i + 5] == 't' && in_class_exec(CharClass::Blank, s[i + 6]) {
        assert(s@.subrange(i as int, i + 6) =~= export_word());
        skip_class(s, i + 6, CharClass::Blank)
    } else {
        proof {
            if i + 7 <= s@.len() && s@.subrange(i as int, i + 6) == export_word() {
                assert(s@.subrange(i as int, i + 6)[0] == s@[i as int]);
                assert(s@.subrange(i as int, i + 6)[1] == s@[i + 1]);
                assert(s@.subrange(i as int, i + 6)[2] == s@[i + 2]);
                assert(s@.subrange(i as int, i + 6)[3] == s@[i + 3]);
                assert(s@.subrange(i as int, i + 6)[4] == s@[i + 4]);
                assert(s@.subrange(i as int, i + 6)[5] == s@[i + 5]);
            }
        }
        i
    }
}

/// An equals sign at `i`, with blanks around it: where the value starts.
fn equal_sign(s: &Vec<char>, i: usize) -> (r: Option<usize>)
    requires
        i <= s@.len(),
    ensures
        r matches Some(e) ==> after_equal_sign(s@, i as int) == Some(e as int) && e <= s@.len(),
        r is None ==> after_equal_sign(s@, i as int) is None,
{
    let j = skip_class(s, i, CharClass::Blank);
    if j < s.len() && s[j] == '=' {
        Some(skip_class(s, j + 1, CharClass::Blank))
    } else {
        None
    }
}

fn closing_quote_at(s: &Vec<char>, i: usize, q: char) -> (r: Option<usize>)
    requires
        i <= s@.len(),
    ensures
        r matches Some(j) ==> closing_quote(s@, i as int, q) == Some(j as int),
        r is None ==> closing_quote(s@, i as int, q) is None,
{
    let mut j = i;
    while j < s.len()
        invariant
            i <= j <= s@.len() + 1,
            closing_quote(s@, j as int, q) == closing_quote(s@, i as int, q),
        decreases s@.len() + 1 - j,
    {
        if s[j] == q {
            return Some(j);
        } else if s[j] == '\\' {
            if j + 1 < s.len() && s[j + 1] == q {
                j = j + 2;
            } else {
                return None;
            }
        } else {
            j = j + 1;
        }
    }
    None
}

/// The value at `i`: the start and end of its raw text, and where it ends.
/// A double-quoted value is tried first, then a single-quoted one, then a
/// bare one.
fn maybe_quoted_value(s: &Vec<char>, i: usize) -> (r: Option<(usize, usize, usize)>)
    requires
        i <= s@.len(),
    ensures
        r matches Some((vs, ve, n)) ==> value_at(s@, i as int) == Some(
            (vs as int, ve as int, n as int),
        ),
        r is None ==> value_at(s@, i as int) is None,
        r matches Some((vs, ve, n)) ==> vs <= ve <= n <= s@.len(),
{
    if i < s.len() && (s[i] == '"' || s[i] == '\'') {
        let q = s[i];
        proof {
            lemma_closing_quote(s@, i + 1, q);
        }
        match closing_quote_at(s, i + 1, q) {
            Some(j) => if j > i + 1 {
                Some((i + 1, j, j + 1))
            } else {
                None
            },
            None => None,
        }
    } else {
        let j = skip_class(s, i, CharClass::Bare);
        if j > i {
            Some((i, j, j))
        } else {
            None
        }
    }
}

/// The entry at `i`: its key, its unescaped value and where it ends; or
/// where it stopped matching.
fn entry_from(s: &Vec<char>, i: usize) -> (r: Result<(Vec<char>, Vec<char>, usize), usize>)
    requires
        i <= s@.len(),
    ensures
        r matches Ok((key, value, n)) ==> entry_at(s@, i as int) == Some(
            (key@, value@, n as int),
        ),
        r matches Err(p) ==> entry_at(s@, i as int) is None && p == entry_failure(s@, i as int),
        r matches Ok((key, value, n)) ==> i < n <= s@.len(),
        r matches Err(p) ==> p <= s@.len(),
{
    proof {
        lemma_entry_progress(s@, i as int);
    }
    let a = skip_class(s, i, CharClass::Whitespace);
    let b = key_start_at(s, a);
    proof {
        lemma_key_start(s@, a as int);
    }
    let k = skip_class(s, b, CharClass::KeyChar);
    match equal_sign(s, k) {
        Some(e) => match maybe_quoted_value(s, e) {
            Some((vs, ve, n)) => {
                let key = chars_between(s, b, k);
                let raw = chars_between(s, vs, ve);
                let value = unescape_value(&raw);
                let end = skip_class(s, n, CharClass::LineEnd);
                Ok((key, value, end))
            },
            None => Err(e),
        },
        None => Err(skip_class(s, k, CharClass::Blank)),
    }
}

/// Parses the first secret definition of `input`: the text after it, and its
/// key and unescaped value.
pub fn one_secret(input: &str) -> (r: Result<(&str, (String, String)), ParseError>)
    ensures
        r matches Ok((tail, (key, value))) ==> entry_at(input@, 0) matches Some((k, v, n)) && key@
            == k && value@ == v && tail@ == input@.subrange(n, input@.len() as int),
        r matches Err(ParseError::GrammarFailure(t)) ==> entry_at(input@, 0) is None && t@
            == input@.subrange(entry_failure(input@, 0), input@.len() as int),
        !(r matches Err(ParseError::TrailingInput(_))),
        entry_at(input@, 0) is Some <==> r is Ok,
{
    let s = chars_of(input);
    match entry_from(&s, 0) {
        Ok((key, value, n)) => {
            let tail = input.substring_char(n, s.len());
            Ok((tail, (string_of(&key), string_of(&value))))
        },
        Err(p) => Err(ParseError::GrammarFailure(input.substring_char(p, s.len()).to_owned())),
    }
}

/// Parses all of `input` as a sequence of one or more secret definitions,
/// in the order in which they stand.
pub fn parse_secrets(input: &str) -> (r: Result<Vec<(String, String)>, ParseError>)
    ensures
        r matches Ok(v) ==> entry_at(input@, 0) is Some && entries_from(input@, 0).1
            == input@.len() && pairs_view(v@) == entries_from(input@, 0).0,
        r matches Err(ParseError::TrailingInput(t)) ==> entry_at(input@, 0) is Some
            && entries_from(input@, 0).1 < input@.len() && t@ == input@.subrange(
            entries_from(input@, 0).1,
            input@.len() as int,
        ),
        r matches Err(ParseError::GrammarFailure(t)) ==> entry_at(input@, 0) is None && t@
            == input@.subrange(entry_failure(input@, 0), input@.len() as int),
{
    let s = chars_of(input);
    let mut out: Vec<(String, String)> = Vec::new();
    let mut pos: usize = 0;
    match entry_from(&s, 0) {
        Ok((key, value, n)) => {
            proof {
                lemma_entry_progress(s@, 0);
            }
            out.push((string_of(&key), string_of(&value)));
            pos = n;
            assert(pairs_view(out@) =~= seq![(key@, value@)]);
        },
        Err(p) => {
            return Err(ParseError::GrammarFailure(input.substring_char(p, s.len()).to_owned()));
        },
    }
    loop
        invariant
            0 < pos <= s@.len(),
            s@ == input@,
            entry_at(input@, 0) is Some,
            pairs_view(out@) + entries_from(s@, pos as int).0 == entries_from(s@, 0).0,
            entries_from(s@, pos as int).1 == entries_from(s@, 0).1,
        ensures
            entries_from(s@, pos as int).1 == pos,
            entries_from(s@, pos as int).0 == Seq::<(Seq<char>, Seq<char>)>::empty(),
        decreases s@.len() - pos,
    {
        match entry_from(&s, pos) {
            Ok((key, value, n)) => {
                let ghost before = out@;
                out.push((string_of(&key), string_of(&value)));
                assert(pairs_view(out@) =~= pairs_view(before) + seq![(key@, value@)]);
                assert(pairs_view(out@) + entries_from(s@, n as int).0 =~= pairs_view(before)
                    + entries_from(s@, pos as int).0);
                pos = n;
            },
            Err(_) => {
                assert(entries_from(s@, pos as int).1 == pos);
                assert(entries_from(s@, pos as int).0 =~= Seq::empty());
                break ;
            },
        }
    }
    assert(pairs_view(out@) + Seq::empty() =~= pairs_view(out@));
    if pos == s.len() {
        assert(pairs_view(out@) + Seq::empty() =~= pairs_view(out@));
        Ok(out)
    } else {
        Err(ParseError::TrailingInput(input.substring_char(pos, s.len()).to_owned()))
    }
}

} // verus!
