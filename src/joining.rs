//! How the grammar behaves on texts put one after another: a rule applied
//! in the second text gives the same result as on that text alone, and a
//! complete entry in front adds exactly one entry.
use vstd::prelude::*;
use crate::grammar::{
    after_equal_sign, closing_quote, entries_from, entry_at, export_word, in_class,
    key_start, lemma_entry_progress, lemma_skip, skip, value_at, CharClass,
};

verus! {

/// The key and value of the entry at the start of `t`.
pub open spec fn first_pair(t: Seq<char>) -> (Seq<char>, Seq<char>) {
    match entry_at(t, 0) {
        Some((key, value, n)) => (key, value),
        None => (Seq::empty(), Seq::empty()),
    }
}

proof fn lemma_shift_skip(t: Seq<char>, r: Seq<char>, p: int, k: CharClass)
    requires
        0 <= p <= r.len(),
    ensures
        skip(t + r, t.len() + p, k) == t.len() + skip(r, p, k),
    decreases r.len() - p,
{
    let s = t + r;
    if p < r.len() {
        assert(s[t.len() + p] == r[p]);
        if in_class(k, r[p]) {
            lemma_shift_skip(t, r, p + 1, k);
        }
    }
}

proof fn lemma_shift_key_start(t: Seq<char>, r: Seq<char>, p: int)
    requires
        0 <= p <= r.len(),
    ensures
        key_start(t + r, t.len() + p) == t.len() + key_start(r, p),
{
    let s = t + r;
    let i = t.len() + p;
    if p + 7 <= r.len() {
        assert(s.subrange(i, i + 6) =~= r.subrange(p, p + 6));
        assert(s[i + 6] == r[p + 6]);
        lemma_shift_skip(t, r, p + 6, CharClass::Blank);
    }
}

proof fn lemma_shift_equal_sign(t: Seq<char>, r: Seq<char>, p: int)
    requires
        0 <= p <= r.len(),
    ensures
        after_equal_sign(t + r, t.len() + p) == (match after_equal_sign(r, p) {
            Some(e) => Some(t.len() + e),
            None => None,
        }),
{
    let s = t + r;
    lemma_shift_skip(t, r, p, CharClass::Blank);
    let j = skip(r, p, CharClass::Blank);
    lemma_skip(r, p, CharClass::Blank);
    if j < r.len() {
        assert(s[t.len() + j] == r[j]);
        if r[j] == '=' {
            lemma_shift_skip(t, r, j + 1, CharClass::Blank);
        }
    }
}

proof fn lemma_shift_closing_quote(t: Seq<char>, r: Seq<char>, p: int, q: char)
    requires
        0 <= p,
    ensures
        closing_quote(t + r, t.len() + p, q) == (match closing_quote(r, p, q) {
            Some(j) => Some(t.len() + j),
            None => None,
        }),
    decreases r.len() - p,
{
    let s = t + r;
    if p < r.len() {
        assert(s[t.len() + p] == r[p]);
        if p + 1 < r.len() {
            assert(s[t.len() + p + 1] == r[p + 1]);
        }
        if r[p] != q {
            if r[p] == '\\' {
                if p + 1 < r.len() && r[p + 1] == q {
                    lemma_shift_closing_quote(t, r, p + 2, q);
                }
            } else {
                lemma_shift_closing_quote(t, r, p + 1, q);
            }
        }
    }
}

proof fn lemma_shift_value(t: Seq<char>, r: Seq<char>, p: int)
    requires
        0 <= p <= r.len(),
    ensures
        value_at(t + r, t.len() + p) == (match value_at(r, p) {
            Some((vs, ve, n)) => Some((t.len() + vs, t.len() + ve, t.len() + n)),
            None => None,
        }),
{
    let s = t + r;
    let i = t.len() + p;
    if p < r.len() {
        assert(s[i] == r[p]);
    }
    if p < r.len() && (r[p] == '"' || r[p] == '\'') {
        lemma_shift_closing_quote(t, r, p + 1, r[p]);
    } else {
        lemma_shift_skip(t, r, p, CharClass::Bare);
    }
}

/// An entry in the second of two texts is the entry of that text alone.
proof fn lemma_shift_entry(t: Seq<char>, r: Seq<char>, p: int)
    requires
        0 <= p <= r.len(),
    ensures
        entry_at(t + r, t.len() + p) == (match entry_at(r, p) {
            Some((key, value, n)) => Some((key, value, t.len() + n)),
            None => None,
        }),
{
    let s = t + r;
    let a = skip(r, p, CharClass::Whitespace);
    lemma_skip(r, p, CharClass::Whitespace);
    lemma_shift_skip(t, r, p, CharClass::Whitespace);
    let b = key_start(r, a);
    crate::grammar::lemma_key_start(r, a);
    lemma_shift_key_start(t, r, a);
    let k = skip(r, b, CharClass::KeyChar);
    lemma_skip(r, b, CharClass::KeyChar);
    lemma_shift_skip(t, r, b, CharClass::KeyChar);
    lemma_shift_equal_sign(t, r, k);
    assert(s.subrange(t.len() + b, t.len() + k) =~= r.subrange(b, k));
    lemma_entry_progress(r, p);
    if let Some(e) = after_equal_sign(r, k) {
        lemma_skip(r, k, CharClass::Blank);
        let j = skip(r, k, CharClass::Blank);
        lemma_skip(r, j + 1, CharClass::Blank);
        lemma_shift_value(t, r, e);
        if let Some((vs, ve, n)) = value_at(r, e) {
            assert(s.subrange(t.len() + vs, t.len() + ve) =~= r.subrange(vs, ve));
            lemma_shift_skip(t, r, n, CharClass::LineEnd);
        }
    }
}

/// The entries of the second of two texts are those of that text alone.
proof fn lemma_shift_entries(t: Seq<char>, r: Seq<char>, p: int)
    requires
        0 <= p <= r.len(),
    ensures
        entries_from(t + r, t.len() + p) == (entries_from(r, p).0, t.len() + entries_from(
            r,
            p,
        ).1),
    decreases r.len() - p,
{
    lemma_shift_entry(t, r, p);
    lemma_entry_progress(r, p);
    if let Some((key, value, n)) = entry_at(r, p) {
        lemma_shift_entries(t, r, n);
    }
}

proof fn lemma_prefix_skip(t: Seq<char>, r: Seq<char>, i: int, k: CharClass)
    requires
        0 <= i <= t.len(),
    ensures
        skip(t, i, k) < t.len() ==> skip(t + r, i, k) == skip(t, i, k),
        skip(t, i, k) == t.len() ==> skip(t + r, i, k) == skip(t + r, t.len() as int, k),
    decreases t.len() - i,
{
    let s = t + r;
    if i < t.len() {
        assert(s[i] == t[i]);
        if in_class(k, t[i]) {
            lemma_prefix_skip(t, r, i + 1, k);
        }
    }
}

proof fn lemma_prefix_closing_quote(t: Seq<char>, r: Seq<char>, i: int, q: char)
    requires
        0 <= i,
    ensures
        closing_quote(t, i, q) matches Some(j) ==> closing_quote(t + r, i, q) == Some(j),
    decreases t.len() - i,
{
    let s = t + r;
    if i < t.len() {
        assert(s[i] == t[i]);
        if i + 1 < t.len() {
            assert(s[i + 1] == t[i + 1]);
        }
        if t[i] != q {
            if t[i] == '\\' {
                if i + 1 < t.len() && t[i + 1] == q {
                    lemma_prefix_closing_quote(t, r, i + 2, q);
                }
            } else {
                lemma_prefix_closing_quote(t, r, i + 1, q);
            }
        }
    }
}

/// A text that is exactly one entry, ending in a line end, reads as the
/// same entry when more text follows; the entry then also takes the line
/// ends at the start of what follows.
proof fn lemma_prefix_entry(t: Seq<char>, r: Seq<char>)
    requires
        entry_at(t, 0) matches Some((key, value, n)) && n == t.len(),
        t.len() > 0,
        in_class(CharClass::LineEnd, t.last()),
    ensures
        entry_at(t + r, 0) == Some(
            (first_pair(t).0, first_pair(t).1, t.len() + skip(r, 0, CharClass::LineEnd)),
        ),
{
    let s = t + r;
    let a = skip(t, 0, CharClass::Whitespace);
    lemma_skip(t, 0, CharClass::Whitespace);
    let b = key_start(t, a);
    crate::grammar::lemma_key_start(t, a);
    let k = skip(t, b, CharClass::KeyChar);
    lemma_skip(t, b, CharClass::KeyChar);
    let j = skip(t, k, CharClass::Blank);
    lemma_skip(t, k, CharClass::Blank);
    assert(j < t.len() && t[j] == '=');
    assert(s[j] == t[j]);
    let e = skip(t, j + 1, CharClass::Blank);
    lemma_skip(t, j + 1, CharClass::Blank);
    let (vs, ve, n0) = value_at(t, e)->0;
    // every step before the value stops inside the first text
    lemma_prefix_skip(t, r, 0, CharClass::Whitespace);
    assert(key_start(s, a) == b) by {
        if a + 7 <= t.len() {
            assert(s.subrange(a, a + 6) =~= t.subrange(a, a + 6));
            assert(s[a + 6] == t[a + 6]);
            if t.subrange(a, a + 6) == export_word() && in_class(CharClass::Blank, t[a + 6]) {
                lemma_prefix_skip(t, r, a + 6, CharClass::Blank);
            }
        } else if a + 7 <= s.len() && s.subrange(a, a + 6) == export_word() && in_class(
            CharClass::Blank,
            s[a + 6],
        ) {
            assert(b == a && k >= a);
            if j < a + 6 {
                assert(s.subrange(a, a + 6)[j - a] == s[j]);
                assert(export_word()[j - a] != '=');
            }
        }
    }
    lemma_prefix_skip(t, r, b, CharClass::KeyChar);
    lemma_prefix_skip(t, r, k, CharClass::Blank);
    lemma_prefix_skip(t, r, j + 1, CharClass::Blank);
    if e < t.len() && (t[e] == '"' || t[e] == '\'') {
        assert(s[e] == t[e]);
        lemma_prefix_closing_quote(t, r, e + 1, t[e]);
        crate::grammar::lemma_closing_quote(t, e + 1, t[e]);
    } else {
        lemma_skip(t, e, CharClass::Bare);
        if e < t.len() {
            assert(s[e] == t[e]);
        }
        let last = t.len() - 1;
        if ve > last {
            assert(in_class(CharClass::Bare, t[last]));
        }
        lemma_prefix_skip(t, r, e, CharClass::Bare);
    }
    assert(e < t.len());
    lemma_prefix_skip(t, r, n0, CharClass::LineEnd);
    lemma_shift_skip(t, r, 0, CharClass::LineEnd);
    assert(s.subrange(b, k) =~= t.subrange(b, k));
    assert(s.subrange(vs, ve) =~= t.subrange(vs, ve));
}

proof fn lemma_skip_whitespace_run(r: Seq<char>, i: int, p: int)
    requires
        0 <= i <= p <= r.len(),
        forall|m: int| i <= m < p ==> in_class(CharClass::Whitespace, #[trigger] r[m]),
    ensures
        skip(r, i, CharClass::Whitespace) == skip(r, p, CharClass::Whitespace),
    decreases p - i,
{
    if i < p {
        lemma_skip_whitespace_run(r, i + 1, p);
    }
}

/// A text that is one complete entry ending in a line end, placed before a
/// text of entries, adds exactly that entry in front of them.
pub proof fn lemma_entries_prepend(t: Seq<char>, r: Seq<char>)
    requires
        entry_at(t, 0) matches Some((key, value, n)) && n == t.len(),
        t.len() > 0,
        in_class(CharClass::LineEnd, t.last()),
        entry_at(r, 0) is Some,
    ensures
        entries_from(t + r, 0).0 == seq![first_pair(t)]
            + entries_from(r, 0).0,
        entries_from(t + r, 0).1 == t.len() + entries_from(r, 0).1,
{
    let s = t + r;
    lemma_prefix_entry(t, r);
    let p = skip(r, 0, CharClass::LineEnd);
    lemma_skip(r, 0, CharClass::LineEnd);
    lemma_shift_entries(t, r, p);
    lemma_skip_whitespace_run(r, 0, p);
    assert(entry_at(r, p) == entry_at(r, 0));
    lemma_entry_progress(r, p);
}

/// `t` is exactly one entry, and ends in a line end.
pub open spec fn complete_entry(t: Seq<char>) -> bool {
    &&& entry_at(t, 0) matches Some((key, value, n)) && n == t.len()
    &&& t.len() > 0
    &&& in_class(CharClass::LineEnd, t.last())
}

/// Texts that are each one complete entry ending in a line end, written one
/// after another, parse whole into as many entries as there are texts, in
/// their order.
pub proof fn lemma_entry_count(texts: Seq<Seq<char>>)
    requires
        texts.len() > 0,
        forall|i: int| 0 <= i < texts.len() ==> complete_entry(#[trigger] texts[i]),
    ensures
        entries_from(texts.flatten(), 0).0 == texts.map_values(|t: Seq<char>| first_pair(t)),
        entries_from(texts.flatten(), 0).0.len() == texts.len(),
        entries_from(texts.flatten(), 0).1 == texts.flatten().len(),
    decreases texts.len(),
{
    let t = texts[0];
    assert(complete_entry(t));
    let rest = texts.drop_first();
    assert(texts.flatten() == t + rest.flatten());
    if texts.len() == 1 {
        assert(rest.flatten() =~= Seq::<char>::empty());
        assert(t + rest.flatten() =~= t);
        lemma_entry_progress(t, t.len() as int);
        assert(entries_from(t, t.len() as int).0 =~= Seq::empty());
        assert(texts.map_values(|t: Seq<char>| first_pair(t)) =~= seq![first_pair(t)]);
        assert(seq![first_pair(t)] + Seq::<(Seq<char>, Seq<char>)>::empty() =~= seq![
            first_pair(t),
        ]);
    } else {
        assert forall|i: int| 0 <= i < rest.len() implies complete_entry(#[trigger] rest[i]) by {
            assert(rest[i] == texts[i + 1]);
        }
        lemma_entry_count(rest);
        let r = rest.flatten();
        assert(entry_at(r, 0) is Some) by {
            if entry_at(r, 0) is None {
                assert(entries_from(r, 0).0.len() == 0);
            }
        }
        lemma_entries_prepend(t, r);
        assert(texts.map_values(|t: Seq<char>| first_pair(t)) =~= seq![first_pair(t)]
            + rest.map_values(|t: Seq<char>| first_pair(t)));
    }
}

} // verus!
