//! The escape model of values: a backslash before a quote or before another
//! backslash stands for that character alone.
use vstd::prelude::*;

verus! {

/// Replaces, from left to right and without overlap, every two-character
/// sequence `\` `q` of `s` by `q` alone.
pub open spec fn collapse(s: Seq<char>, q: char) -> Seq<char>
    decreases s.len(),
{
    if s.len() < 2 {
        s
    } else if s[0] == '\\' && s[1] == q {
        seq![q] + collapse(s.subrange(2, s.len() as int), q)
    } else {
        seq![s[0]] + collapse(s.subrange(1, s.len() as int), q)
    }
}

/// The unescaped form of a raw value: `\"` becomes `"`, then `\'` becomes
/// `'`, then `\\` becomes `\`, each substitution over the whole text.
pub open spec fn unescape(s: Seq<char>) -> Seq<char> {
    collapse(collapse(collapse(s, '"'), '\''), '\\')
}

/// The escaped form of one character.
pub open spec fn escape_char(c: char) -> Seq<char> {
    if c == '\\' || c == '"' || c == '\'' {
        seq!['\\', c]
    } else {
        seq![c]
    }
}

/// The escaped form of a value: a backslash goes before every quote and
/// every backslash.
pub open spec fn escape(s: Seq<char>) -> Seq<char>
    decreases s.len(),
{
    if s.len() == 0 {
        s
    } else {
        escape_char(s[0]) + escape(s.subrange(1, s.len() as int))
    }
}

/// Escapes single quotes only.
pub open spec fn escape_single_quotes(s: Seq<char>) -> Seq<char>
    decreases s.len(),
{
    if s.len() == 0 {
        s
    } else if s[0] == '\'' {
        seq!['\\', '\''] + escape_single_quotes(s.subrange(1, s.len() as int))
    } else {
        seq![s[0]] + escape_single_quotes(s.subrange(1, s.len() as int))
    }
}

pub open spec fn has_backslash(s: Seq<char>) -> bool {
    exists|i: int| 0 <= i < s.len() && s[i] == '\\'
}

/// Collapses every `\` `q` of `s` into `q`, from left to right.
pub fn collapse_escapes(s: &Vec<char>, q: char) -> (r: Vec<char>)
    ensures
        r@ == collapse(s@, q),
{
    let mut out: Vec<char> = Vec::new();
    let mut i: usize = 0;
    assert(s@.subrange(0, s@.len() as int) =~= s@);
    assert(out@ + collapse(s@, q) =~= collapse(s@, q));
    while i < s.len()
        invariant
            i <= s@.len(),
            out@ + collapse(s@.subrange(i as int, s@.len() as int), q) == collapse(s@, q),
        decreases s@.len() - i,
    {
        let ghost rest = s@.subrange(i as int, s@.len() as int);
        if i + 1 < s.len() && s[i] == '\\' && s[i + 1] == q {
            assert(rest.subrange(2, rest.len() as int) =~= s@.subrange(i + 2, s@.len() as int));
            out.push(q);
            i = i + 2;
            assert(out@ + collapse(s@.subrange(i as int, s@.len() as int), q) =~= collapse(s@, q));
        } else {
            let c = s[i];
            assert(rest.subrange(1, rest.len() as int) =~= s@.subrange(i + 1, s@.len() as int));
            proof {
                if rest.len() < 2 {
                    let e = s@.subrange(i + 1, s@.len() as int);
                    assert(e.len() == 0);
                    assert(collapse(e, q) == e);
                    assert(rest =~= seq![c] + e);
                }
            }
            out.push(c);
            i = i + 1;
            assert(out@ + collapse(s@.subrange(i as int, s@.len() as int), q) =~= collapse(s@, q));
        }
    }
    assert(s@.subrange(i as int, s@.len() as int) =~= Seq::<char>::empty());
    assert(out@ + Seq::<char>::empty() =~= out@);
    out
}

/// Unescapes a raw value: `\"` to `"`, then `\'` to `'`, then `\\` to `\`.
pub fn unescape_value(raw: &Vec<char>) -> (r: Vec<char>)
    ensures
        r@ == unescape(raw@),
{
    let a = collapse_escapes(raw, '"');
    let b = collapse_escapes(&a, '\'');
    collapse_escapes(&b, '\\')
}

/// Text that starts with a character other than a backslash keeps it in
/// front when collapsed.
proof fn lemma_collapse_plain_head(c: char, rest: Seq<char>, q: char)
    requires
        c != '\\',
    ensures
        collapse(seq![c] + rest, q) == seq![c] + collapse(rest, q),
{
    let s = seq![c] + rest;
    assert(s.subrange(1, s.len() as int) =~= rest);
    if s.len() < 2 {
        assert(rest.len() == 0);
        assert(collapse(rest, q) == rest);
    }
}

proof fn lemma_collapse_escaped_head(rest: Seq<char>, q: char)
    ensures
        collapse(seq!['\\', q] + rest, q) == seq![q] + collapse(rest, q),
{
    let s = seq!['\\', q] + rest;
    assert(s.subrange(2, s.len() as int) =~= rest);
}

proof fn lemma_collapse_no_backslash(s: Seq<char>, q: char)
    requires
        !has_backslash(s),
    ensures
        collapse(s, q) == s,
    decreases s.len(),
{
    if s.len() >= 2 {
        let rest = s.subrange(1, s.len() as int);
        assert(!has_backslash(rest)) by {
            if has_backslash(rest) {
                let i = choose|i: int| 0 <= i < rest.len() && rest[i] == '\\';
                assert(s[i + 1] == '\\');
            }
        }
        lemma_collapse_no_backslash(rest, q);
        assert(s[0] != '\\');
        assert(seq![s[0]] + rest =~= s);
    }
}

proof fn lemma_collapse_double_quotes(s: Seq<char>)
    requires
        !has_backslash(s),
    ensures
        collapse(escape(s), '"') == escape_single_quotes(s),
    decreases s.len(),
{
    if s.len() > 0 {
        let rest = s.subrange(1, s.len() as int);
        assert(!has_backslash(rest)) by {
            if has_backslash(rest) {
                let i = choose|i: int| 0 <= i < rest.len() && rest[i] == '\\';
                assert(s[i + 1] == '\\');
            }
        }
        lemma_collapse_double_quotes(rest);
        let c = s[0];
        assert(c != '\\');
        if c == '"' {
            lemma_collapse_escaped_head(escape(rest), '"');
        } else if c == '\'' {
            let tail = seq!['\''] + escape(rest);
            assert(seq!['\\', '\''] + escape(rest) =~= seq!['\\'] + tail);
            let t = seq!['\\'] + tail;
            assert(t.subrange(1, t.len() as int) =~= tail);
            lemma_collapse_plain_head('\'', escape(rest), '"');
            assert(collapse(t, '"') =~= seq!['\\'] + collapse(tail, '"'));
            assert(seq!['\\'] + (seq!['\''] + escape_single_quotes(rest))
                =~= seq!['\\', '\''] + escape_single_quotes(rest));
        } else {
            lemma_collapse_plain_head(c, escape(rest), '"');
        }
    }
}

proof fn lemma_collapse_single_quotes(s: Seq<char>)
    requires
        !has_backslash(s),
    ensures
        collapse(escape_single_quotes(s), '\'') == s,
    decreases s.len(),
{
    if s.len() > 0 {
        let rest = s.subrange(1, s.len() as int);
        assert(!has_backslash(rest)) by {
            if has_backslash(rest) {
                let i = choose|i: int| 0 <= i < rest.len() && rest[i] == '\\';
                assert(s[i + 1] == '\\');
            }
        }
        lemma_collapse_single_quotes(rest);
        let c = s[0];
        assert(c != '\\');
        if c == '\'' {
            lemma_collapse_escaped_head(escape_single_quotes(rest), '\'');
        } else {
            lemma_collapse_plain_head(c, escape_single_quotes(rest), '\'');
        }
        assert(seq![c] + rest =~= s);
    }
}

/// Escaping a value that holds no backslash and then unescaping it gives the
/// value back.
pub proof fn lemma_unescape_escape(v: Seq<char>)
    requires
        !has_backslash(v),
    ensures
        unescape(escape(v)) == v,
{
    lemma_collapse_double_quotes(v);
    lemma_collapse_single_quotes(v);
    lemma_collapse_no_backslash(v, '\\');
}

} // verus!
