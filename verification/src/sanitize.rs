//! Embedding-input sanitization: a fixed substitution table that maps
//! decorative unicode symbols to ASCII stand-ins, replaces status glyphs
//! with a space so that word boundaries survive, and collapses the
//! resulting runs of spaces to a single space.

use vstd::prelude::*;

verus! {

/// The fixed substitution table. Box-drawing characters become `-`, `|` or
/// `+`; block shading becomes `*`; arrows become `<`, `>`, `^` or `v`;
/// check, cross and star glyphs become `Y`, `X` or `*`; bullets become `-`;
/// smart quotes become straight quotes; em and en dashes become `-`; the
/// ellipsis glyph becomes `.`; a fixed set of status glyphs becomes one
/// space. Every other character passes through unchanged.
pub open spec fn sanitize_char(c: char) -> char {
    if c == '\u{2500}' || c == '\u{2501}' || c == '\u{2550}' {
        '-'
    } else if c == '\u{2502}' || c == '\u{2503}' || c == '\u{2551}' {
        '|'
    } else if c == '\u{250c}' || c == '\u{2510}' || c == '\u{2514}' || c == '\u{2518}' || c
        == '\u{251c}' || c == '\u{2524}' || c == '\u{252c}' || c == '\u{2534}' || c == '\u{253c}'
        || c == '\u{2554}' || c == '\u{2557}' || c == '\u{255a}' || c == '\u{255d}' {
        '+'
    } else if c == '\u{2588}' || c == '\u{2591}' || c == '\u{2592}' || c == '\u{2593}' || c
        == '\u{25a0}' || c == '\u{25a1}' || c == '\u{2605}' || c == '\u{2606}' {
        '*'
    } else if c == '\u{2192}' || c == '\u{21d2}' {
        '>'
    } else if c == '\u{2190}' || c == '\u{21d0}' {
        '<'
    } else if c == '\u{2191}' {
        '^'
    } else if c == '\u{2193}' {
        'v'
    } else if c == '\u{2713}' || c == '\u{2714}' {
        'Y'
    } else if c == '\u{2717}' || c == '\u{2718}' {
        'X'
    } else if c == '\u{2022}' || c == '\u{25e6}' || c == '\u{25aa}' || c == '\u{25b8}' || c
        == '\u{2013}' || c == '\u{2014}' {
        '-'
    } else if c == '\u{2018}' || c == '\u{2019}' {
        '\''
    } else if c == '\u{201c}' || c == '\u{201d}' {
        '"'
    } else if c == '\u{2026}' {
        '.'
    } else if c == '\u{2705}' || c == '\u{274c}' || c == '\u{26a0}' || c == '\u{2728}' || c
        == '\u{2702}' || c == '\u{1f4c4}' || c == '\u{1f4e6}' || c == '\u{1f4e4}' || c
        == '\u{1f4ca}' || c == '\u{1f9ee}' || c == '\u{1f3af}' || c == '\u{1f4da}' || c
        == '\u{1f50d}' || c == '\u{1f4a1}' || c == '\u{1f527}' || c == '\u{1f4c2}' || c
        == '\u{1f4dd}' {
        ' '
    } else {
        c
    }
}

pub fn sanitize_char_x(c: char) -> (r: char)
    ensures
        r == sanitize_char(c),
{
    if c == '\u{2500}' || c == '\u{2501}' || c == '\u{2550}' {
        '-'
    } else if c == '\u{2502}' || c == '\u{2503}' || c == '\u{2551}' {
        '|'
    } else if c == '\u{250c}' || c == '\u{2510}' || c == '\u{2514}' || c == '\u{2518}' || c
        == '\u{251c}' || c == '\u{2524}' || c == '\u{252c}' || c == '\u{2534}' || c == '\u{253c}'
        || c == '\u{2554}' || c == '\u{2557}' || c == '\u{255a}' || c == '\u{255d}' {
        '+'
    } else if c == '\u{2588}' || c == '\u{2591}' || c == '\u{2592}' || c == '\u{2593}' || c
        == '\u{25a0}' || c == '\u{25a1}' || c == '\u{2605}' || c == '\u{2606}' {
        '*'
    } else if c == '\u{2192}' || c == '\u{21d2}' {
        '>'
    } else if c == '\u{2190}' || c == '\u{21d0}' {
        '<'
    } else if c == '\u{2191}' {
        '^'
    } else if c == '\u{2193}' {
        'v'
    } else if c == '\u{2713}' || c == '\u{2714}' {
        'Y'
    } else if c == '\u{2717}' || c == '\u{2718}' {
        'X'
    } else if c == '\u{2022}' || c == '\u{25e6}' || c == '\u{25aa}' || c == '\u{25b8}' || c
        == '\u{2013}' || c == '\u{2014}' {
        '-'
    } else if c == '\u{2018}' || c == '\u{2019}' {
        '\''
    } else if c == '\u{201c}' || c == '\u{201d}' {
        '"'
    } else if c == '\u{2026}' {
        '.'
    } else if c == '\u{2705}' || c == '\u{274c}' || c == '\u{26a0}' || c == '\u{2728}' || c
        == '\u{2702}' || c == '\u{1f4c4}' || c == '\u{1f4e6}' || c == '\u{1f4e4}' || c
        == '\u{1f4ca}' || c == '\u{1f9ee}' || c == '\u{1f3af}' || c == '\u{1f4da}' || c
        == '\u{1f50d}' || c == '\u{1f4a1}' || c == '\u{1f527}' || c == '\u{1f4c2}' || c
        == '\u{1f4dd}' {
        ' '
    } else {
        c
    }
}

/// Every run of consecutive spaces shortened to a single space.
pub open spec fn collapse_spaces(s: Seq<char>) -> Seq<char>
    decreases s.len(),
{
    if s.len() <= 1 {
        s
    } else if s[0] == ' ' && s[1] == ' ' {
        collapse_spaces(s.drop_first())
    } else {
        seq![s[0]] + collapse_spaces(s.drop_first())
    }
}

/// The substitution table applied to every character.
pub open spec fn sanitize_all(s: Seq<char>) -> Seq<char> {
    s.map_values(|c: char| sanitize_char(c))
}

/// What sanitization produces: the substitution table applied to every
/// character, then space runs collapsed.
pub open spec fn sanitize_spec(s: Seq<char>) -> Seq<char> {
    collapse_spaces(sanitize_all(s))
}

/// No two adjacent characters are both spaces.
pub open spec fn no_double_space(s: Seq<char>) -> bool {
    forall|i: int| 0 <= i < s.len() - 1 ==> !(#[trigger] s[i] == ' ' && s[i + 1] == ' ')
}

proof fn lemma_collapse_last(s: Seq<char>)
    requires
        s.len() > 0,
    ensures
        collapse_spaces(s).len() > 0,
        collapse_spaces(s).last() == s.last(),
    decreases s.len(),
{
    if s.len() > 1 {
        lemma_collapse_last(s.drop_first());
    }
}

proof fn lemma_collapse_push(s: Seq<char>, c: char)
    ensures
        collapse_spaces(s.push(c)) == if s.len() > 0 && s.last() == ' ' && c == ' ' {
            collapse_spaces(s)
        } else {
            collapse_spaces(s).push(c)
        },
    decreases s.len(),
{
    if s.len() == 0 {
        assert(s.push(c) =~= seq![c]);
        assert(collapse_spaces(seq![c]) =~= collapse_spaces(s).push(c));
    } else if s.len() == 1 {
        let two = s.push(c);
        assert(two.len() == 2 && two[0] == s[0] && two[1] == c);
        assert(two.drop_first() =~= seq![c]);
        assert(collapse_spaces(seq![c]) == seq![c]);
        if s[0] == ' ' && c == ' ' {
            assert(collapse_spaces(two) == collapse_spaces(two.drop_first()));
            assert(seq![c] =~= collapse_spaces(s));
        } else {
            assert(collapse_spaces(two) == seq![two[0]] + collapse_spaces(two.drop_first()));
            assert(seq![s[0]] + seq![c] =~= collapse_spaces(s).push(c));
        }
    } else {
        lemma_collapse_push(s.drop_first(), c);
        assert(s.push(c).drop_first() =~= s.drop_first().push(c));
        assert(s.drop_first().last() == s.last());
        if s[0] == ' ' && s[1] == ' ' {
        } else {
            if s.len() > 0 && s.last() == ' ' && c == ' ' {
            } else {
                assert(seq![s[0]] + collapse_spaces(s.drop_first()).push(c) =~= (seq![s[0]]
                    + collapse_spaces(s.drop_first())).push(c));
            }
        }
    }
}

proof fn lemma_collapse_first(s: Seq<char>)
    requires
        s.len() > 0,
    ensures
        collapse_spaces(s).len() > 0,
        collapse_spaces(s)[0] == s[0],
    decreases s.len(),
{
    if s.len() > 1 && s[0] == ' ' && s[1] == ' ' {
        lemma_collapse_first(s.drop_first());
    }
}

proof fn lemma_collapse_no_double(s: Seq<char>)
    ensures
        no_double_space(collapse_spaces(s)),
    decreases s.len(),
{
    if s.len() > 1 {
        lemma_collapse_no_double(s.drop_first());
        if !(s[0] == ' ' && s[1] == ' ') {
            let rest = collapse_spaces(s.drop_first());
            let whole = seq![s[0]] + rest;
            lemma_collapse_first(s.drop_first());
            assert forall|i: int| 0 <= i < whole.len() - 1 implies !(#[trigger] whole[i] == ' ' && whole[i + 1]
                == ' ') by {
                if i == 0 {
                    assert(whole[1] == rest[0]);
                    assert(rest[0] == s.drop_first()[0]);
                } else {
                    assert(whole[i] == rest[i - 1]);
                    assert(whole[i + 1] == rest[i]);
                }
            }
        }
    }
}

proof fn lemma_collapse_fixed(s: Seq<char>)
    requires
        no_double_space(s),
    ensures
        collapse_spaces(s) == s,
    decreases s.len(),
{
    if s.len() > 1 {
        assert forall|i: int| 0 <= i < s.drop_first().len() - 1 implies !(#[trigger] s.drop_first()[i] == ' '
            && s.drop_first()[i + 1] == ' ') by {
            assert(s.drop_first()[i] == s[i + 1]);
            assert(s.drop_first()[i + 1] == s[i + 2]);
        }
        lemma_collapse_fixed(s.drop_first());
        assert(seq![s[0]] + s.drop_first() =~= s);
    }
}

proof fn lemma_collapse_members(s: Seq<char>)
    ensures
        forall|i: int|
            0 <= i < collapse_spaces(s).len() ==> s.contains(#[trigger] collapse_spaces(s)[i]),
    decreases s.len(),
{
    if s.len() > 1 {
        lemma_collapse_members(s.drop_first());
        let rest = collapse_spaces(s.drop_first());
        assert forall|i: int| 0 <= i < rest.len() implies s.contains(rest[i]) by {
            assert(s.drop_first().contains(rest[i]));
            let j = choose|j: int| 0 <= j < s.drop_first().len() && s.drop_first()[j] == rest[i];
            assert(s[j + 1] == rest[i]);
        }
        if !(s[0] == ' ' && s[1] == ' ') {
            let whole = seq![s[0]] + rest;
            assert forall|i: int| 0 <= i < whole.len() implies s.contains(whole[i]) by {
                if i == 0 {
                    assert(s[0] == whole[0]);
                } else {
                    assert(whole[i] == rest[i - 1]);
                }
            }
        }
    } else if s.len() == 1 {
        assert(s.contains(s[0]));
    }
}

proof fn lemma_sanitize_char_stable(c: char)
    ensures
        sanitize_char(sanitize_char(c)) == sanitize_char(c),
{
}

/// Law: sanitizing already-sanitized text changes nothing further, and
/// sanitized text never holds two adjacent spaces.
pub proof fn lemma_sanitize_idempotent(s: Seq<char>)
    ensures
        sanitize_spec(sanitize_spec(s)) == sanitize_spec(s),
        no_double_space(sanitize_spec(s)),
{
    let m = sanitize_all(s);
    let out = collapse_spaces(m);
    lemma_collapse_no_double(m);
    lemma_collapse_members(m);
    assert forall|i: int| 0 <= i < out.len() implies sanitize_char(#[trigger] out[i]) == out[i] by {
        assert(m.contains(out[i]));
        let j = choose|j: int| 0 <= j < m.len() && m[j] == out[i];
        assert(m[j] == sanitize_char(s[j]));
        lemma_sanitize_char_stable(s[j]);
    }
    assert(sanitize_all(out) =~= out);
    lemma_collapse_fixed(out);
}

/// Applies the fixed substitution table to `text` and collapses the
/// resulting space runs: an ASCII-biased copy that is safe to hand to an
/// embedding model with limited symbol support. Total over any input.
pub fn sanitize_for_embedding(text: &str) -> (r: String)
    ensures
        r@ == sanitize_spec(text@),
{
    let cs = crate::text::str_chars(text);
    let mut out: Vec<char> = Vec::new();
    let mut i: usize = 0;
    proof {
        assert(sanitize_all(cs@.take(0)) =~= Seq::<char>::empty());
    }
    while i < cs.len()
        invariant
            i <= cs.len(),
            out@ == collapse_spaces(sanitize_all(cs@.take(i as int))),
        decreases cs.len() - i,
    {
        let ghost pre = sanitize_all(cs@.take(i as int));
        let m = sanitize_char_x(cs[i]);
        proof {
            assert(sanitize_all(cs@.take(i + 1 as int)) =~= pre.push(sanitize_char(cs@[i as int])));
            lemma_collapse_push(pre, sanitize_char(cs@[i as int]));
            if pre.len() > 0 {
                lemma_collapse_last(pre);
            }
        }
        if m == ' ' && out.len() > 0 && out[out.len() - 1] == ' ' {
        } else {
            out.push(m);
        }
        i = i + 1;
    }
    proof {
        assert(cs@.take(cs@.len() as int) =~= cs@);
    }
    crate::text::chars_to_string(&out)
}

} // verus!
