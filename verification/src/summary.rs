//! Chunk summaries: the header context joined with a separator, followed by
//! an excerpt of the first substantial line of the content.

use crate::text::{
    char_size, doc_lines, extend_chars, is_blank, is_blank_x, line_split, str_chars,
    chars_to_string,
};
use crate::truncate::truncate_spec;
use vstd::prelude::*;

verus! {

/// A line below this many characters is too short to serve as an excerpt.
pub const EXCERPT_MIN_CHARS: usize = 50;

/// An excerpt is cut to at most this many characters.
pub const EXCERPT_MAX_CHARS: usize = 200;

pub open spec fn header_sep() -> Seq<char> {
    seq![' ', '>', ' ']
}

pub open spec fn excerpt_sep() -> Seq<char> {
    seq![' ', '|', ' ']
}

pub open spec fn ellipsis() -> Seq<char> {
    seq!['.', '.', '.']
}

/// The header context joined with `" > "`.
pub open spec fn join_headers(hs: Seq<Seq<char>>) -> Seq<char>
    decreases hs.len(),
{
    if hs.len() == 0 {
        Seq::empty()
    } else if hs.len() == 1 {
        hs[0]
    } else {
        hs[0] + header_sep() + join_headers(hs.drop_first())
    }
}

pub proof fn lemma_join_headers_push(hs: Seq<Seq<char>>, h: Seq<char>)
    ensures
        join_headers(hs.push(h)) == if hs.len() == 0 {
            h
        } else {
            join_headers(hs) + header_sep() + h
        },
    decreases hs.len(),
{
    if hs.len() == 0 {
        assert(hs.push(h) =~= seq![h]);
    } else if hs.len() == 1 {
        assert(hs.push(h).drop_first() =~= seq![h]);
        assert(join_headers(seq![h]) == h);
    } else {
        lemma_join_headers_push(hs.drop_first(), h);
        assert(hs.push(h).drop_first() =~= hs.drop_first().push(h));
        assert(hs[0] + header_sep() + (join_headers(hs.drop_first()) + header_sep() + h) =~= (hs[0]
            + header_sep() + join_headers(hs.drop_first())) + header_sep() + h);
    }
}

/// A line qualifies as an excerpt when it is not a header line, not blank,
/// and longer than the minimum excerpt length.
pub open spec fn qualifies(l: Seq<char>) -> bool {
    l.len() > EXCERPT_MIN_CHARS && l[0] != '#' && !is_blank(l)
}

/// Index of the first qualifying line, or `ls.len()` when there is none.
pub open spec fn first_qual(ls: Seq<Seq<char>>) -> int
    decreases ls.len(),
{
    if ls.len() == 0 {
        0
    } else if qualifies(ls[0]) {
        0
    } else {
        1 + first_qual(ls.drop_first())
    }
}

pub proof fn lemma_first_qual(ls: Seq<Seq<char>>)
    ensures
        0 <= first_qual(ls) <= ls.len(),
        first_qual(ls) < ls.len() ==> qualifies(ls[first_qual(ls)]),
        forall|i: int| 0 <= i < first_qual(ls) ==> !qualifies(#[trigger] ls[i]),
    decreases ls.len(),
{
    if ls.len() > 0 && !qualifies(ls[0]) {
        lemma_first_qual(ls.drop_first());
        assert forall|i: int| 0 <= i < first_qual(ls) implies !qualifies(#[trigger] ls[i]) by {
            if i >= 1 {
                assert(ls[i] == ls.drop_first()[i - 1]);
            }
        }
    }
}

/// The summary of a chunk: its headers joined with `" > "`, and, when the
/// content has a qualifying line, `" | "` plus that line cut to the excerpt
/// cap, with an ellipsis when the cut shortened it.
pub open spec fn summary_spec(content: Seq<char>, headers: Seq<Seq<char>>) -> Seq<char> {
    let ls = line_split(content);
    let j = join_headers(headers);
    let q = first_qual(ls);
    if q >= ls.len() {
        j
    } else {
        let l = ls[q];
        if l.len() > EXCERPT_MAX_CHARS {
            j + excerpt_sep() + truncate_spec(l, EXCERPT_MAX_CHARS as int) + ellipsis()
        } else {
            j + excerpt_sep() + l
        }
    }
}

fn qualifies_x(l: &Vec<char>) -> (r: bool)
    ensures
        r == qualifies(l@),
{
    l.len() > EXCERPT_MIN_CHARS && l[0] != '#' && !is_blank_x(l)
}

/// The joined header context as characters.
pub(crate) fn join_headers_x(headers: &Vec<Vec<char>>) -> (r: Vec<char>)
    ensures
        r@ == join_headers(headers.deep_view()),
{
    let mut acc: Vec<char> = Vec::new();
    let mut i: usize = 0;
    proof {
        assert(headers.deep_view().take(0) =~= Seq::<Seq<char>>::empty());
    }
    while i < headers.len()
        invariant
            i <= headers.len(),
            headers.deep_view().len() == headers@.len(),
            acc@ == join_headers(headers.deep_view().take(i as int)),
        decreases headers.len() - i,
    {
        let ghost dv = headers.deep_view();
        proof {
            assert(dv.take(i + 1 as int) =~= dv.take(i as int).push(dv[i as int]));
            lemma_join_headers_push(dv.take(i as int), dv[i as int]);
            assert(dv[i as int] =~= headers@[i as int]@);
        }
        if i > 0 {
            acc.push(' ');
            acc.push('>');
            acc.push(' ');
        }
        extend_chars(&mut acc, &headers[i]);
        proof {
            if i > 0 {
                assert(acc@ =~= join_headers(dv.take(i as int)) + header_sep() + dv[i as int]);
            } else {
                assert(acc@ =~= dv[i as int]);
            }
        }
        i = i + 1;
    }
    proof {
        assert(headers.deep_view().take(headers@.len() as int) =~= headers.deep_view());
    }
    acc
}

/// Internal form of the summary generator, over character vectors.
pub(crate) fn summary_chars(lines: &Vec<Vec<char>>, headers: &Vec<Vec<char>>) -> (r: Vec<char>)
    ensures
        r@ == ({
            let ls = lines.deep_view();
            let j = join_headers(headers.deep_view());
            let q = first_qual(ls);
            if q >= ls.len() {
                j
            } else {
                let l = ls[q];
                if l.len() > EXCERPT_MAX_CHARS {
                    j + excerpt_sep() + truncate_spec(l, EXCERPT_MAX_CHARS as int) + ellipsis()
                } else {
                    j + excerpt_sep() + l
                }
            }
        }),
{
    let ghost ls = lines.deep_view();
    let mut acc = join_headers_x(headers);
    proof {
        lemma_first_qual(ls);
    }
    let mut k: usize = 0;
    while k < lines.len()
        invariant
            k <= lines.len(),
            ls == lines.deep_view(),
            ls.len() == lines@.len(),
            acc@ == join_headers(headers.deep_view()),
            forall|i: int| 0 <= i < k ==> !qualifies(#[trigger] ls[i]),
        decreases lines.len() - k,
    {
        proof {
            assert(ls[k as int] =~= lines@[k as int]@);
        }
        if qualifies_x(&lines[k]) {
            proof {
                lemma_first_qual(ls);
                assert(first_qual(ls) == k as int);
            }
            let l = &lines[k];
            acc.push(' ');
            acc.push('|');
            acc.push(' ');
            let ghost before = acc@;
            proof {
                assert(before =~= join_headers(headers.deep_view()) + excerpt_sep());
            }
            if l.len() > EXCERPT_MAX_CHARS {
                let mut j: usize = 0;
                while j < EXCERPT_MAX_CHARS
                    invariant
                        j <= EXCERPT_MAX_CHARS < l@.len(),
                        acc@ == before + l@.take(j as int),
                        before == join_headers(headers.deep_view()) + excerpt_sep(),
                    decreases EXCERPT_MAX_CHARS - j,
                {
                    acc.push(l[j]);
                    proof {
                        assert(before + l@.take(j + 1 as int) =~= (before + l@.take(
                            j as int,
                        )).push(l@[j as int]));
                    }
                    j = j + 1;
                }
                acc.push('.');
                acc.push('.');
                acc.push('.');
                proof {
                    let ghost lk = ls[k as int];
                    assert(lk == l@);
                    assert(truncate_spec(lk, EXCERPT_MAX_CHARS as int) == lk.take(
                        EXCERPT_MAX_CHARS as int,
                    ));
                    assert(acc@ =~= join_headers(headers.deep_view()) + excerpt_sep()
                        + truncate_spec(lk, EXCERPT_MAX_CHARS as int) + ellipsis());
                }
            } else {
                extend_chars(&mut acc, l);
                proof {
                    let ghost lk = ls[k as int];
                    assert(acc@ =~= join_headers(headers.deep_view()) + excerpt_sep() + lk);
                }
            }
            return acc;
        }
        k = k + 1;
    }
    proof {
        lemma_first_qual(ls);
        assert(first_qual(ls) >= ls.len());
    }
    acc
}

/// The short descriptor of a chunk: its header context joined with `" > "`,
/// followed, when the content has a line that is not a header, not blank and
/// longer than the excerpt minimum, by `" | "` and that line truncated to
/// the excerpt cap (with a trailing ellipsis when truncation occurred).
pub fn create_summary(content: &str, headers: &Vec<String>) -> (r: String)
    ensures
        r@ == summary_spec(content@, headers.deep_view()),
{
    let lines = doc_lines(content);
    let mut hs: Vec<Vec<char>> = Vec::new();
    let mut i: usize = 0;
    while i < headers.len()
        invariant
            i <= headers.len(),
            hs@.len() == i,
            forall|j: int| 0 <= j < i ==> #[trigger] hs@[j]@ == headers@[j]@,
        decreases headers.len() - i,
    {
        hs.push(str_chars(headers[i].as_str()));
        i = i + 1;
    }
    proof {
        assert(hs.deep_view() =~~= headers.deep_view());
    }
    let r = summary_chars(&lines, &hs);
    chars_to_string(&r)
}

} // verus!
