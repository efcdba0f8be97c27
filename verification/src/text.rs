//! Character- and line-level text primitives shared by the segmenters:
//! UTF-8 byte sizes, whitespace handling, line splitting and joining,
//! and the line classification predicates (headers, fences, lists).

use vstd::prelude::*;
use vstd::std_specs::iter::IteratorSpec;

verus! {

broadcast use vstd::string::group_string_axioms;

/// Number of bytes the UTF-8 encoding of one character occupies.
pub open spec fn char_size(c: char) -> int {
    if (c as u32) < 0x80 {
        1
    } else if (c as u32) < 0x800 {
        2
    } else if (c as u32) < 0x10000 {
        3
    } else {
        4
    }
}

/// Number of bytes the UTF-8 encoding of a character sequence occupies.
/// Buffer size thresholds are measured with this function.
pub open spec fn text_size(s: Seq<char>) -> int
    decreases s.len(),
{
    if s.len() == 0 {
        0
    } else {
        char_size(s[0]) + text_size(s.drop_first())
    }
}

pub proof fn lemma_text_size_bounds(s: Seq<char>)
    ensures
        s.len() <= text_size(s) <= 4 * s.len(),
    decreases s.len(),
{
    if s.len() > 0 {
        lemma_text_size_bounds(s.drop_first());
    }
}

pub proof fn lemma_text_size_add(a: Seq<char>, b: Seq<char>)
    ensures
        text_size(a + b) == text_size(a) + text_size(b),
    decreases a.len(),
{
    if a.len() == 0 {
        assert(a + b =~= b);
    } else {
        assert((a + b).drop_first() =~= a.drop_first() + b);
        lemma_text_size_add(a.drop_first(), b);
    }
}

/// Byte width of one character's UTF-8 encoding.
pub fn char_size_x(c: char) -> (n: usize)
    ensures
        n == char_size(c),
{
    let u = c as u32;
    if u < 0x80 {
        1
    } else if u < 0x800 {
        2
    } else if u < 0x10000 {
        3
    } else {
        4
    }
}

/// UTF-8 byte size of a whole character vector. Always exact: the sum
/// fits easily in a `u128`.
pub fn text_size_x(l: &Vec<char>) -> (n: u128)
    ensures
        n == text_size(l@),
{
    let mut n: u128 = 0;
    let mut j: usize = 0;
    proof {
        assert(l@.skip(0) =~= l@);
    }
    while j < l.len()
        invariant
            j <= l.len(),
            n == text_size(l@.take(j as int)),
            n <= 4 * j,
        decreases l.len() - j,
    {
        let c = l[j];
        proof {
            lemma_text_size_add(l@.take(j as int), seq![l@[j as int]]);
            assert(l@.take(j + 1 as int) =~= l@.take(j as int) + seq![l@[j as int]]);
            assert(seq![l@[j as int]].drop_first() =~= Seq::<char>::empty());
            assert(text_size(Seq::<char>::empty()) == 0);
            assert(text_size(seq![l@[j as int]]) == char_size(l@[j as int]));
        }
        n = n + char_size_x(c) as u128;
        j = j + 1;
    }
    proof {
        assert(l@.take(l@.len() as int) =~= l@);
    }
    n
}

/// The characters that line trimming treats as whitespace (the Unicode
/// white-space set, as `str::trim` recognizes it).
pub open spec fn is_ws(c: char) -> bool {
    c == ' ' || c == '\t' || c == '\n' || c == '\u{b}' || c == '\u{c}' || c == '\r' || c
        == '\u{85}' || c == '\u{a0}' || c == '\u{1680}' || ('\u{2000}' <= c && c <= '\u{200a}') || c
        == '\u{2028}' || c == '\u{2029}' || c == '\u{202f}' || c == '\u{205f}' || c == '\u{3000}'
}

pub fn is_ws_x(c: char) -> (r: bool)
    ensures
        r == is_ws(c),
{
    c == ' ' || c == '\t' || c == '\n' || c == '\u{b}' || c == '\u{c}' || c == '\r' || c
        == '\u{85}' || c == '\u{a0}' || c == '\u{1680}' || ('\u{2000}' <= c && c <= '\u{200a}') || c
        == '\u{2028}' || c == '\u{2029}' || c == '\u{202f}' || c == '\u{205f}' || c == '\u{3000}'
}

/// A line with its leading whitespace removed.
pub open spec fn trim_start_spec(l: Seq<char>) -> Seq<char>
    decreases l.len(),
{
    if l.len() > 0 && is_ws(l[0]) {
        trim_start_spec(l.drop_first())
    } else {
        l
    }
}

/// A line is blank when it holds only whitespace.
pub open spec fn is_blank(l: Seq<char>) -> bool {
    trim_start_spec(l).len() == 0
}

/// A line opens or closes a code block when its trimmed form starts with
/// three backticks.
pub open spec fn is_fence(l: Seq<char>) -> bool {
    let t = trim_start_spec(l);
    t.len() >= 3 && t[0] == '`' && t[1] == '`' && t[2] == '`'
}

/// A line is a list item when its trimmed form starts with a bullet or an
/// enumeration marker.
pub open spec fn is_list_line(l: Seq<char>) -> bool {
    let t = trim_start_spec(l);
    t.len() > 0 && (t[0] == '-' || t[0] == '*' || t[0] == '1')
}

/// Number of leading `#` characters: the header level, 0 for a non-header.
pub open spec fn lead_hashes(l: Seq<char>) -> int
    decreases l.len(),
{
    if l.len() > 0 && l[0] == '#' {
        1 + lead_hashes(l.drop_first())
    } else {
        0
    }
}

pub open spec fn starts_hash(l: Seq<char>) -> bool {
    lead_hashes(l) >= 1
}

pub open spec fn is_h1(l: Seq<char>) -> bool {
    lead_hashes(l) == 1
}

pub open spec fn is_h2(l: Seq<char>) -> bool {
    lead_hashes(l) == 2
}

pub open spec fn is_h3_or_deeper(l: Seq<char>) -> bool {
    lead_hashes(l) >= 3
}

/// Index of the first non-whitespace character (the line's length when the
/// whole line is whitespace).
fn trim_start_index(l: &Vec<char>) -> (k: usize)
    ensures
        k <= l.len(),
        trim_start_spec(l@) == l@.skip(k as int),
{
    let mut j: usize = 0;
    proof {
        assert(l@.skip(0) =~= l@);
    }
    while j < l.len()
        invariant
            j <= l.len(),
            trim_start_spec(l@) == trim_start_spec(l@.skip(j as int)),
        decreases l.len() - j,
    {
        if !is_ws_x(l[j]) {
            proof {
                assert(trim_start_spec(l@.skip(j as int)) == l@.skip(j as int));
            }
            return j;
        }
        proof {
            assert(l@.skip(j as int).drop_first() =~= l@.skip(j + 1 as int));
        }
        j = j + 1;
    }
    proof {
        assert(l@.skip(l@.len() as int) =~= Seq::<char>::empty());
    }
    l.len()
}

pub fn is_blank_x(l: &Vec<char>) -> (r: bool)
    ensures
        r == is_blank(l@),
{
    let k = trim_start_index(l);
    k == l.len()
}

pub fn is_fence_x(l: &Vec<char>) -> (r: bool)
    ensures
        r == is_fence(l@),
{
    let k = trim_start_index(l);
    if l.len() - k >= 3 {
        l[k] == '`' && l[k + 1] == '`' && l[k + 2] == '`'
    } else {
        false
    }
}

pub fn is_list_line_x(l: &Vec<char>) -> (r: bool)
    ensures
        r == is_list_line(l@),
{
    let k = trim_start_index(l);
    if k < l.len() {
        l[k] == '-' || l[k] == '*' || l[k] == '1'
    } else {
        false
    }
}

pub fn lead_hashes_x(l: &Vec<char>) -> (n: usize)
    ensures
        n == lead_hashes(l@),
{
    let mut j: usize = 0;
    proof {
        assert(l@.skip(0) =~= l@);
    }
    while j < l.len()
        invariant
            j <= l.len(),
            lead_hashes(l@) == j + lead_hashes(l@.skip(j as int)),
        decreases l.len() - j,
    {
        if l[j] != '#' {
            proof {
                assert(lead_hashes(l@.skip(j as int)) == 0);
            }
            return j;
        }
        proof {
            assert(l@.skip(j as int).drop_first() =~= l@.skip(j + 1 as int));
        }
        j = j + 1;
    }
    proof {
        assert(l@.skip(l@.len() as int) =~= Seq::<char>::empty());
    }
    l.len()
}

/// True when no character of `s` is a newline.
pub open spec fn no_nl(s: Seq<char>) -> bool {
    forall|i: int| 0 <= i < s.len() ==> s[i] != '\n'
}

/// Index of the first newline in `s`, or `s.len()` when there is none.
pub open spec fn first_nl(s: Seq<char>) -> int
    decreases s.len(),
{
    if s.len() == 0 {
        0
    } else if s[0] == '\n' {
        0
    } else {
        1 + first_nl(s.drop_first())
    }
}

pub proof fn lemma_first_nl(s: Seq<char>)
    ensures
        0 <= first_nl(s) <= s.len(),
        first_nl(s) < s.len() ==> s[first_nl(s)] == '\n',
        forall|i: int| 0 <= i < first_nl(s) ==> s[i] != '\n',
    decreases s.len(),
{
    if s.len() > 0 && s[0] != '\n' {
        lemma_first_nl(s.drop_first());
        assert forall|i: int| 0 <= i < first_nl(s) implies s[i] != '\n' by {
            if i >= 1 {
                assert(s[i] == s.drop_first()[i - 1]);
            }
        }
    }
}

pub proof fn lemma_first_nl_concat(a: Seq<char>, b: Seq<char>)
    requires
        no_nl(a),
    ensures
        first_nl(a + b) == a.len() + first_nl(b),
    decreases a.len(),
{
    if a.len() == 0 {
        assert(a + b =~= b);
    } else {
        assert((a + b).drop_first() =~= a.drop_first() + b);
        lemma_first_nl_concat(a.drop_first(), b);
    }
}

/// A line as `str::lines` reports it: a trailing carriage return before the
/// newline is not part of the line.
pub open spec fn strip_cr(l: Seq<char>) -> Seq<char> {
    if l.len() > 0 && l.last() == '\r' {
        l.drop_last()
    } else {
        l
    }
}

/// The line sequence of a document: pieces between newlines, each with a
/// trailing carriage return removed, and no empty final piece after a
/// trailing newline.
pub open spec fn line_split(s: Seq<char>) -> Seq<Seq<char>>
    decreases s.len(),
    via line_split_decreases
{
    if s.len() == 0 {
        Seq::empty()
    } else {
        let i = first_nl(s);
        if i >= s.len() {
            seq![strip_cr(s)]
        } else {
            seq![strip_cr(s.take(i))] + line_split(s.skip(i + 1))
        }
    }
}

#[via_fn]
proof fn line_split_decreases(s: Seq<char>) {
    lemma_first_nl(s);
}

/// Lines glued back together, each followed by one newline.
pub open spec fn join_nl(lines: Seq<Seq<char>>) -> Seq<char>
    decreases lines.len(),
{
    if lines.len() == 0 {
        Seq::empty()
    } else {
        lines[0] + seq!['\n'] + join_nl(lines.drop_first())
    }
}

pub proof fn lemma_join_nl_add(a: Seq<Seq<char>>, b: Seq<Seq<char>>)
    ensures
        join_nl(a + b) == join_nl(a) + join_nl(b),
    decreases a.len(),
{
    if a.len() == 0 {
        assert(a + b =~= b);
        assert(join_nl(a) + join_nl(b) =~= join_nl(b));
    } else {
        assert((a + b).drop_first() =~= a.drop_first() + b);
        lemma_join_nl_add(a.drop_first(), b);
        assert(join_nl(a + b) =~= join_nl(a) + join_nl(b));
    }
}

/// The characters of a string slice, in order.
pub fn str_chars(s: &str) -> (v: Vec<char>)
    ensures
        v@ == s@,
{
    let mut it = s.chars();
    let mut v: Vec<char> = Vec::new();
    loop
        invariant
            it.obeys_prophetic_iter_laws(),
            v@ + it.remaining() == s@,
        ensures
            it.remaining().len() == 0,
            v@ + it.remaining() == s@,
        decreases s@.len() - v@.len(),
    {
        match it.next() {
            Some(c) => {
                v.push(c);
            },
            None => {
                break ;
            },
        }
    }
    proof {
        assert(v@ =~= s@);
    }
    v
}

/// Relies on `String`'s `FromIterator<&char>` impl: collecting the
/// characters of a vector yields the string of exactly those characters.
#[verifier::external_body]
pub fn chars_to_string(v: &Vec<char>) -> (s: String)
    ensures
        s@ == v@,
{
    v.iter().collect()
}

/// Appends every character of `src` to `dst`.
pub fn extend_chars(dst: &mut Vec<char>, src: &Vec<char>)
    ensures
        final(dst)@ == old(dst)@ + src@,
{
    let mut j: usize = 0;
    proof {
        assert(dst@ =~= old(dst)@ + src@.take(0));
    }
    while j < src.len()
        invariant
            j <= src.len(),
            dst@ == old(dst)@ + src@.take(j as int),
        decreases src.len() - j,
    {
        dst.push(src[j]);
        proof {
            assert(old(dst)@ + src@.take(j + 1 as int) =~= (old(dst)@ + src@.take(j as int)).push(
                src@[j as int],
            ));
        }
        j = j + 1;
    }
    proof {
        assert(src@.take(src@.len() as int) =~= src@);
    }
}

/// A fresh vector holding the same characters.
pub fn clone_chars(src: &Vec<char>) -> (r: Vec<char>)
    ensures
        r@ == src@,
{
    let mut r: Vec<char> = Vec::new();
    extend_chars(&mut r, src);
    proof {
        assert(Seq::<char>::empty() + src@ =~= src@);
    }
    r
}

proof fn lemma_line_split_close(cur: Seq<char>, rest: Seq<char>)
    requires
        no_nl(cur),
        rest.len() > 0,
        rest[0] == '\n',
    ensures
        line_split(cur + rest) == seq![strip_cr(cur)] + line_split(rest.drop_first()),
{
    let s = cur + rest;
    lemma_first_nl_concat(cur, rest);
    assert(first_nl(rest) == 0);
    assert(first_nl(s) == cur.len());
    assert(s.len() > 0);
    assert(s.take(cur.len() as int) =~= cur);
    assert(s.skip(cur.len() as int + 1) =~= rest.drop_first());
}

proof fn lemma_line_split_last(cur: Seq<char>)
    requires
        no_nl(cur),
    ensures
        cur.len() == 0 ==> line_split(cur) == Seq::<Seq<char>>::empty(),
        cur.len() > 0 ==> line_split(cur) == seq![strip_cr(cur)],
{
    if cur.len() > 0 {
        lemma_first_nl_concat(cur, Seq::empty());
        assert(cur + Seq::<char>::empty() =~= cur);
        assert(first_nl(cur) == cur.len());
    }
}

/// No line that splitting produces holds a newline itself.
pub proof fn lemma_line_split_no_nl(s: Seq<char>)
    ensures
        forall|k: int| 0 <= k < line_split(s).len() ==> no_nl(#[trigger] line_split(s)[k]),
    decreases s.len(),
{
    if s.len() > 0 {
        let i = first_nl(s);
        lemma_first_nl(s);
        if i >= s.len() {
            assert(no_nl(strip_cr(s)));
        } else {
            lemma_line_split_no_nl(s.skip(i + 1));
            let head = strip_cr(s.take(i));
            assert forall|j: int| 0 <= j < head.len() implies head[j] != '\n' by {
                assert(head[j] == s[j]);
            }
            assert forall|k: int| 0 <= k < line_split(s).len() implies no_nl(
                #[trigger] line_split(s)[k],
            ) by {
                if k >= 1 {
                    assert(line_split(s)[k] == line_split(s.skip(i + 1))[k - 1]);
                }
            }
        }
    }
}

/// Splitting the text that joining produced recovers the lines, with
/// trailing carriage returns stripped.
pub proof fn lemma_join_then_split(ls: Seq<Seq<char>>)
    requires
        forall|k: int| 0 <= k < ls.len() ==> no_nl(#[trigger] ls[k]),
    ensures
        line_split(join_nl(ls)) == ls.map_values(|l: Seq<char>| strip_cr(l)),
    decreases ls.len(),
{
    if ls.len() == 0 {
        assert(line_split(join_nl(ls)) =~= ls.map_values(|l: Seq<char>| strip_cr(l)));
    } else {
        let cur = ls[0];
        let rest = seq!['\n'] + join_nl(ls.drop_first());
        assert(join_nl(ls) =~= cur + rest);
        lemma_line_split_close(cur, rest);
        assert(rest.drop_first() =~= join_nl(ls.drop_first()));
        assert forall|k: int| 0 <= k < ls.drop_first().len() implies no_nl(
            #[trigger] ls.drop_first()[k],
        ) by {
            assert(ls.drop_first()[k] == ls[k + 1]);
        }
        lemma_join_then_split(ls.drop_first());
        assert(line_split(join_nl(ls)) =~= ls.map_values(|l: Seq<char>| strip_cr(l)));
    }
}

proof fn lemma_trim_drop_last_cr(l: Seq<char>)
    requires
        l.len() > 0,
        l.last() == '\r',
    ensures
        trim_start_spec(l).len() != 1,
        trim_start_spec(l).len() == 0 ==> trim_start_spec(l.drop_last()) == Seq::<char>::empty(),
        trim_start_spec(l).len() > 1 ==> trim_start_spec(l.drop_last()) == trim_start_spec(
            l,
        ).drop_last(),
    decreases l.len(),
{
    if l.len() == 1 {
        assert(trim_start_spec(l) =~= Seq::<char>::empty());
        assert(l.drop_last() =~= Seq::<char>::empty());
    } else if is_ws(l[0]) {
        assert(trim_start_spec(l) == trim_start_spec(l.drop_first()));
        assert(l.drop_first().last() == l.last());
        lemma_trim_drop_last_cr(l.drop_first());
        assert(l.drop_last()[0] == l[0]);
        assert(trim_start_spec(l.drop_last()) == trim_start_spec(l.drop_last().drop_first()));
        assert(l.drop_last().drop_first() =~= l.drop_first().drop_last());
    } else {
        assert(trim_start_spec(l) == l);
        assert(trim_start_spec(l.drop_last()) == l.drop_last());
    }
}

/// Whether a line is a fence does not depend on a trailing carriage return.
pub proof fn lemma_is_fence_strip(l: Seq<char>)
    ensures
        is_fence(strip_cr(l)) == is_fence(l),
{
    if l.len() > 0 && l.last() == '\r' {
        lemma_trim_drop_last_cr(l);
        let t = trim_start_spec(l);
        if t.len() > 1 {
            assert(t.last() == l.last()) by {
                lemma_trim_is_suffix(l);
            }
        }
    }
}

proof fn lemma_trim_is_suffix(l: Seq<char>)
    requires
        trim_start_spec(l).len() > 0,
    ensures
        trim_start_spec(l).last() == l.last(),
        l.len() > 0,
    decreases l.len(),
{
    if l.len() > 0 && is_ws(l[0]) {
        lemma_trim_is_suffix(l.drop_first());
    }
}

/// A document has no more lines than characters.
pub proof fn lemma_line_split_count(s: Seq<char>)
    ensures
        line_split(s).len() <= s.len(),
    decreases s.len(),
{
    if s.len() > 0 {
        lemma_first_nl(s);
        let i = first_nl(s);
        if i < s.len() {
            lemma_line_split_count(s.skip(i + 1));
        }
    }
}

/// Splits a document into its lines: pieces between newlines, each with a
/// trailing carriage return removed, with no empty final piece after a
/// trailing newline.
pub fn split_lines(doc: &Vec<char>) -> (r: Vec<Vec<char>>)
    ensures
        r.deep_view() == line_split(doc@),
{
    let mut out: Vec<Vec<char>> = Vec::new();
    let mut cur: Vec<char> = Vec::new();
    let mut i: usize = 0;
    proof {
        assert(cur@ + doc@.skip(0) =~= doc@);
    }
    while i < doc.len()
        invariant
            i <= doc.len(),
            no_nl(cur@),
            line_split(doc@) == out.deep_view() + line_split(cur@ + doc@.skip(i as int)),
        decreases doc.len() - i,
    {
        let ghost rest = doc@.skip(i as int);
        let ghost cur0 = cur@;
        let c = doc[i];
        if c == '\n' {
            proof {
                lemma_line_split_close(cur0, rest);
            }
            let mut line = cur;
            if line.len() > 0 && line[line.len() - 1] == '\r' {
                line.pop();
            }
            proof {
                assert(line@ =~= strip_cr(cur0));
            }
            cur = Vec::new();
            let ghost old_out = out.deep_view();
            out.push(line);
            proof {
                assert(out.deep_view() =~~= old_out + seq![strip_cr(cur0)]);
                assert(old_out + seq![strip_cr(cur0)] + line_split(rest.drop_first()) =~= old_out
                    + (seq![strip_cr(cur0)] + line_split(rest.drop_first())));
            }
        } else {
            cur.push(c);
        }
        proof {
            assert(rest.drop_first() =~= doc@.skip(i + 1 as int));
        }
        i = i + 1;
        proof {
            if c != '\n' {
                assert(cur@ + doc@.skip(i as int) =~= cur0 + rest);
            } else {
                assert(cur@ + doc@.skip(i as int) =~= rest.drop_first());
            }
        }
    }
    proof {
        assert(cur@ + doc@.skip(doc@.len() as int) =~= cur@);
        lemma_line_split_last(cur@);
    }
    let ghost cur0 = cur@;
    if cur.len() > 0 {
        let mut line = cur;
        if line[line.len() - 1] == '\r' {
            line.pop();
        }
        proof {
            assert(line@ =~= strip_cr(cur0));
        }
        let ghost old_out = out.deep_view();
        out.push(line);
        proof {
            assert(out.deep_view() =~~= old_out + seq![strip_cr(cur0)]);
        }
    } else {
        proof {
            assert(out.deep_view() =~= out.deep_view() + line_split(cur@));
        }
    }
    out
}

/// The lines of a document given as a string slice.
pub fn doc_lines(s: &str) -> (r: Vec<Vec<char>>)
    ensures
        r.deep_view() == line_split(s@),
{
    let v = str_chars(s);
    split_lines(&v)
}

/// The text of lines `lo..hi`, each followed by a newline, as a string.
pub fn join_lines(lines: &Vec<Vec<char>>, lo: usize, hi: usize) -> (r: String)
    requires
        lo <= hi <= lines@.len(),
    ensures
        r@ == join_nl(lines.deep_view().subrange(lo as int, hi as int)),
{
    let mut acc: Vec<char> = Vec::new();
    let mut k: usize = lo;
    proof {
        assert(lines.deep_view().subrange(lo as int, lo as int) =~= Seq::<Seq<char>>::empty());
        assert(acc@ =~= join_nl(lines.deep_view().subrange(lo as int, lo as int)));
    }
    while k < hi
        invariant
            lo <= k <= hi <= lines@.len(),
            lines.deep_view().len() == lines@.len(),
            acc@ == join_nl(lines.deep_view().subrange(lo as int, k as int)),
        decreases hi - k,
    {
        extend_chars(&mut acc, &lines[k]);
        acc.push('\n');
        proof {
            let dv = lines.deep_view();
            assert(dv[k as int] =~= lines@[k as int]@);
            assert(dv.subrange(lo as int, k + 1 as int) =~= dv.subrange(lo as int, k as int)
                + seq![dv[k as int]]);
            lemma_join_nl_add(dv.subrange(lo as int, k as int), seq![dv[k as int]]);
            assert(seq![dv[k as int]].drop_first() =~= Seq::<Seq<char>>::empty());
            assert(join_nl(Seq::<Seq<char>>::empty()) == Seq::<char>::empty());
            assert(join_nl(seq![dv[k as int]]) =~= dv[k as int] + seq!['\n']);
            assert(acc@ =~= join_nl(dv.subrange(lo as int, k as int)) + (dv[k as int]
                + seq!['\n']));
        }
        k = k + 1;
    }
    chars_to_string(&acc)
}

/// The lines as owned strings, preserving every character.
pub fn strings_of(lines: &Vec<Vec<char>>) -> (r: Vec<String>)
    ensures
        r.deep_view() == lines.deep_view(),
{
    let mut r: Vec<String> = Vec::new();
    let mut k: usize = 0;
    while k < lines.len()
        invariant
            k <= lines.len(),
            r@.len() == k,
            forall|j: int| 0 <= j < k ==> #[trigger] r@[j]@ == lines@[j]@,
        decreases lines.len() - k,
    {
        r.push(chars_to_string(&lines[k]));
        k = k + 1;
    }
    proof {
        assert(r.deep_view() =~~= lines.deep_view());
    }
    r
}

/// `x` capped at the largest `u128`.
pub open spec fn sat128(x: int) -> int {
    if x > u128::MAX as int {
        u128::MAX as int
    } else {
        x
    }
}

/// `a + b` capped at the largest `u128`. Buffer byte sizes are tracked with
/// this addition; every threshold fits `usize`, so the cap never changes a
/// threshold comparison.
pub fn sat_add(a: u128, b: u128) -> (r: u128)
    ensures
        r as int == sat128(a as int + b as int),
{
    if a > u128::MAX - b {
        u128::MAX
    } else {
        a + b
    }
}

/// A capped size compares against a threshold below the cap exactly as the
/// true size does.
pub proof fn lemma_sat_cmp(x: int, t: int)
    requires
        0 <= t < u128::MAX as int,
    ensures
        (sat128(x) > t <==> x > t),
        (sat128(x) >= t <==> x >= t),
{
}

} // verus!
