//! Fixed-size character windows with overlap: the plain chunker used for
//! text without structure worth tracking, such as text recovered from a
//! PDF.

use vstd::prelude::*;

verus! {

/// The windows starting at `start`: each holds `size` characters (the last
/// may be shorter), and consecutive windows start `step` characters apart.
pub open spec fn windows_spec(cs: Seq<char>, size: int, step: int, start: int) -> Seq<Seq<char>>
    decreases cs.len() - start,
        when 1 <= step <= size
{
    if start >= cs.len() || start < 0 {
        Seq::empty()
    } else {
        let end = if start + size <= cs.len() {
            start + size
        } else {
            cs.len() as int
        };
        if end >= cs.len() {
            seq![cs.subrange(start, end)]
        } else {
            seq![cs.subrange(start, end)] + windows_spec(cs, size, step, start + step)
        }
    }
}

/// Copies characters `lo..hi`.
fn sub_chars(v: &Vec<char>, lo: usize, hi: usize) -> (r: Vec<char>)
    requires
        lo <= hi <= v@.len(),
    ensures
        r@ == v@.subrange(lo as int, hi as int),
{
    let mut r: Vec<char> = Vec::new();
    let mut j = lo;
    proof {
        assert(r@ =~= v@.subrange(lo as int, lo as int));
    }
    while j < hi
        invariant
            lo <= j <= hi <= v@.len(),
            r@ == v@.subrange(lo as int, j as int),
        decreases hi - j,
    {
        r.push(v[j]);
        proof {
            assert(v@.subrange(lo as int, j + 1 as int) =~= v@.subrange(lo as int, j as int).push(
                v@[j as int],
            ));
        }
        j = j + 1;
    }
    r
}

/// Splits text into character windows of `chunk_size` characters, each
/// window starting `chunk_size - overlap` characters after the previous
/// one, so consecutive windows share `overlap` characters. The overlap must
/// be smaller than the window, else no window could ever advance.
pub fn chunk_text(text: &str, chunk_size: usize, overlap: usize) -> (r: Vec<String>)
    requires
        overlap < chunk_size,
    ensures
        r.deep_view() == windows_spec(
            text@,
            chunk_size as int,
            chunk_size as int - overlap as int,
            0,
        ),
{
    let cs = crate::text::str_chars(text);
    let ghost cv = cs@;
    let step = chunk_size - overlap;
    let mut out: Vec<String> = Vec::new();
    let mut start: usize = 0;
    proof {
        assert(out.deep_view() =~= Seq::<Seq<char>>::empty());
    }
    while start < cs.len()
        invariant
            step == chunk_size - overlap,
            1 <= step <= chunk_size,
            cv == cs@,
            cv == text@,
            windows_spec(cv, chunk_size as int, step as int, 0) == out.deep_view() + windows_spec(
                cv,
                chunk_size as int,
                step as int,
                start as int,
            ),
        decreases cv.len() - start,
    {
        let end = if chunk_size <= cs.len() - start {
            start + chunk_size
        } else {
            cs.len()
        };
        let piece = sub_chars(&cs, start, end);
        let ghost out0 = out.deep_view();
        out.push(crate::text::chars_to_string(&piece));
        proof {
            assert(out.deep_view() =~~= out0.push(cv.subrange(start as int, end as int)));
        }
        if end >= cs.len() {
            proof {
                assert(out.deep_view() =~= out0 + seq![cv.subrange(start as int, end as int)]);
                assert(windows_spec(cv, chunk_size as int, step as int, start as int)
                    =~= seq![cv.subrange(start as int, end as int)]);
            }
            return out;
        }
        proof {
            assert(out.deep_view() =~= out0 + seq![cv.subrange(start as int, end as int)]);
            assert(windows_spec(cv, chunk_size as int, step as int, start as int)
                =~= seq![cv.subrange(start as int, end as int)] + windows_spec(
                cv,
                chunk_size as int,
                step as int,
                start as int + step as int,
            ));
            assert(out0 + (seq![cv.subrange(start as int, end as int)] + windows_spec(
                cv,
                chunk_size as int,
                step as int,
                start as int + step as int,
            )) =~= (out0 + seq![cv.subrange(start as int, end as int)]) + windows_spec(
                cv,
                chunk_size as int,
                step as int,
                start as int + step as int,
            ));
        }
        start = start + step;
    }
    proof {
        assert(out.deep_view() + windows_spec(cv, chunk_size as int, step as int, start as int)
            =~= out.deep_view());
    }
    out
}

} // verus!
