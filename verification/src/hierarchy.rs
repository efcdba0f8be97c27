//! The hierarchical segmenter: walks a document line by line at two levels.
//! The parent level closes section-scoped chunks at header boundaries and at
//! a byte-size target; each parent's span is handed to the child level,
//! which emits smaller, typed, sequentially indexed chunks and never splits
//! a code fence. Both levels are specified by functional models of the scan
//! (`child_scan`, `hier_scan`) and the executable segmenters are proved to
//! produce exactly the models' output.

use crate::summary::summary_spec;
use crate::text::{
    char_size, is_blank, is_blank_x, is_fence, is_fence_x, is_h1, is_h2, is_h3_or_deeper,
    is_list_line, is_list_line_x, join_nl, lead_hashes_x, lemma_sat_cmp, line_split, starts_hash,
    text_size,
};
use vstd::prelude::*;

verus! {

/// The kind of text a child chunk mostly holds.
#[derive(Clone, Copy, Debug, PartialEq, Eq, Structural)]
pub enum ChunkType {
    Code,
    Text,
    Header,
    List,
    Mixed,
}

/// Size thresholds for hierarchical segmentation, in bytes of buffered
/// text. Callers pick the numbers; `ChunkConfig::default` gives the
/// research-derived pairing (children near 400 tokens, parents larger).
#[derive(Clone, Copy, Debug, PartialEq, Eq, Structural)]
pub struct ChunkConfig {
    /// A parent is closed at an H2 boundary only above this size.
    pub min_parent_size: usize,
    /// A parent is closed at the nearest natural break once it reaches
    /// this size.
    pub parent_target_size: usize,
    /// A child is flushed at a natural break once it reaches this size.
    pub child_target_size: usize,
    /// A pending child is flushed before an opening fence only above this
    /// size.
    pub child_min_size: usize,
}

impl Default for ChunkConfig {
    /// The default pairing: the minimum parent size is half the parent
    /// target.
    fn default() -> (c: Self)
        ensures
            c.min_parent_size == 2000,
            c.parent_target_size == 4000,
            c.child_target_size == 1600,
            c.child_min_size == 300,
    {
        ChunkConfig {
            min_parent_size: 2000,
            parent_target_size: 4000,
            child_target_size: 1600,
            child_min_size: 300,
        }
    }
}

/// Mathematical model of one child chunk.
#[verifier::ext_equal]
pub ghost struct ChildRec {
    pub id: int,
    pub parent_id: int,
    pub content: Seq<char>,
    pub start_line: int,
    pub end_line: int,
    pub chunk_type: ChunkType,
    pub index_in_parent: int,
}

/// Mathematical model of one parent chunk.
#[verifier::ext_equal]
pub ghost struct ParentRec {
    pub id: int,
    pub content: Seq<char>,
    pub start_line: int,
    pub end_line: int,
    pub headers: Seq<Seq<char>>,
    pub child_ids: Seq<int>,
    pub summary: Seq<char>,
}

/// A smaller, precisely scoped chunk inside one parent. Line numbers index
/// the original document; `index_in_parent` counts siblings in emission
/// order from 0.
pub struct ChildChunk {
    pub id: u128,
    pub parent_id: u128,
    pub content: String,
    pub start_line: usize,
    pub end_line: usize,
    pub chunk_type: ChunkType,
    pub index_in_parent: usize,
}

impl View for ChildChunk {
    type V = ChildRec;

    open spec fn view(&self) -> ChildRec {
        ChildRec {
            id: self.id as int,
            parent_id: self.parent_id as int,
            content: self.content@,
            start_line: self.start_line as int,
            end_line: self.end_line as int,
            chunk_type: self.chunk_type,
            index_in_parent: self.index_in_parent as int,
        }
    }
}

/// A large, section-scoped chunk. `child_ids` names, in emission order, the
/// children produced from this parent's span.
pub struct ParentChunk {
    pub id: u128,
    pub content: String,
    pub start_line: usize,
    pub end_line: usize,
    pub headers: Vec<String>,
    pub child_ids: Vec<u128>,
    pub summary: String,
}

impl View for ParentChunk {
    type V = ParentRec;

    open spec fn view(&self) -> ParentRec {
        ParentRec {
            id: self.id as int,
            content: self.content@,
            start_line: self.start_line as int,
            end_line: self.end_line as int,
            headers: self.headers.deep_view(),
            child_ids: self.child_ids@.map_values(|x: u128| x as int),
            summary: self.summary@,
        }
    }
}

/// The ids of a child sequence, in order.
pub open spec fn child_ids_of(cs: Seq<ChildRec>) -> Seq<int> {
    cs.map_values(|c: ChildRec| c.id)
}

/// The ids of a parent sequence, in order.
pub open spec fn parent_ids(ps: Seq<ParentRec>) -> Seq<int> {
    ps.map_values(|p: ParentRec| p.id)
}

pub open spec fn child_views(s: Seq<ChildChunk>) -> Seq<ChildRec> {
    s.map_values(|c: ChildChunk| c@)
}

pub open spec fn parent_views(s: Seq<ParentChunk>) -> Seq<ParentRec> {
    s.map_values(|p: ParentChunk| p@)
}

/// Byte size of the buffer holding lines `lo..hi`, each with its newline.
pub open spec fn span_size(lines: Seq<Seq<char>>, lo: int, hi: int) -> int {
    text_size(join_nl(lines.subrange(lo, hi)))
}

/// State of the child-level scan over one parent span.
#[verifier::ext_equal]
pub ghost struct ChildScan {
    pub children: Seq<ChildRec>,
    /// First line of the pending buffer, relative to the span.
    pub cs: int,
    pub in_code: bool,
    pub ctype: ChunkType,
    pub has_code: bool,
    pub next_id: int,
}

pub open spec fn child_scan_init(first_id: int) -> ChildScan {
    ChildScan {
        children: Seq::empty(),
        cs: 0,
        in_code: false,
        ctype: ChunkType::Text,
        has_code: false,
        next_id: first_id,
    }
}

/// The type a flushed child carries: Mixed once a completed fence sits in
/// the buffer, else the running classification.
pub open spec fn child_flush_type(st: ChildScan) -> ChunkType {
    if st.has_code {
        ChunkType::Mixed
    } else {
        st.ctype
    }
}

/// Emits the pending buffer (span lines `st.cs..hi`) as one child.
pub open spec fn child_flush(
    lines: Seq<Seq<char>>,
    pstart: int,
    pid: int,
    st: ChildScan,
    hi: int,
) -> ChildScan {
    let c = ChildRec {
        id: st.next_id,
        parent_id: pid,
        content: join_nl(lines.subrange(st.cs, hi)),
        start_line: pstart + st.cs,
        end_line: pstart + hi - 1,
        chunk_type: child_flush_type(st),
        index_in_parent: st.children.len() as int,
    };
    ChildScan {
        children: st.children.push(c),
        cs: hi,
        in_code: st.in_code,
        ctype: st.ctype,
        has_code: false,
        next_id: st.next_id + 1,
    }
}

/// One step of the child scan: fence tracking, line classification, and the
/// size-triggered flush at a natural break.
pub open spec fn child_step(
    cfg: ChunkConfig,
    lines: Seq<Seq<char>>,
    pstart: int,
    pid: int,
    st: ChildScan,
    i: int,
) -> ChildScan {
    let line = lines[i];
    let st1 = if is_fence(line) {
        if !st.in_code {
            let stf = if span_size(lines, st.cs, i) > cfg.child_min_size as int {
                child_flush(lines, pstart, pid, st, i)
            } else {
                st
            };
            ChildScan { in_code: true, ctype: ChunkType::Code, ..stf }
        } else {
            ChildScan { in_code: false, has_code: true, ..st }
        }
    } else {
        st
    };
    let st2 = if !st1.in_code {
        if starts_hash(line) {
            ChildScan { ctype: ChunkType::Header, ..st1 }
        } else if is_list_line(line) {
            ChildScan { ctype: ChunkType::List, ..st1 }
        } else if st1.ctype == ChunkType::Code {
            ChildScan { ctype: ChunkType::Text, ..st1 }
        } else {
            st1
        }
    } else {
        st1
    };
    if !st2.in_code && span_size(lines, st2.cs, i + 1) >= cfg.child_target_size as int && (is_blank(
        line,
    ) || (i + 1 < lines.len() && starts_hash(lines[i + 1]))) {
        let stf = child_flush(lines, pstart, pid, st2, i + 1);
        ChildScan { ctype: ChunkType::Text, ..stf }
    } else {
        st2
    }
}

/// The child scan after processing span lines `0..n`.
pub open spec fn child_scan(
    cfg: ChunkConfig,
    lines: Seq<Seq<char>>,
    pstart: int,
    pid: int,
    first_id: int,
    n: int,
) -> ChildScan
    decreases n,
{
    if n <= 0 {
        child_scan_init(first_id)
    } else {
        child_step(cfg, lines, pstart, pid, child_scan(cfg, lines, pstart, pid, first_id, n - 1), n
            - 1)
    }
}

/// The finished child segmentation of a span: the scan over every line,
/// then the remaining non-empty buffer flushed as the final child.
pub open spec fn child_result(
    cfg: ChunkConfig,
    lines: Seq<Seq<char>>,
    pstart: int,
    pid: int,
    first_id: int,
) -> ChildScan {
    let st = child_scan(cfg, lines, pstart, pid, first_id, lines.len() as int);
    if st.cs < lines.len() {
        child_flush(lines, pstart, pid, st, lines.len() as int)
    } else {
        st
    }
}

pub proof fn lemma_span_size_empty(lines: Seq<Seq<char>>, lo: int)
    requires
        0 <= lo <= lines.len(),
    ensures
        span_size(lines, lo, lo) == 0,
{
    assert(lines.subrange(lo, lo) =~= Seq::<Seq<char>>::empty());
    assert(join_nl(Seq::<Seq<char>>::empty()) == Seq::<char>::empty());
    assert(text_size(Seq::<char>::empty()) == 0);
}

pub proof fn lemma_span_size_snoc(lines: Seq<Seq<char>>, lo: int, hi: int)
    requires
        0 <= lo <= hi < lines.len(),
    ensures
        span_size(lines, lo, hi + 1) == span_size(lines, lo, hi) + text_size(lines[hi]) + 1,
{
    assert(lines.subrange(lo, hi + 1) =~= lines.subrange(lo, hi) + seq![lines[hi]]);
    crate::text::lemma_join_nl_add(lines.subrange(lo, hi), seq![lines[hi]]);
    assert(seq![lines[hi]].drop_first() =~= Seq::<Seq<char>>::empty());
    assert(join_nl(Seq::<Seq<char>>::empty()) == Seq::<char>::empty());
    assert(join_nl(seq![lines[hi]]) == lines[hi] + seq!['\n'] + Seq::<char>::empty());
    assert(lines[hi] + seq!['\n'] + Seq::<char>::empty() =~= lines[hi] + seq!['\n']);
    crate::text::lemma_text_size_add(join_nl(lines.subrange(lo, hi)), lines[hi] + seq!['\n']);
    crate::text::lemma_text_size_add(lines[hi], seq!['\n']);
    assert(seq!['\n'].drop_first() =~= Seq::<char>::empty());
    assert(text_size(Seq::<char>::empty()) == 0);
    assert(char_size('\n') == 1);
    assert(text_size(seq!['\n']) == 1);
}

/// Structural facts every child scan maintains: the pending buffer sits
/// inside the scanned prefix, ids are assigned consecutively from
/// `first_id`, and every emitted child carries the parent's id and its own
/// emission index.
pub open spec fn child_wf(st: ChildScan, first_id: int, pid: int, n: int) -> bool {
    &&& 0 <= st.cs <= n
    &&& st.children.len() <= n
    &&& st.next_id == first_id + st.children.len()
    &&& forall|j: int|
        0 <= j < st.children.len() ==> {
            &&& (#[trigger] st.children[j]).id == first_id + j
            &&& st.children[j].parent_id == pid
            &&& st.children[j].index_in_parent == j
        }
}

pub proof fn lemma_child_scan_wf(
    cfg: ChunkConfig,
    lines: Seq<Seq<char>>,
    pstart: int,
    pid: int,
    first_id: int,
    n: int,
)
    requires
        0 <= n <= lines.len(),
    ensures
        child_wf(child_scan(cfg, lines, pstart, pid, first_id, n), first_id, pid, n),
    decreases n,
{
    if n > 0 {
        lemma_child_scan_wf(cfg, lines, pstart, pid, first_id, n - 1);
    }
}

pub proof fn lemma_child_result_wf(
    cfg: ChunkConfig,
    lines: Seq<Seq<char>>,
    pstart: int,
    pid: int,
    first_id: int,
)
    ensures
        child_wf(
            child_result(cfg, lines, pstart, pid, first_id),
            first_id,
            pid,
            lines.len() as int + 1,
        ),
        child_result(cfg, lines, pstart, pid, first_id).next_id <= first_id + lines.len() + 1,
{
    lemma_child_scan_wf(cfg, lines, pstart, pid, first_id, lines.len() as int);
}

proof fn lemma_child_views_push(s: Seq<ChildChunk>, c: ChildChunk)
    ensures
        child_views(s.push(c)) == child_views(s).push(c@),
{
    assert(child_views(s.push(c)) =~= child_views(s).push(c@));
}

proof fn lemma_ids_push(s: Seq<u128>, x: u128)
    ensures
        (s.push(x)).map_values(|y: u128| y as int) == s.map_values(|y: u128| y as int).push(
            x as int,
        ),
{
    assert((s.push(x)).map_values(|y: u128| y as int) =~= s.map_values(|y: u128| y as int).push(
        x as int,
    ));
}

/// Emits document lines `cs..hi` as one child chunk.
fn push_child(
    lines: &Vec<Vec<char>>,
    out: &mut Vec<ChildChunk>,
    ids: &mut Vec<u128>,
    pid: u128,
    next_id: u128,
    cs: usize,
    hi: usize,
    sl: usize,
    el: usize,
    ct: ChunkType,
    idx: usize,
)
    requires
        cs < hi <= lines@.len(),
    ensures
        child_views(final(out)@) == child_views(old(out)@).push(
            ChildRec {
                id: next_id as int,
                parent_id: pid as int,
                content: join_nl(lines.deep_view().subrange(cs as int, hi as int)),
                start_line: sl as int,
                end_line: el as int,
                chunk_type: ct,
                index_in_parent: idx as int,
            },
        ),
        final(ids)@ == old(ids)@.push(next_id),
{
    let content = crate::text::join_lines(lines, cs, hi);
    let c = ChildChunk {
        id: next_id,
        parent_id: pid,
        content,
        start_line: sl,
        end_line: el,
        chunk_type: ct,
        index_in_parent: idx,
    };
    let ghost cv = c@;
    out.push(c);
    ids.push(next_id);
    proof {
        lemma_child_views_push(old(out)@, out@[out@.len() - 1]);
        assert(out@.drop_last() =~= old(out)@);
        assert(out@ =~= old(out)@.push(out@[out@.len() - 1]));
    }
}

/// The child segmentation of document lines `lo..hi`, the span of the
/// parent with id `pid`. Children are appended to `out` with ids assigned
/// consecutively from `first_id`; returns the next unused id and the ids of
/// the children emitted, in order.
fn child_chunks_for_span(
    cfg: &ChunkConfig,
    lines: &Vec<Vec<char>>,
    lo: usize,
    hi: usize,
    pstart: usize,
    pid: u128,
    first_id: u128,
    out: &mut Vec<ChildChunk>,
) -> (r: (u128, Vec<u128>))
    requires
        lo <= hi <= lines@.len(),
        first_id as int + (hi - lo) + 1 <= u128::MAX as int,
        pstart as int + (hi - lo) <= usize::MAX as int,
    ensures
        ({
            let span = lines.deep_view().subrange(lo as int, hi as int);
            let m = child_result(*cfg, span, pstart as int, pid as int, first_id as int);
            &&& child_views(final(out)@) == child_views(old(out)@) + m.children
            &&& r.0 as int == m.next_id
            &&& r.1@.map_values(|y: u128| y as int) == child_ids_of(m.children)
        }),
{
    let ghost base = child_views(old(out)@);
    let ghost ld = lines.deep_view();
    let ghost span = ld.subrange(lo as int, hi as int);
    let mut ids: Vec<u128> = Vec::new();
    let mut next_id = first_id;
    let mut cs: usize = lo;
    let mut in_code = false;
    let mut ctype = ChunkType::Text;
    let mut has_code = false;
    let mut bsize: u128 = 0;
    let mut idx: usize = 0;
    let mut i: usize = lo;
    proof {
        assert(span.len() == hi - lo);
        lemma_span_size_empty(ld, lo as int);
        assert(child_views(out@) =~= base + child_scan(
            *cfg,
            span,
            pstart as int,
            pid as int,
            first_id as int,
            0,
        ).children);
        assert(ids@.map_values(|y: u128| y as int) =~= child_ids_of(
            child_scan(*cfg, span, pstart as int, pid as int, first_id as int, 0).children,
        ));
    }
    while i < hi
        invariant
            lo <= cs <= i <= hi <= lines@.len(),
            ld == lines.deep_view(),
            ld.len() == lines@.len(),
            span == ld.subrange(lo as int, hi as int),
            span.len() == hi - lo,
            first_id as int + (hi - lo) + 1 <= u128::MAX as int,
            bsize as int == crate::text::sat128(span_size(ld, cs as int, i as int)),
            pstart as int + (hi - lo) <= usize::MAX as int,
            ({
                let st = child_scan(*cfg, span, pstart as int, pid as int, first_id as int, i - lo);
                &&& st.cs == cs - lo
                &&& st.in_code == in_code
                &&& st.ctype == ctype
                &&& st.has_code == has_code
                &&& st.next_id == next_id as int
                &&& st.children.len() == idx as int
                &&& child_views(out@) == base + st.children
                &&& ids@.map_values(|y: u128| y as int) == child_ids_of(st.children)
            }),
        decreases hi - i,
    {
        let ghost st = child_scan(*cfg, span, pstart as int, pid as int, first_id as int, i - lo);
        let ghost rel = i - lo;
        proof {
            lemma_child_scan_wf(*cfg, span, pstart as int, pid as int, first_id as int, rel);
            assert(span[rel] == ld[i as int]);
            assert(ld[i as int] =~= lines@[i as int]@);
            assert(span.subrange(cs - lo, rel) =~= ld.subrange(cs as int, i as int));
        }
        let line = &lines[i];
        let fence = is_fence_x(line);
        let mut cs2 = cs;
        let mut idx2 = idx;
        let mut next2 = next_id;
        if fence {
            if !in_code {
                proof {
                    lemma_sat_cmp(span_size(ld, cs as int, i as int), cfg.child_min_size as int);
                }
                if bsize > cfg.child_min_size as u128 {
                    let ct = if has_code {
                        ChunkType::Mixed
                    } else {
                        ctype
                    };
                    proof {
                        lemma_span_size_empty(ld, cs as int);
                        if cs == i {
                            assert(span_size(ld, cs as int, i as int) == 0);
                        }
                    }
                    let sl = pstart + (cs - lo);
                    let el = pstart + (i - lo) - 1;
                    let ghost ids_a = ids@;
                    push_child(lines, out, &mut ids, pid, next_id, cs, i, sl, el, ct, idx);
                    proof {
                        lemma_ids_push(ids_a, next_id);
                    }
                    cs2 = i;
                    idx2 = idx + 1;
                    next2 = next_id + 1;
                    has_code = false;
                    bsize = 0;
                }
                in_code = true;
                ctype = ChunkType::Code;
            } else {
                in_code = false;
                has_code = true;
            }
        }
        if !in_code {
            if lead_hashes_x(line) >= 1 {
                ctype = ChunkType::Header;
            } else if is_list_line_x(line) {
                ctype = ChunkType::List;
            } else if ctype == ChunkType::Code {
                ctype = ChunkType::Text;
            }
        }
        let lsz = crate::text::text_size_x(line);
        proof {
            crate::text::lemma_text_size_bounds(line@);
            lemma_span_size_snoc(ld, cs2 as int, i as int);
            if cs2 == i {
                lemma_span_size_empty(ld, cs2 as int);
            }
        }
        bsize = crate::text::sat_add(bsize, crate::text::sat_add(lsz, 1));
        proof {
            assert(bsize as int == crate::text::sat128(
                span_size(ld, cs2 as int, i + 1 as int),
            ));
            lemma_sat_cmp(span_size(ld, cs2 as int, i + 1 as int), cfg.child_target_size as int);
        }
        let ghost pre_cs = cs2 as int;
        let mut advanced = false;
        if !in_code && bsize >= cfg.child_target_size as u128 {
            let nat_break = is_blank_x(line) || (i + 1 < hi && lead_hashes_x(&lines[i + 1]) >= 1);
            if nat_break {
                let ct = if has_code {
                    ChunkType::Mixed
                } else {
                    ctype
                };
                let sl = pstart + (cs2 - lo);
                let el = pstart + (i - lo);
                let ghost ids_a = ids@;
                push_child(lines, out, &mut ids, pid, next2, cs2, i + 1, sl, el, ct, idx2);
                proof {
                    lemma_ids_push(ids_a, next2);
                }
                cs2 = i + 1;
                idx2 = idx2 + 1;
                next2 = next2 + 1;
                has_code = false;
                ctype = ChunkType::Text;
                bsize = 0;
                advanced = true;
            }
        }
        proof {
            let stn = child_step(*cfg, span, pstart as int, pid as int, st, rel);
            assert(span.subrange(st.cs, rel) =~= ld.subrange(cs as int, i as int));
            assert(span.subrange(pre_cs - lo, rel + 1) =~= ld.subrange(pre_cs, i + 1 as int));
            if rel + 1 < span.len() {
                assert(span[rel + 1] == ld[i + 1 as int]);
                assert(ld[i + 1 as int] =~= lines@[i + 1 as int]@);
            }
            assert(child_scan(*cfg, span, pstart as int, pid as int, first_id as int, rel + 1)
                == stn);
            assert(stn.cs == cs2 - lo);
            assert(stn.in_code == in_code);
            assert(stn.ctype == ctype);
            assert(stn.has_code == has_code);
            assert(stn.next_id == next2 as int);
            assert(stn.children.len() == idx2 as int);
            assert(child_views(out@) =~= base + stn.children);
            assert(ids@.map_values(|y: u128| y as int) =~= child_ids_of(stn.children));
            if advanced {
                lemma_span_size_empty(ld, cs2 as int);
            }
        }
        cs = cs2;
        idx = idx2;
        next_id = next2;
        i = i + 1;
    }
    let ghost stf = child_scan(
        *cfg,
        span,
        pstart as int,
        pid as int,
        first_id as int,
        span.len() as int,
    );
    proof {
        lemma_child_scan_wf(
            *cfg,
            span,
            pstart as int,
            pid as int,
            first_id as int,
            span.len() as int,
        );
    }
    if cs < hi {
        let ct = if has_code {
            ChunkType::Mixed
        } else {
            ctype
        };
        let sl = pstart + (cs - lo);
        let el = pstart + (hi - lo) - 1;
        let ghost ids0 = ids@;
        push_child(lines, out, &mut ids, pid, next_id, cs, hi, sl, el, ct, idx);
        next_id = next_id + 1;
        proof {
            lemma_ids_push(ids0, ids@[ids@.len() - 1]);
            assert(ids@ =~= ids0.push(ids@[ids@.len() - 1]));
            let m = child_result(*cfg, span, pstart as int, pid as int, first_id as int);
            assert(span.subrange(stf.cs, span.len() as int) =~= ld.subrange(cs as int, hi as int));
            assert(child_views(out@) =~= base + m.children);
            assert(ids@.map_values(|y: u128| y as int) =~= child_ids_of(m.children));
        }
    }
    (next_id, ids)
}

/// State of the parent-level scan over the whole document.
#[verifier::ext_equal]
pub ghost struct HierState {
    pub parents: Seq<ParentRec>,
    pub children: Seq<ChildRec>,
    /// First line of the accumulating parent buffer.
    pub start: int,
    pub headers: Seq<Seq<char>>,
    pub next_id: int,
}

pub open spec fn hier_init() -> HierState {
    HierState {
        parents: Seq::empty(),
        children: Seq::empty(),
        start: 0,
        headers: Seq::empty(),
        next_id: 0,
    }
}

/// Closes document lines `st.start..hi` as one parent: the parent record
/// takes the next id, its span's child segmentation runs with the ids that
/// follow, and accumulation resumes at `hi`.
pub open spec fn hier_close(
    cfg: ChunkConfig,
    lines: Seq<Seq<char>>,
    st: HierState,
    hi: int,
) -> HierState {
    let pid = st.next_id;
    let span = lines.subrange(st.start, hi);
    let cres = child_result(cfg, span, st.start, pid, pid + 1);
    let p = ParentRec {
        id: pid,
        content: join_nl(span),
        start_line: st.start,
        end_line: hi - 1,
        headers: st.headers,
        child_ids: child_ids_of(cres.children),
        summary: summary_spec(join_nl(span), st.headers),
    };
    HierState {
        parents: st.parents.push(p),
        children: st.children + cres.children,
        start: hi,
        headers: st.headers,
        next_id: cres.next_id,
    }
}

/// Largest index `j` in `low..=j0` whose line is blank, else `fb`.
pub open spec fn break_search(lines: Seq<Seq<char>>, low: int, j: int, fb: int) -> int
    decreases j - low,
{
    if is_blank(lines[j]) {
        j
    } else if j <= low {
        fb
    } else {
        break_search(lines, low, j - 1, fb)
    }
}

/// The natural break for a parent that reached its target at line `i`: the
/// nearest blank line at most 5 lines back (never before the buffer's own
/// start), or `i` itself when none is blank.
pub open spec fn break_point(lines: Seq<Seq<char>>, start: int, i: int) -> int {
    let low = if i - 5 >= start {
        i - 5
    } else {
        start
    };
    break_search(lines, low, i, i)
}

pub proof fn lemma_break_search(lines: Seq<Seq<char>>, low: int, j: int, fb: int)
    requires
        low <= j,
        low <= fb,
    ensures
        low <= break_search(lines, low, j, fb),
        break_search(lines, low, j, fb) <= j || break_search(lines, low, j, fb) == fb,
    decreases j - low,
{
    if !is_blank(lines[j]) && j > low {
        lemma_break_search(lines, low, j - 1, fb);
    }
}

pub proof fn lemma_break_point(lines: Seq<Seq<char>>, start: int, i: int)
    requires
        start <= i,
    ensures
        start <= break_point(lines, start, i) <= i,
{
    let low = if i - 5 >= start {
        i - 5
    } else {
        start
    };
    lemma_break_search(lines, low, i, i);
}

/// One step of the parent scan at line `i`: header-boundary closes and the
/// header-context update, then the size-triggered close at a natural break.
/// Returns the new state and the next cursor position (accumulation resumes
/// just after a natural break, so the cursor can move backwards).
pub open spec fn hier_step(cfg: ChunkConfig, lines: Seq<Seq<char>>, st: HierState, i: int) -> (
    HierState,
    int,
) {
    let line = lines[i];
    let st1 = if is_h2(line) {
        let stc = if span_size(lines, st.start, i) > cfg.min_parent_size as int {
            hier_close(cfg, lines, st, i)
        } else {
            st
        };
        HierState { headers: seq![line], ..stc }
    } else if is_h1(line) {
        let stc = if i > st.start {
            hier_close(cfg, lines, st, i)
        } else {
            st
        };
        HierState { headers: seq![line], ..stc }
    } else if is_h3_or_deeper(line) {
        if st.headers.len() < 3 {
            HierState { headers: st.headers.push(line), ..st }
        } else {
            st
        }
    } else {
        st
    };
    if span_size(lines, st1.start, i + 1) >= cfg.parent_target_size as int {
        let bp = break_point(lines, st1.start, i);
        (hier_close(cfg, lines, st1, bp + 1), bp + 1)
    } else {
        (st1, i + 1)
    }
}

/// After one step the buffer start never moves back, and it moves strictly
/// forward whenever the cursor does not advance.
pub proof fn lemma_hier_step_progress(cfg: ChunkConfig, lines: Seq<Seq<char>>, st: HierState, i: int)
    requires
        0 <= st.start <= i < lines.len(),
    ensures
        ({
            let (st2, i2) = hier_step(cfg, lines, st, i);
            &&& 0 <= st2.start <= i2 <= lines.len()
            &&& st.start <= st2.start
            &&& (st2.start > st.start || (st2.start == st.start && i2 == i + 1))
        }),
{
    let line = lines[i];
    if is_h2(line) && span_size(lines, st.start, i) > cfg.min_parent_size as int {
        lemma_span_size_empty(lines, st.start);
        assert(st.start < i);
    }
    let st1 = if is_h2(line) {
        let stc = if span_size(lines, st.start, i) > cfg.min_parent_size as int {
            hier_close(cfg, lines, st, i)
        } else {
            st
        };
        HierState { headers: seq![line], ..stc }
    } else if is_h1(line) {
        let stc = if i > st.start {
            hier_close(cfg, lines, st, i)
        } else {
            st
        };
        HierState { headers: seq![line], ..stc }
    } else if is_h3_or_deeper(line) {
        if st.headers.len() < 3 {
            HierState { headers: st.headers.push(line), ..st }
        } else {
            st
        }
    } else {
        st
    };
    if span_size(lines, st1.start, i + 1) >= cfg.parent_target_size as int {
        lemma_break_point(lines, st1.start, i);
    }
}

/// The parent scan from state `st` at cursor `i` to the end of the document.
pub open spec fn hier_scan(cfg: ChunkConfig, lines: Seq<Seq<char>>, st: HierState, i: int) -> HierState
    decreases lines.len() - st.start, lines.len() - i,
        when 0 <= st.start <= i <= lines.len()
        via hier_scan_dec
{
    if i >= lines.len() {
        st
    } else {
        let r = hier_step(cfg, lines, st, i);
        hier_scan(cfg, lines, r.0, r.1)
    }
}

#[via_fn]
proof fn hier_scan_dec(cfg: ChunkConfig, lines: Seq<Seq<char>>, st: HierState, i: int) {
    if i < lines.len() {
        lemma_hier_step_progress(cfg, lines, st, i);
    }
}

/// The finished hierarchical segmentation: the scan over every line, then
/// the remaining non-empty buffer closed as the final parent.
pub open spec fn hier_result(cfg: ChunkConfig, lines: Seq<Seq<char>>) -> HierState {
    let st = hier_scan(cfg, lines, hier_init(), 0);
    if st.start < lines.len() {
        hier_close(cfg, lines, st, lines.len() as int)
    } else {
        st
    }
}

/// The id counter never runs ahead of three ids per consumed line.
pub open spec fn hier_id_bound(st: HierState) -> bool {
    st.next_id <= 3 * st.start + 1
}

pub proof fn lemma_hier_close_bound(cfg: ChunkConfig, lines: Seq<Seq<char>>, st: HierState, hi: int)
    requires
        0 <= st.start < hi <= lines.len(),
        hier_id_bound(st),
    ensures
        ({
            let st2 = hier_close(cfg, lines, st, hi);
            &&& st2.next_id <= 3 * hi + 1
            &&& st.next_id + 1 <= st2.next_id <= st.next_id + (hi - st.start) + 2
        }),
{
    let pid = st.next_id;
    let span = lines.subrange(st.start, hi);
    lemma_child_result_wf(cfg, span, st.start, pid, pid + 1);
}

pub proof fn lemma_hier_scan_bound(cfg: ChunkConfig, lines: Seq<Seq<char>>, st: HierState, i: int)
    requires
        0 <= st.start <= i <= lines.len(),
        hier_id_bound(st),
    ensures
        ({
            let r = hier_scan(cfg, lines, st, i);
            &&& st.start <= r.start <= lines.len()
            &&& hier_id_bound(r)
        }),
    decreases lines.len() - st.start, lines.len() - i,
{
    if i < lines.len() {
        lemma_hier_step_progress(cfg, lines, st, i);
        let line = lines[i];
        let (st2, i2) = hier_step(cfg, lines, st, i);
        if is_h2(line) && span_size(lines, st.start, i) > cfg.min_parent_size as int {
            lemma_span_size_empty(lines, st.start);
            lemma_hier_close_bound(cfg, lines, st, i);
        }
        if is_h1(line) && i > st.start {
            lemma_hier_close_bound(cfg, lines, st, i);
        }
        let st1 = if is_h2(line) {
            let stc = if span_size(lines, st.start, i) > cfg.min_parent_size as int {
                hier_close(cfg, lines, st, i)
            } else {
                st
            };
            HierState { headers: seq![line], ..stc }
        } else if is_h1(line) {
            let stc = if i > st.start {
                hier_close(cfg, lines, st, i)
            } else {
                st
            };
            HierState { headers: seq![line], ..stc }
        } else if is_h3_or_deeper(line) {
            if st.headers.len() < 3 {
                HierState { headers: st.headers.push(line), ..st }
            } else {
                st
            }
        } else {
            st
        };
        if span_size(lines, st1.start, i + 1) >= cfg.parent_target_size as int {
            lemma_break_point(lines, st1.start, i);
            lemma_hier_close_bound(cfg, lines, st1, break_point(lines, st1.start, i) + 1);
        }
        lemma_hier_scan_bound(cfg, lines, st2, i2);
    }
}

proof fn lemma_parent_views_push(s: Seq<ParentChunk>, p: ParentChunk)
    ensures
        parent_views(s.push(p)) == parent_views(s).push(p@),
{
    assert(parent_views(s.push(p)) =~= parent_views(s).push(p@));
}

/// The natural break for a parent reaching its target at line `i`.
fn find_break(lines: &Vec<Vec<char>>, start: usize, i: usize) -> (bp: usize)
    requires
        start <= i < lines@.len(),
    ensures
        bp as int == break_point(lines.deep_view(), start as int, i as int),
        start <= bp <= i,
{
    let ghost ld = lines.deep_view();
    proof {
        lemma_break_point(ld, start as int, i as int);
    }
    let low = if i >= 5 && i - 5 >= start {
        i - 5
    } else {
        start
    };
    let ghost lo_s = if i - 5 >= start as int {
        i - 5
    } else {
        start as int
    };
    proof {
        assert(low as int == lo_s);
    }
    let mut j = i;
    while j > low
        invariant
            start <= low <= j <= i < lines@.len(),
            ld == lines.deep_view(),
            ld.len() == lines@.len(),
            low as int == lo_s,
            lo_s == if i - 5 >= start as int {
                i - 5
            } else {
                start as int
            },
            break_search(ld, lo_s, i as int, i as int) == break_search(ld, lo_s, j as int, i as int),
        decreases j,
    {
        proof {
            assert(ld[j as int] =~= lines@[j as int]@);
        }
        if is_blank_x(&lines[j]) {
            return j;
        }
        j = j - 1;
    }
    proof {
        assert(ld[j as int] =~= lines@[j as int]@);
    }
    if is_blank_x(&lines[j]) {
        j
    } else {
        i
    }
}

/// Closes document lines `start..hi` as one parent: emits the parent record
/// and its children, and returns the next unused id.
fn close_parent(
    cfg: &ChunkConfig,
    lines: &Vec<Vec<char>>,
    start: usize,
    hi: usize,
    headers: &Vec<Vec<char>>,
    next_id: u128,
    parents: &mut Vec<ParentChunk>,
    children: &mut Vec<ChildChunk>,
) -> (r: u128)
    requires
        start < hi <= lines@.len(),
        next_id as int + (hi - start) + 2 <= u128::MAX as int,
    ensures
        ({
            let st = HierState {
                parents: parent_views(old(parents)@),
                children: child_views(old(children)@),
                start: start as int,
                headers: headers.deep_view(),
                next_id: next_id as int,
            };
            let st2 = hier_close(*cfg, lines.deep_view(), st, hi as int);
            &&& parent_views(final(parents)@) == st2.parents
            &&& child_views(final(children)@) == st2.children
            &&& r as int == st2.next_id
        }),
{
    let ghost ld = lines.deep_view();
    let ghost span = ld.subrange(start as int, hi as int);
    let pid = next_id;
    let content = crate::text::join_lines(lines, start, hi);
    let ghost cv = content@;
    let sum_lines = crate::text::doc_lines(content.as_str());
    let sum_chars = crate::summary::summary_chars(&sum_lines, headers);
    let summary = crate::text::chars_to_string(&sum_chars);
    proof {
        assert(summary@ == summary_spec(cv, headers.deep_view()));
    }
    let mut hstrs: Vec<String> = Vec::new();
    let mut k: usize = 0;
    while k < headers.len()
        invariant
            k <= headers.len(),
            hstrs@.len() == k,
            forall|j: int| 0 <= j < k ==> #[trigger] hstrs@[j]@ == headers@[j]@,
        decreases headers.len() - k,
    {
        hstrs.push(crate::text::chars_to_string(&headers[k]));
        k = k + 1;
    }
    proof {
        assert(hstrs.deep_view() =~~= headers.deep_view());
    }
    let r = child_chunks_for_span(cfg, lines, start, hi, start, pid, pid + 1, children);
    let nid = r.0;
    let child_ids = r.1;
    let p = ParentChunk {
        id: pid,
        content,
        start_line: start,
        end_line: hi - 1,
        headers: hstrs,
        child_ids,
        summary,
    };
    let ghost pv = p@;
    let ghost parents0 = parents@;
    parents.push(p);
    proof {
        lemma_parent_views_push(parents0, parents@[parents@.len() - 1]);
        assert(parents@ =~= parents0.push(parents@[parents@.len() - 1]));
        let st = HierState {
            parents: parent_views(old(parents)@),
            children: child_views(old(children)@),
            start: start as int,
            headers: headers.deep_view(),
            next_id: next_id as int,
        };
        let st2 = hier_close(*cfg, ld, st, hi as int);
        let cres = child_result(*cfg, span, start as int, pid as int, pid as int + 1);
        assert(pv.child_ids =~= child_ids_of(cres.children));
        assert(pv =~= st2.parents.last());
        assert(parent_views(parents@) =~= st2.parents);
        assert(child_views(children@) =~= st2.children);
    }
    nid
}

/// Splits one parent's content span into an ordered, sequentially indexed
/// list of child chunks, never tearing a code fence open at a flush. Line
/// numbers are offset by `parent_start_line` into the original document,
/// and ids are assigned consecutively from `first_id`. The bounds ask only
/// that the id counter and the line numbers cannot run out of their types.
pub fn create_child_chunks(
    parent_content: &str,
    parent_id: u128,
    parent_start_line: usize,
    first_id: u128,
    cfg: &ChunkConfig,
) -> (r: Vec<ChildChunk>)
    requires
        first_id as int + parent_content@.len() + 2 <= u128::MAX as int,
        parent_start_line as int + parent_content@.len() <= usize::MAX as int,
    ensures
        child_views(r@) == child_result(
            *cfg,
            line_split(parent_content@),
            parent_start_line as int,
            parent_id as int,
            first_id as int,
        ).children,
{
    let lines = crate::text::doc_lines(parent_content);
    proof {
        crate::text::lemma_line_split_count(parent_content@);
    }
    let mut out: Vec<ChildChunk> = Vec::new();
    let ghost empty_base = child_views(out@);
    let n = lines.len();
    child_chunks_for_span(cfg, &lines, 0, n, parent_start_line, parent_id, first_id, &mut out);
    proof {
        assert(lines.deep_view().subrange(0, n as int) =~= lines.deep_view());
        let m = child_result(
            *cfg,
            line_split(parent_content@),
            parent_start_line as int,
            parent_id as int,
            first_id as int,
        );
        assert(empty_base =~= Seq::<ChildRec>::empty());
        assert(empty_base + m.children =~= m.children);
    }
    out
}

/// Splits a document into an ordered sequence of parent chunks plus the
/// child chunks contributed by every parent. Total over any input: an empty
/// document yields no chunks, a document with no headers is split by the
/// size target alone. The result is exactly the functional model
/// `hier_result` of the document's lines.
pub fn create_hierarchical_chunks(content: &str, cfg: &ChunkConfig) -> (r: (
    Vec<ParentChunk>,
    Vec<ChildChunk>,
))
    ensures
        ({
            let m = hier_result(*cfg, line_split(content@));
            &&& parent_views(r.0@) == m.parents
            &&& child_views(r.1@) == m.children
        }),
{
    let lines = crate::text::doc_lines(content);
    let ghost ld = lines.deep_view();
    let mut parents: Vec<ParentChunk> = Vec::new();
    let mut children: Vec<ChildChunk> = Vec::new();
    let mut headers: Vec<Vec<char>> = Vec::new();
    let mut start: usize = 0;
    let mut next_id: u128 = 0;
    let mut bsize: u128 = 0;
    let mut i: usize = 0;
    let ghost goal = hier_scan(*cfg, ld, hier_init(), 0);
    proof {
        lemma_span_size_empty(ld, 0);
        assert(parent_views(parents@) =~= hier_init().parents);
        assert(child_views(children@) =~= hier_init().children);
        assert(headers.deep_view() =~= hier_init().headers);
    }
    while i < lines.len()
        invariant
            start <= i <= lines@.len(),
            ld == lines.deep_view(),
            ld.len() == lines@.len(),
            next_id as int <= 3 * start + 1,
            bsize as int == crate::text::sat128(span_size(ld, start as int, i as int)),
            goal == hier_scan(*cfg, ld, hier_init(), 0),
            ({
                let cur = HierState {
                    parents: parent_views(parents@),
                    children: child_views(children@),
                    start: start as int,
                    headers: headers.deep_view(),
                    next_id: next_id as int,
                };
                hier_scan(*cfg, ld, cur, i as int) == goal
            }),
        decreases lines@.len() - start, lines@.len() - i,
    {
        let ghost cur = HierState {
            parents: parent_views(parents@),
            children: child_views(children@),
            start: start as int,
            headers: headers.deep_view(),
            next_id: next_id as int,
        };
        let ghost stepped = hier_step(*cfg, ld, cur, i as int);
        proof {
            lemma_hier_step_progress(*cfg, ld, cur, i as int);
            assert(ld[i as int] =~= lines@[i as int]@);
            lemma_sat_cmp(span_size(ld, start as int, i as int), cfg.min_parent_size as int);
        }
        let line = &lines[i];
        let lead = lead_hashes_x(line);
        let mut start2 = start;
        let mut next2 = next_id;
        if lead == 2 {
            if bsize > cfg.min_parent_size as u128 {
                proof {
                    lemma_span_size_empty(ld, start as int);
                    assert(start < i);
                    lemma_hier_close_bound(*cfg, ld, cur, i as int);
                }
                next2 = close_parent(
                    cfg,
                    &lines,
                    start,
                    i,
                    &headers,
                    next_id,
                    &mut parents,
                    &mut children,
                );
                start2 = i;
                bsize = 0;
            }
            let mut hs: Vec<Vec<char>> = Vec::new();
            hs.push(crate::text::clone_chars(line));
            headers = hs;
            proof {
                assert(headers.deep_view() =~~= seq![ld[i as int]]);
            }
        } else if lead == 1 {
            if start < i {
                proof {
                    lemma_hier_close_bound(*cfg, ld, cur, i as int);
                }
                next2 = close_parent(
                    cfg,
                    &lines,
                    start,
                    i,
                    &headers,
                    next_id,
                    &mut parents,
                    &mut children,
                );
                start2 = i;
                bsize = 0;
            }
            let mut hs: Vec<Vec<char>> = Vec::new();
            hs.push(crate::text::clone_chars(line));
            headers = hs;
            proof {
                assert(headers.deep_view() =~~= seq![ld[i as int]]);
            }
        } else if lead >= 3 {
            if headers.len() < 3 {
                let ghost h0 = headers.deep_view();
                headers.push(crate::text::clone_chars(line));
                proof {
                    assert(headers.deep_view() =~~= h0.push(ld[i as int]));
                }
            }
        }
        let ghost st1 = HierState {
            parents: parent_views(parents@),
            children: child_views(children@),
            start: start2 as int,
            headers: headers.deep_view(),
            next_id: next2 as int,
        };
        let lsz = crate::text::text_size_x(line);
        proof {
            crate::text::lemma_text_size_bounds(line@);
            lemma_span_size_snoc(ld, start2 as int, i as int);
            if start2 == i {
                lemma_span_size_empty(ld, start2 as int);
            }
        }
        bsize = crate::text::sat_add(bsize, crate::text::sat_add(lsz, 1));
        proof {
            assert(bsize as int == crate::text::sat128(
                span_size(ld, start2 as int, i + 1 as int),
            ));
            lemma_sat_cmp(span_size(ld, start2 as int, i + 1 as int), cfg.parent_target_size as int);
        }
        if bsize >= cfg.parent_target_size as u128 {
            let bp = find_break(&lines, start2, i);
            proof {
                lemma_hier_close_bound(*cfg, ld, st1, bp + 1 as int);
            }
            next2 = close_parent(
                cfg,
                &lines,
                start2,
                bp + 1,
                &headers,
                next2,
                &mut parents,
                &mut children,
            );
            start2 = bp + 1;
            bsize = 0;
            proof {
                lemma_span_size_empty(ld, start2 as int);
                assert(parent_views(parents@) =~= stepped.0.parents);
                assert(child_views(children@) =~= stepped.0.children);
                assert(headers.deep_view() =~= stepped.0.headers);
                assert(next2 as int == stepped.0.next_id);
                assert(start2 as int == stepped.0.start);
                assert(bp + 1 as int == stepped.1);
            }
            i = bp + 1;
        } else {
            proof {
                assert(parent_views(parents@) =~= stepped.0.parents);
                assert(child_views(children@) =~= stepped.0.children);
                assert(headers.deep_view() =~= stepped.0.headers);
                assert(next2 as int == stepped.0.next_id);
                assert(start2 as int == stepped.0.start);
                assert(i + 1 as int == stepped.1);
            }
            i = i + 1;
        }
        start = start2;
        next_id = next2;
    }
    let ghost stf = hier_scan(*cfg, ld, hier_init(), 0);
    if start < lines.len() {
        proof {
            let cur = HierState {
                parents: parent_views(parents@),
                children: child_views(children@),
                start: start as int,
                headers: headers.deep_view(),
                next_id: next_id as int,
            };
            assert(cur =~= stf);
            lemma_hier_close_bound(*cfg, ld, cur, ld.len() as int);
        }
        let n = lines.len();
        close_parent(cfg, &lines, start, n, &headers, next_id, &mut parents, &mut children);
    }
    (parents, children)
}

/// The derived lookup from a parent's id to its position in the parent
/// sequence. A non-owning index, rebuildable at any time from the
/// collection itself; when ids are distinct (as segmentation guarantees),
/// it maps every parent's id to exactly its position.
pub fn parent_index(parents: &Vec<ParentChunk>) -> (m: vstd::hash_map::HashMapWithView<
    u128,
    usize,
>)
    ensures
        forall|k: int| 0 <= k < parents@.len() ==> m@.contains_key((#[trigger] parents@[k]).id),
        forall|id: u128| #[trigger]
            m@.contains_key(id) ==> exists|k: int|
                0 <= k < parents@.len() && (#[trigger] parents@[k]).id == id && m@[id] == k as usize,
        (forall|k1: int, k2: int|
            0 <= k1 < k2 < parents@.len() ==> (#[trigger] parents@[k1]).id != (
            #[trigger] parents@[k2]).id) ==> forall|k: int|
            0 <= k < parents@.len() ==> m@[(#[trigger] parents@[k]).id] == k as usize,
{
    broadcast use vstd::std_specs::hash::group_hash_axioms;

    let mut m: vstd::hash_map::HashMapWithView<u128, usize> =
        vstd::hash_map::HashMapWithView::new();
    let mut k: usize = 0;
    while k < parents.len()
        invariant
            k <= parents@.len(),
            forall|j: int| 0 <= j < k ==> m@.contains_key((#[trigger] parents@[j]).id),
            forall|id: u128| #[trigger]
                m@.contains_key(id) ==> exists|j: int|
                    0 <= j < k && (#[trigger] parents@[j]).id == id && m@[id] == j as usize,
            forall|j: int|
                0 <= j < k && (forall|j2: int| j < j2 < k ==> (#[trigger] parents@[j2]).id
                    != parents@[j].id) ==> m@[(#[trigger] parents@[j]).id] == j as usize,
        decreases parents@.len() - k,
    {
        m.insert(parents[k].id, k);
        k = k + 1;
    }
    m
}

/// Number of fence lines in a line sequence.
pub open spec fn fence_count(ls: Seq<Seq<char>>) -> int
    decreases ls.len(),
{
    if ls.len() == 0 {
        0
    } else {
        (if is_fence(ls[0]) {
            1int
        } else {
            0int
        }) + fence_count(ls.drop_first())
    }
}

proof fn lemma_fence_count_add(a: Seq<Seq<char>>, b: Seq<Seq<char>>)
    ensures
        fence_count(a + b) == fence_count(a) + fence_count(b),
    decreases a.len(),
{
    if a.len() == 0 {
        assert(a + b =~= b);
    } else {
        assert((a + b).drop_first() =~= a.drop_first() + b);
        lemma_fence_count_add(a.drop_first(), b);
    }
}

proof fn lemma_fence_count_snoc(lines: Seq<Seq<char>>, lo: int, hi: int)
    requires
        0 <= lo <= hi < lines.len(),
    ensures
        fence_count(lines.subrange(lo, hi + 1)) == fence_count(lines.subrange(lo, hi)) + (
        if is_fence(lines[hi]) {
            1int
        } else {
            0int
        }),
{
    assert(lines.subrange(lo, hi + 1) =~= lines.subrange(lo, hi) + seq![lines[hi]]);
    lemma_fence_count_add(lines.subrange(lo, hi), seq![lines[hi]]);
    assert(seq![lines[hi]].drop_first() =~= Seq::<Seq<char>>::empty());
    assert(fence_count(Seq::<Seq<char>>::empty()) == 0);
}

proof fn lemma_fence_count_strip(ls: Seq<Seq<char>>)
    ensures
        fence_count(ls.map_values(|l: Seq<char>| crate::text::strip_cr(l))) == fence_count(ls),
    decreases ls.len(),
{
    let m = ls.map_values(|l: Seq<char>| crate::text::strip_cr(l));
    if ls.len() > 0 {
        lemma_fence_count_strip(ls.drop_first());
        crate::text::lemma_is_fence_strip(ls[0]);
        assert(m.drop_first() =~= ls.drop_first().map_values(|l: Seq<char>| crate::text::strip_cr(l)));
        assert(m[0] == crate::text::strip_cr(ls[0]));
    }
}

/// The content of this child holds an even number of fence lines: every
/// fence that opens in it also closes in it.
pub open spec fn even_fences(c: ChildRec) -> bool {
    fence_count(line_split(c.content)) % 2 == 0
}

proof fn lemma_content_fences(lines: Seq<Seq<char>>, lo: int, hi: int)
    requires
        0 <= lo <= hi <= lines.len(),
        forall|k: int| 0 <= k < lines.len() ==> crate::text::no_nl(#[trigger] lines[k]),
    ensures
        fence_count(line_split(join_nl(lines.subrange(lo, hi)))) == fence_count(
            lines.subrange(lo, hi),
        ),
{
    let sub = lines.subrange(lo, hi);
    assert forall|k: int| 0 <= k < sub.len() implies crate::text::no_nl(#[trigger] sub[k]) by {
        assert(sub[k] == lines[lo + k]);
    }
    crate::text::lemma_join_then_split(sub);
    lemma_fence_count_strip(sub);
}

/// Fence bookkeeping of the child scan: the code flag tracks the parity of
/// the fences buffered so far, and every child flushed during the scan holds
/// evenly paired fences.
pub open spec fn child_fences_wf(st: ChildScan, lines: Seq<Seq<char>>, n: int) -> bool {
    &&& (st.in_code <==> fence_count(lines.subrange(st.cs, n)) % 2 == 1)
    &&& forall|j: int| 0 <= j < st.children.len() ==> even_fences(#[trigger] st.children[j])
}

proof fn lemma_child_scan_fences(
    cfg: ChunkConfig,
    lines: Seq<Seq<char>>,
    pstart: int,
    pid: int,
    first_id: int,
    n: int,
)
    requires
        0 <= n <= lines.len(),
        forall|k: int| 0 <= k < lines.len() ==> crate::text::no_nl(#[trigger] lines[k]),
    ensures
        child_fences_wf(child_scan(cfg, lines, pstart, pid, first_id, n), lines, n),
    decreases n,
{
    if n == 0 {
        assert(lines.subrange(0, 0) =~= Seq::<Seq<char>>::empty());
    } else {
        let i = n - 1;
        lemma_child_scan_fences(cfg, lines, pstart, pid, first_id, i);
        lemma_child_scan_wf(cfg, lines, pstart, pid, first_id, i);
        let st = child_scan(cfg, lines, pstart, pid, first_id, i);
        lemma_fence_count_snoc(lines, st.cs, i);
        assert(lines.subrange(i, i) =~= Seq::<Seq<char>>::empty());
        lemma_fence_count_snoc(lines, i, i);
        if is_fence(lines[i]) && !st.in_code {
            if span_size(lines, st.cs, i) > cfg.child_min_size as int {
                lemma_content_fences(lines, st.cs, i);
            }
        }
        let st1 = if is_fence(lines[i]) {
            if !st.in_code {
                let stf = if span_size(lines, st.cs, i) > cfg.child_min_size as int {
                    child_flush(lines, pstart, pid, st, i)
                } else {
                    st
                };
                ChildScan { in_code: true, ctype: ChunkType::Code, ..stf }
            } else {
                ChildScan { in_code: false, has_code: true, ..st }
            }
        } else {
            st
        };
        let st2 = child_scan(cfg, lines, pstart, pid, first_id, n);
        if !st1.in_code && span_size(lines, st1.cs, i + 1) >= cfg.child_target_size as int && (
        is_blank(lines[i]) || (i + 1 < lines.len() && starts_hash(lines[i + 1]))) {
            lemma_content_fences(lines, st1.cs, i + 1);
            assert(lines.subrange(i + 1, i + 1) =~= Seq::<Seq<char>>::empty());
        }
    }
}

/// After the final flush, every child but possibly the last holds evenly
/// paired fences.
proof fn lemma_child_result_fences(
    cfg: ChunkConfig,
    lines: Seq<Seq<char>>,
    pstart: int,
    pid: int,
    first_id: int,
)
    requires
        forall|k: int| 0 <= k < lines.len() ==> crate::text::no_nl(#[trigger] lines[k]),
    ensures
        ({
            let r = child_result(cfg, lines, pstart, pid, first_id);
            forall|j: int| 0 <= j < r.children.len() - 1 ==> even_fences(#[trigger] r.children[j])
        }),
{
    lemma_child_scan_fences(cfg, lines, pstart, pid, first_id, lines.len() as int);
}

/// Every child spans at least one document line.
pub open spec fn child_spans_ok(cs: Seq<ChildRec>) -> bool {
    forall|j: int|
        0 <= j < cs.len() ==> 0 <= (#[trigger] cs[j]).start_line <= cs[j].end_line
}

proof fn lemma_child_scan_spans(
    cfg: ChunkConfig,
    lines: Seq<Seq<char>>,
    pstart: int,
    pid: int,
    first_id: int,
    n: int,
)
    requires
        0 <= n <= lines.len(),
        pstart >= 0,
    ensures
        child_spans_ok(child_scan(cfg, lines, pstart, pid, first_id, n).children),
    decreases n,
{
    if n > 0 {
        let i = n - 1;
        lemma_child_scan_spans(cfg, lines, pstart, pid, first_id, i);
        lemma_child_scan_wf(cfg, lines, pstart, pid, first_id, i);
        let st = child_scan(cfg, lines, pstart, pid, first_id, i);
        if is_fence(lines[i]) && !st.in_code && span_size(lines, st.cs, i)
            > cfg.child_min_size as int {
            lemma_span_size_empty(lines, st.cs);
            assert(st.cs < i);
        }
    }
}

proof fn lemma_child_result_spans(
    cfg: ChunkConfig,
    lines: Seq<Seq<char>>,
    pstart: int,
    pid: int,
    first_id: int,
)
    requires
        pstart >= 0,
    ensures
        child_spans_ok(child_result(cfg, lines, pstart, pid, first_id).children),
{
    lemma_child_scan_spans(cfg, lines, pstart, pid, first_id, lines.len() as int);
    lemma_child_scan_wf(cfg, lines, pstart, pid, first_id, lines.len() as int);
}

/// The children of one parent, in emission order.
pub open spec fn children_of(cs: Seq<ChildRec>, pid: int) -> Seq<ChildRec>
    decreases cs.len(),
{
    if cs.len() == 0 {
        Seq::empty()
    } else if cs.last().parent_id == pid {
        children_of(cs.drop_last(), pid).push(cs.last())
    } else {
        children_of(cs.drop_last(), pid)
    }
}

proof fn lemma_children_of_add(a: Seq<ChildRec>, b: Seq<ChildRec>, pid: int)
    ensures
        children_of(a + b, pid) == children_of(a, pid) + children_of(b, pid),
    decreases b.len(),
{
    if b.len() == 0 {
        assert(a + b =~= a);
        assert(children_of(a, pid) + children_of(b, pid) =~= children_of(a, pid));
    } else {
        assert((a + b).drop_last() =~= a + b.drop_last());
        assert((a + b).last() == b.last());
        lemma_children_of_add(a, b.drop_last(), pid);
        if b.last().parent_id == pid {
            assert((children_of(a, pid) + children_of(b.drop_last(), pid)).push(b.last())
                =~= children_of(a, pid) + children_of(b.drop_last(), pid).push(b.last()));
        }
    }
}

proof fn lemma_children_of_none(cs: Seq<ChildRec>, pid: int)
    requires
        forall|j: int| 0 <= j < cs.len() ==> (#[trigger] cs[j]).parent_id != pid,
    ensures
        children_of(cs, pid) == Seq::<ChildRec>::empty(),
    decreases cs.len(),
{
    if cs.len() > 0 {
        lemma_children_of_none(cs.drop_last(), pid);
    }
}

proof fn lemma_children_of_all(cs: Seq<ChildRec>, pid: int)
    requires
        forall|j: int| 0 <= j < cs.len() ==> (#[trigger] cs[j]).parent_id == pid,
    ensures
        children_of(cs, pid) == cs,
    decreases cs.len(),
{
    if cs.len() > 0 {
        lemma_children_of_all(cs.drop_last(), pid);
        assert(cs.drop_last().push(cs.last()) =~= cs);
    }
}

/// The `child_ids` of the parents, concatenated in order.
pub open spec fn flat_child_ids(ps: Seq<ParentRec>) -> Seq<int>
    decreases ps.len(),
{
    if ps.len() == 0 {
        Seq::empty()
    } else {
        flat_child_ids(ps.drop_last()) + ps.last().child_ids
    }
}

/// The children claimed by parent `p` carry exactly the ids `p.child_ids`
/// in order, their indexes count 0,1,... in emission order, and all but the
/// last hold evenly paired fences.
pub open spec fn sibling_block_ok(children: Seq<ChildRec>, p: ParentRec) -> bool {
    let blk = children_of(children, p.id);
    &&& child_ids_of(blk) == p.child_ids
    &&& forall|j: int| 0 <= j < blk.len() ==> (#[trigger] blk[j]).index_in_parent == j
    &&& forall|j: int| 0 <= j < blk.len() - 1 ==> even_fences(#[trigger] blk[j])
}

/// The global linkage invariant of the parent scan: ids strictly increase
/// with emission and stay below the counter, every child names an emitted
/// parent, every parent's sibling block is intact, and the concatenation of
/// the parents' `child_ids` is exactly the children's id sequence.
pub open spec fn hier_inv(st: HierState) -> bool {
    &&& st.next_id >= 0
    &&& forall|k: int|
        0 <= k < st.parents.len() ==> 0 <= (#[trigger] st.parents[k]).start_line
            <= st.parents[k].end_line
    &&& child_spans_ok(st.children)
    &&& forall|k: int| 0 <= k < st.parents.len() ==> 0 <= (#[trigger] st.parents[k]).id < st.next_id
    &&& forall|k1: int, k2: int|
        0 <= k1 < k2 < st.parents.len() ==> (#[trigger] st.parents[k1]).id < (
        #[trigger] st.parents[k2]).id
    &&& forall|j: int| 0 <= j < st.children.len() ==> 0 <= (#[trigger] st.children[j]).id < st.next_id
    &&& forall|j1: int, j2: int|
        0 <= j1 < j2 < st.children.len() ==> (#[trigger] st.children[j1]).id < (
        #[trigger] st.children[j2]).id
    &&& forall|j: int|
        0 <= j < st.children.len() ==> (#[trigger] st.children[j]).parent_id < st.next_id
            && parent_ids(st.parents).contains(st.children[j].parent_id)
    &&& forall|k: int|
        0 <= k < st.parents.len() ==> sibling_block_ok(st.children, #[trigger] st.parents[k])
    &&& flat_child_ids(st.parents) == child_ids_of(st.children)
}

proof fn lemma_hier_close_inv(cfg: ChunkConfig, lines: Seq<Seq<char>>, st: HierState, hi: int)
    requires
        0 <= st.start < hi <= lines.len(),
        hier_inv(st),
        forall|k: int| 0 <= k < lines.len() ==> crate::text::no_nl(#[trigger] lines[k]),
    ensures
        hier_inv(hier_close(cfg, lines, st, hi)),
        hier_close(cfg, lines, st, hi).next_id > st.next_id,
{
    let pid = st.next_id;
    let span = lines.subrange(st.start, hi);
    let cres = child_result(cfg, span, st.start, pid, pid + 1);
    let blk = cres.children;
    lemma_child_result_wf(cfg, span, st.start, pid, pid + 1);
    assert forall|k: int| 0 <= k < span.len() implies crate::text::no_nl(#[trigger] span[k]) by {
        assert(span[k] == lines[st.start + k]);
    }
    lemma_child_result_fences(cfg, span, st.start, pid, pid + 1);
    lemma_child_result_spans(cfg, span, st.start, pid, pid + 1);
    let st2 = hier_close(cfg, lines, st, hi);
    assert forall|j: int| 0 <= j < st2.children.len() implies 0 <= (
    #[trigger] st2.children[j]).start_line <= st2.children[j].end_line by {
        if j >= st.children.len() {
            assert(st2.children[j] == blk[j - st.children.len()]);
        } else {
            assert(st2.children[j] == st.children[j]);
        }
    }
    let p = st2.parents.last();
    lemma_children_of_add(st.children, blk, pid);
    lemma_children_of_none(st.children, pid);
    lemma_children_of_all(blk, pid);
    assert(children_of(st2.children, pid) =~= blk);
    assert(child_ids_of(blk) == p.child_ids);
    // old parents keep their blocks: the new children belong to the new id
    assert forall|k: int| 0 <= k < st.parents.len() implies sibling_block_ok(
        st2.children,
        #[trigger] st2.parents[k],
    ) by {
        assert(st2.parents[k] == st.parents[k]);
        lemma_children_of_add(st.children, blk, st.parents[k].id);
        lemma_children_of_none(blk, st.parents[k].id);
        assert(children_of(st2.children, st.parents[k].id) =~= children_of(
            st.children,
            st.parents[k].id,
        ));
    }
    // the flat id list extends by exactly the new block's ids
    assert(st2.parents.drop_last() =~= st.parents);
    assert(child_ids_of(st.children + blk) =~= child_ids_of(st.children) + child_ids_of(blk));
    // id ordering across the append
    assert forall|j1: int, j2: int| 0 <= j1 < j2 < st2.children.len() implies (
    #[trigger] st2.children[j1]).id < (#[trigger] st2.children[j2]).id by {
        if j2 >= st.children.len() {
            assert(st2.children[j2] == blk[j2 - st.children.len()]);
            if j1 >= st.children.len() {
                assert(st2.children[j1] == blk[j1 - st.children.len()]);
            } else {
                assert(st2.children[j1] == st.children[j1]);
            }
        } else {
            assert(st2.children[j1] == st.children[j1]);
            assert(st2.children[j2] == st.children[j2]);
        }
    }
    assert forall|j: int| 0 <= j < st2.children.len() implies 0 <= (#[trigger] st2.children[j]).id
        < st2.next_id by {
        if j >= st.children.len() {
            assert(st2.children[j] == blk[j - st.children.len()]);
        } else {
            assert(st2.children[j] == st.children[j]);
        }
    }
    assert forall|j: int| 0 <= j < st2.children.len() implies (
    #[trigger] st2.children[j]).parent_id < st2.next_id && parent_ids(st2.parents).contains(
        st2.children[j].parent_id,
    ) by {
        if j >= st.children.len() {
            assert(st2.children[j] == blk[j - st.children.len()]);
            assert(parent_ids(st2.parents)[st2.parents.len() - 1] == pid);
        } else {
            assert(st2.children[j] == st.children[j]);
            assert(parent_ids(st.parents).contains(st.children[j].parent_id));
            let k = choose|k: int|
                0 <= k < parent_ids(st.parents).len() && parent_ids(st.parents)[k]
                    == st.children[j].parent_id;
            assert(parent_ids(st2.parents)[k] == st.children[j].parent_id);
        }
    }
}

proof fn lemma_hier_scan_inv(cfg: ChunkConfig, lines: Seq<Seq<char>>, st: HierState, i: int)
    requires
        0 <= st.start <= i <= lines.len(),
        hier_inv(st),
        forall|k: int| 0 <= k < lines.len() ==> crate::text::no_nl(#[trigger] lines[k]),
    ensures
        hier_inv(hier_scan(cfg, lines, st, i)),
    decreases lines.len() - st.start, lines.len() - i,
{
    if i < lines.len() {
        lemma_hier_step_progress(cfg, lines, st, i);
        let line = lines[i];
        let (stn, i2) = hier_step(cfg, lines, st, i);
        if is_h2(line) && span_size(lines, st.start, i) > cfg.min_parent_size as int {
            lemma_span_size_empty(lines, st.start);
            lemma_hier_close_inv(cfg, lines, st, i);
        }
        if is_h1(line) && i > st.start {
            lemma_hier_close_inv(cfg, lines, st, i);
        }
        let st1 = if is_h2(line) {
            let stc = if span_size(lines, st.start, i) > cfg.min_parent_size as int {
                hier_close(cfg, lines, st, i)
            } else {
                st
            };
            HierState { headers: seq![line], ..stc }
        } else if is_h1(line) {
            let stc = if i > st.start {
                hier_close(cfg, lines, st, i)
            } else {
                st
            };
            HierState { headers: seq![line], ..stc }
        } else if is_h3_or_deeper(line) {
            if st.headers.len() < 3 {
                HierState { headers: st.headers.push(line), ..st }
            } else {
                st
            }
        } else {
            st
        };
        assert(hier_inv(st1));
        if span_size(lines, st1.start, i + 1) >= cfg.parent_target_size as int {
            lemma_break_point(lines, st1.start, i);
            lemma_hier_close_inv(cfg, lines, st1, break_point(lines, st1.start, i) + 1);
        }
        lemma_hier_scan_inv(cfg, lines, stn, i2);
    }
}

proof fn lemma_hier_result_inv(cfg: ChunkConfig, doc: Seq<char>)
    ensures
        hier_inv(hier_result(cfg, line_split(doc))),
{
    let lines = line_split(doc);
    crate::text::lemma_line_split_no_nl(doc);
    assert(flat_child_ids(hier_init().parents) =~= child_ids_of(hier_init().children));
    assert(hier_inv(hier_init()));
    lemma_hier_scan_inv(cfg, lines, hier_init(), 0);
    let st = hier_scan(cfg, lines, hier_init(), 0);
    if st.start < lines.len() {
        lemma_hier_scan_bound(cfg, lines, hier_init(), 0);
        lemma_hier_close_inv(cfg, lines, st, lines.len() as int);
    }
}

/// Law: in a hierarchical segmentation, the concatenation of `child_ids`
/// over the parents, in emission order, is exactly the sequence of the
/// children's ids: every child is claimed by exactly one parent. No parent
/// id and no child id repeats, and every child's `parent_id` is the id of
/// an emitted parent.
pub proof fn lemma_hierarchy_linkage(cfg: ChunkConfig, doc: Seq<char>)
    ensures
        ({
            let m = hier_result(cfg, line_split(doc));
            &&& flat_child_ids(m.parents) == child_ids_of(m.children)
            &&& forall|j1: int, j2: int|
                0 <= j1 < j2 < m.children.len() ==> (#[trigger] m.children[j1]).id != (
                #[trigger] m.children[j2]).id
            &&& forall|k1: int, k2: int|
                0 <= k1 < k2 < m.parents.len() ==> (#[trigger] m.parents[k1]).id != (
                #[trigger] m.parents[k2]).id
            &&& forall|j: int|
                0 <= j < m.children.len() ==> parent_ids(m.parents).contains(
                    (#[trigger] m.children[j]).parent_id,
                )
        }),
{
    lemma_hier_result_inv(cfg, doc);
}

/// Law: for every parent of a hierarchical segmentation, the children whose
/// `parent_id` is that parent's id carry `index_in_parent` values
/// 0, 1, ..., n-1 in emission order, and the parent's `child_ids` lists
/// exactly those children's ids in the same order.
pub proof fn lemma_sibling_indexing(cfg: ChunkConfig, doc: Seq<char>)
    ensures
        ({
            let m = hier_result(cfg, line_split(doc));
            forall|k: int|
                0 <= k < m.parents.len() ==> sibling_block_ok(m.children, #[trigger] m.parents[k])
        }),
{
    lemma_hier_result_inv(cfg, doc);
}

/// Law: every emitted chunk spans at least one document line: its line
/// numbers are non-negative and its end line is never before its start
/// line.
pub proof fn lemma_line_spans(cfg: ChunkConfig, doc: Seq<char>)
    ensures
        ({
            let m = hier_result(cfg, line_split(doc));
            &&& forall|k: int|
                0 <= k < m.parents.len() ==> 0 <= (#[trigger] m.parents[k]).start_line
                    <= m.parents[k].end_line
            &&& child_spans_ok(m.children)
        }),
{
    lemma_hier_result_inv(cfg, doc);
}

/// Law: no child holds an unmatched fence marker, except possibly the last
/// child of a parent whose span itself ends inside a fence: for every
/// parent, every child of it but the last counts an even number of fence
/// lines in its content.
pub proof fn lemma_fence_pairing(cfg: ChunkConfig, doc: Seq<char>)
    ensures
        ({
            let m = hier_result(cfg, line_split(doc));
            forall|k: int|
                0 <= k < m.parents.len() ==> ({
                    let blk = children_of(m.children, (#[trigger] m.parents[k]).id);
                    forall|j: int| 0 <= j < blk.len() - 1 ==> even_fences(#[trigger] blk[j])
                })
        }),
{
    lemma_hier_result_inv(cfg, doc);
}

} // verus!
