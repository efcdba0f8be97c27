//! The multi-scale segmenter: an independent alternative to the
//! parent/child hierarchy. Three passes over the same document, one per
//! size tier, each closing a chunk at a natural break once the buffer
//! reaches the tier's target and seeding the next chunk with the closed
//! buffer's tail, so that adjacent chunks deliberately overlap. A second
//! entry point, the semantic segmenter, closes at section boundaries and
//! buffers fenced code separately so a fence never forces a split.

use crate::text::{
    extend_chars, is_blank, is_blank_x, is_fence, is_fence_x, lead_hashes, lead_hashes_x,
    line_split, sat128, starts_hash, text_size,
};
use vstd::prelude::*;

verus! {

/// The tier a multi-scale chunk belongs to.
#[derive(Clone, Copy, Debug, PartialEq, Eq, Structural)]
pub enum ChunkSize {
    Small,
    Medium,
    Large,
}

/// Mathematical model of one multi-scale chunk.
#[verifier::ext_equal]
pub ghost struct MsRec {
    pub content: Seq<char>,
    pub start_line: int,
    pub end_line: int,
    pub chunk_size: ChunkSize,
    pub has_code: bool,
    pub headers: Seq<Seq<char>>,
}

/// One multi-scale chunk: a flat, overlapping span without parent/child
/// linkage.
pub struct Chunk {
    pub content: String,
    pub start_line: usize,
    pub end_line: usize,
    pub chunk_size: ChunkSize,
    pub has_code: bool,
    pub headers: Vec<String>,
}

impl View for Chunk {
    type V = MsRec;

    open spec fn view(&self) -> MsRec {
        MsRec {
            content: self.content@,
            start_line: self.start_line as int,
            end_line: self.end_line as int,
            chunk_size: self.chunk_size,
            has_code: self.has_code,
            headers: self.headers.deep_view(),
        }
    }
}

pub open spec fn ms_views(s: Seq<Chunk>) -> Seq<MsRec> {
    s.map_values(|c: Chunk| c@)
}

/// The longest suffix of `s` that fits in `cap` bytes. The cut falls on a
/// character boundary by construction: a multi-byte character is kept or
/// dropped whole.
pub open spec fn tail_within(s: Seq<char>, cap: int) -> Seq<char>
    decreases s.len(),
{
    if s.len() == 0 {
        s
    } else if text_size(s) <= cap {
        s
    } else {
        tail_within(s.drop_first(), cap)
    }
}

pub proof fn lemma_tail_within_suffix(s: Seq<char>, cap: int)
    ensures
        tail_within(s, cap).len() <= s.len(),
        tail_within(s, cap) == s.skip(s.len() - tail_within(s, cap).len()),
    decreases s.len(),
{
    if s.len() == 0 || text_size(s) <= cap {
        assert(s.skip(0) =~= s);
    } else {
        lemma_tail_within_suffix(s.drop_first(), cap);
        let t = tail_within(s, cap);
        assert(s.drop_first().skip(s.drop_first().len() - t.len()) =~= s.skip(s.len() - t.len()));
    }
}

/// State of one tier's scan.
#[verifier::ext_equal]
pub ghost struct MsScan {
    pub chunks: Seq<MsRec>,
    pub buf: Seq<char>,
    pub start_line: int,
    pub headers: Seq<Seq<char>>,
    pub has_code: bool,
    pub in_code: bool,
}

pub open spec fn ms_init() -> MsScan {
    MsScan {
        chunks: Seq::empty(),
        buf: Seq::empty(),
        start_line: 0,
        headers: Seq::empty(),
        has_code: false,
        in_code: false,
    }
}

/// The header-context update shared by the multi-scale and semantic scans:
/// an H1/H2 replaces the stack, an H3 keeps only the section header above
/// it, deeper headers leave the stack alone.
pub open spec fn ms_headers(headers: Seq<Seq<char>>, line: Seq<char>, in_code: bool) -> Seq<
    Seq<char>,
> {
    if starts_hash(line) && !in_code {
        if lead_hashes(line) <= 2 {
            seq![line]
        } else if lead_hashes(line) == 3 {
            headers.take(if headers.len() >= 1 {
                1int
            } else {
                0int
            }).push(line)
        } else {
            headers
        }
    } else {
        headers
    }
}

/// One step of a tier's scan at line `i`.
pub open spec fn ms_step(
    lines: Seq<Seq<char>>,
    target: int,
    overlap: int,
    tag: ChunkSize,
    st: MsScan,
    i: int,
) -> MsScan {
    let line = lines[i];
    let headers = ms_headers(st.headers, line, st.in_code);
    let in_code = if is_fence(line) {
        !st.in_code
    } else {
        st.in_code
    };
    let has_code = if is_fence(line) && !st.in_code {
        true
    } else {
        st.has_code
    };
    let buf = st.buf + line + seq!['\n'];
    if text_size(buf) >= target && !in_code && (is_blank(line) || i + 1 >= lines.len()
        || starts_hash(lines[i + 1])) {
        let c = MsRec {
            content: buf,
            start_line: st.start_line,
            end_line: i,
            chunk_size: tag,
            has_code,
            headers,
        };
        MsScan {
            chunks: st.chunks.push(c),
            buf: tail_within(buf, overlap),
            start_line: if i - 10 >= 0 {
                i - 10
            } else {
                0
            },
            headers,
            has_code: in_code,
            in_code,
        }
    } else {
        MsScan { chunks: st.chunks, buf, start_line: st.start_line, headers, has_code, in_code }
    }
}

/// A tier's scan after processing lines `0..n`.
pub open spec fn ms_scan(
    lines: Seq<Seq<char>>,
    target: int,
    overlap: int,
    tag: ChunkSize,
    n: int,
) -> MsScan
    decreases n,
{
    if n <= 0 {
        ms_init()
    } else {
        ms_step(lines, target, overlap, tag, ms_scan(lines, target, overlap, tag, n - 1), n - 1)
    }
}

/// A tier's finished chunk sequence: the scan over every line, then the
/// remaining buffer, unless blank, as the final chunk.
pub open spec fn ms_result(lines: Seq<Seq<char>>, target: int, overlap: int, tag: ChunkSize) -> Seq<
    MsRec,
> {
    let st = ms_scan(lines, target, overlap, tag, lines.len() as int);
    if !is_blank(st.buf) {
        st.chunks.push(
            MsRec {
                content: st.buf,
                start_line: st.start_line,
                end_line: lines.len() - 1,
                chunk_size: tag,
                has_code: st.has_code,
                headers: st.headers,
            },
        )
    } else {
        st.chunks
    }
}

pub proof fn lemma_tail_within_size(s: Seq<char>, cap: int)
    requires
        cap >= 0,
    ensures
        text_size(tail_within(s, cap)) <= cap,
    decreases s.len(),
{
    if s.len() == 0 {
        assert(text_size(s) == 0);
    } else if text_size(s) > cap {
        lemma_tail_within_size(s.drop_first(), cap);
    }
}

/// The longest suffix of `buf` that fits in `cap` bytes.
fn tail_within_x(buf: &Vec<char>, cap: u128) -> (r: Vec<char>)
    ensures
        r@ == tail_within(buf@, cap as int),
{
    let total = crate::text::text_size_x(buf);
    let mut size = total;
    let mut k: usize = 0;
    proof {
        assert(buf@.skip(0) =~= buf@);
    }
    while size > cap && k < buf.len()
        invariant
            k <= buf.len(),
            size == text_size(buf@.skip(k as int)),
            tail_within(buf@, cap as int) == tail_within(buf@.skip(k as int), cap as int),
        decreases buf.len() - k,
    {
        let ghost rest = buf@.skip(k as int);
        proof {
            assert(rest.drop_first() =~= buf@.skip(k + 1 as int));
            crate::text::lemma_text_size_bounds(rest.drop_first());
        }
        size = size - crate::text::char_size_x(buf[k]) as u128;
        k = k + 1;
    }
    proof {
        if k == buf.len() && size > cap {
            assert(buf@.skip(buf@.len() as int) =~= Seq::<char>::empty());
            assert(text_size(Seq::<char>::empty()) == 0);
        }
        assert(tail_within(buf@.skip(k as int), cap as int) == buf@.skip(k as int));
    }
    let mut r: Vec<char> = Vec::new();
    let mut j = k;
    while j < buf.len()
        invariant
            k <= j <= buf.len(),
            r@ == buf@.subrange(k as int, j as int),
        decreases buf.len() - j,
    {
        r.push(buf[j]);
        proof {
            assert(buf@.subrange(k as int, j + 1 as int) =~= buf@.subrange(k as int, j as int).push(
                buf@[j as int],
            ));
        }
        j = j + 1;
    }
    proof {
        assert(r@ =~= buf@.skip(k as int));
    }
    r
}

proof fn lemma_ms_views_push(s: Seq<Chunk>, c: Chunk)
    ensures
        ms_views(s.push(c)) == ms_views(s).push(c@),
{
    assert(ms_views(s.push(c)) =~= ms_views(s).push(c@));
}

/// One tier of the multi-scale segmentation, appended to `out`: chunks
/// close at a natural break once the buffer reaches `target` bytes, and
/// each closed buffer's trailing `overlap` bytes (cut at a character
/// boundary) seed the next chunk.
pub fn segment_tier(
    lines: &Vec<Vec<char>>,
    target: usize,
    overlap: usize,
    tag: ChunkSize,
    out: &mut Vec<Chunk>,
)
    ensures
        ms_views(final(out)@) == ms_views(old(out)@) + ms_result(
            lines.deep_view(),
            target as int,
            overlap as int,
            tag,
        ),
{
    let ghost ld = lines.deep_view();
    let ghost base = ms_views(old(out)@);
    let mut buf: Vec<char> = Vec::new();
    let mut size: u128 = 0;
    let mut start_line: usize = 0;
    let mut headers: Vec<Vec<char>> = Vec::new();
    let mut has_code = false;
    let mut in_code = false;
    let mut i: usize = 0;
    proof {
        assert(text_size(buf@) == 0);
        assert(ms_views(out@) =~= base + ms_init().chunks);
        assert(buf@ =~= ms_init().buf);
        assert(headers.deep_view() =~= ms_init().headers);
    }
    while i < lines.len()
        invariant
            i <= lines@.len(),
            ld == lines.deep_view(),
            ld.len() == lines@.len(),
            size as int == sat128(text_size(buf@)),
            buf@.len() > 0 ==> i >= 1,
            ({
                let st = ms_scan(ld, target as int, overlap as int, tag, i as int);
                &&& st.buf == buf@
                &&& st.start_line == start_line as int
                &&& st.headers == headers.deep_view()
                &&& st.has_code == has_code
                &&& st.in_code == in_code
                &&& ms_views(out@) == base + st.chunks
            }),
        decreases lines@.len() - i,
    {
        let ghost st = ms_scan(ld, target as int, overlap as int, tag, i as int);
        let ghost stn = ms_step(ld, target as int, overlap as int, tag, st, i as int);
        proof {
            assert(ld[i as int] =~= lines@[i as int]@);
        }
        let line = &lines[i];
        let lead = lead_hashes_x(line);
        if lead >= 1 && !in_code {
            if lead <= 2 {
                let mut hs: Vec<Vec<char>> = Vec::new();
                hs.push(crate::text::clone_chars(line));
                headers = hs;
                proof {
                    assert(headers.deep_view() =~~= seq![ld[i as int]]);
                }
            } else if lead == 3 {
                let ghost h0 = headers.deep_view();
                headers.truncate(1);
                headers.push(crate::text::clone_chars(line));
                proof {
                    assert(headers.deep_view() =~~= h0.take(
                        if h0.len() >= 1 {
                            1int
                        } else {
                            0int
                        },
                    ).push(ld[i as int]));
                }
            }
        }
        proof {
            assert(headers.deep_view() =~~= ms_headers(st.headers, ld[i as int], st.in_code));
        }
        let fence = is_fence_x(line);
        if fence {
            if !in_code {
                has_code = true;
            }
            in_code = !in_code;
        }
        let ghost buf0 = buf@;
        extend_chars(&mut buf, line);
        buf.push('\n');
        let lsz = crate::text::text_size_x(line);
        proof {
            assert(buf@ =~= buf0 + ld[i as int] + seq!['\n']);
            crate::text::lemma_text_size_add(buf0 + ld[i as int], seq!['\n']);
            crate::text::lemma_text_size_add(buf0, ld[i as int]);
            assert(seq!['\n'].drop_first() =~= Seq::<char>::empty());
            assert(text_size(Seq::<char>::empty()) == 0);
            assert(text_size(seq!['\n']) == 1);
            crate::text::lemma_text_size_bounds(ld[i as int]);
        }
        size = crate::text::sat_add(size, crate::text::sat_add(lsz, 1));
        proof {
            assert(size as int == sat128(text_size(buf@)));
            crate::text::lemma_sat_cmp(text_size(buf@), target as int);
        }
        if size >= target as u128 && !in_code && (is_blank_x(line) || i + 1 >= lines.len()
            || lead_hashes_x(&lines[i + 1]) >= 1) {
            proof {
                if i + 1 < lines@.len() {
                    assert(ld[i + 1 as int] =~= lines@[i + 1 as int]@);
                }
            }
            let content = crate::text::chars_to_string(&buf);
            let hstrs = crate::text::strings_of(&headers);
            let c = Chunk {
                content,
                start_line,
                end_line: i,
                chunk_size: tag,
                has_code,
                headers: hstrs,
            };
            let ghost out0 = out@;
            out.push(c);
            proof {
                lemma_ms_views_push(out0, out@[out@.len() - 1]);
                assert(out@ =~= out0.push(out@[out@.len() - 1]));
            }
            let t = tail_within_x(&buf, overlap as u128);
            size = crate::text::text_size_x(&t);
            proof {
                lemma_tail_within_size(buf@, overlap as int);
            }
            buf = t;
            start_line = if i >= 10 {
                i - 10
            } else {
                0
            };
            has_code = in_code;
        } else {
            proof {
                if i + 1 < lines@.len() {
                    assert(ld[i + 1 as int] =~= lines@[i + 1 as int]@);
                }
            }
        }
        proof {
            assert(buf@ =~= stn.buf);
            assert(headers.deep_view() =~= stn.headers);
            assert(ms_views(out@) =~= base + stn.chunks);
            assert(ms_scan(ld, target as int, overlap as int, tag, i + 1 as int) == stn);
        }
        i = i + 1;
    }
    let ghost stf = ms_scan(ld, target as int, overlap as int, tag, ld.len() as int);
    if !is_blank_x(&buf) {
        let content = crate::text::chars_to_string(&buf);
        let hstrs = crate::text::strings_of(&headers);
        let c = Chunk {
            content,
            start_line,
            end_line: lines.len() - 1,
            chunk_size: tag,
            has_code,
            headers: hstrs,
        };
        let ghost out0 = out@;
        out.push(c);
        proof {
            lemma_ms_views_push(out0, out@[out@.len() - 1]);
            assert(out@ =~= out0.push(out@[out@.len() - 1]));
            assert(ms_views(out@) =~= base + ms_result(ld, target as int, overlap as int, tag));
        }
    } else {
        proof {
            assert(ms_views(out@) =~= base + ms_result(ld, target as int, overlap as int, tag));
        }
    }
}

/// Within one tier, each chunk's retained tail opens the next chunk.
pub open spec fn overlap_chain_ok(chunks: Seq<MsRec>, overlap: int) -> bool {
    forall|j: int|
        0 <= j < chunks.len() - 1 ==> crate::truncate::is_prefix_of(
            tail_within((#[trigger] chunks[j]).content, overlap),
            chunks[j + 1].content,
        )
}

proof fn lemma_prefix_extend(p: Seq<char>, a: Seq<char>, b: Seq<char>)
    requires
        crate::truncate::is_prefix_of(p, a),
    ensures
        crate::truncate::is_prefix_of(p, a + b),
{
    assert((a + b).take(p.len() as int) =~= a.take(p.len() as int));
}

#[verifier::rlimit(100)]
#[verifier::spinoff_prover]
proof fn lemma_ms_scan_overlap(
    lines: Seq<Seq<char>>,
    target: int,
    overlap: int,
    tag: ChunkSize,
    n: int,
)
    requires
        0 <= n <= lines.len(),
    ensures
        ({
            let st = ms_scan(lines, target, overlap, tag, n);
            &&& overlap_chain_ok(st.chunks, overlap)
            &&& st.chunks.len() > 0 ==> crate::truncate::is_prefix_of(
                tail_within(st.chunks.last().content, overlap),
                st.buf,
            )
        }),
    decreases n,
{
    if n > 0 {
        lemma_ms_scan_overlap(lines, target, overlap, tag, n - 1);
        let st = ms_scan(lines, target, overlap, tag, n - 1);
        let i = n - 1;
        let line = lines[i];
        let buf = st.buf + line + seq!['\n'];
        if st.chunks.len() > 0 {
            lemma_prefix_extend(
                tail_within(st.chunks.last().content, overlap),
                st.buf,
                line + seq!['\n'],
            );
            assert(st.buf + line + seq!['\n'] =~= st.buf + (line + seq!['\n']));
        }
        let stn = ms_step(lines, target, overlap, tag, st, i);
        if stn.chunks.len() > st.chunks.len() {
            // a chunk was closed: its content is the full buffer and the new
            // buffer is exactly the retained tail of that content
            assert(stn.chunks.last().content == buf);
            assert(stn.buf == tail_within(buf, overlap));
            lemma_tail_within_suffix(buf, overlap);
            let t = tail_within(buf, overlap);
            assert(t.take(t.len() as int) =~= t);
            assert forall|j: int| 0 <= j < stn.chunks.len() - 1 implies crate::truncate::is_prefix_of(
                tail_within((#[trigger] stn.chunks[j]).content, overlap),
                stn.chunks[j + 1].content,
            ) by {
                if j < st.chunks.len() - 1 {
                    assert(stn.chunks[j] == st.chunks[j]);
                    assert(stn.chunks[j + 1] == st.chunks[j + 1]);
                } else {
                    assert(stn.chunks[j] == st.chunks.last());
                    assert(stn.chunks[j + 1].content == buf);
                }
            }
        }
    }
}

/// Law: within one tier of a multi-scale segmentation, the retained tail of
/// each chunk's content (the trailing `overlap` bytes, cut at a character
/// boundary) is a prefix of the next chunk's content: adjacent chunks share
/// their boundary text.
#[verifier::rlimit(100)]
#[verifier::spinoff_prover]
pub proof fn lemma_tier_overlap(doc: Seq<char>, target: int, overlap: int, tag: ChunkSize)
    ensures
        overlap_chain_ok(ms_result(line_split(doc), target, overlap, tag), overlap),
{
    let lines = line_split(doc);
    lemma_ms_scan_overlap(lines, target, overlap, tag, lines.len() as int);
    let st = ms_scan(lines, target, overlap, tag, lines.len() as int);
    let r = ms_result(lines, target, overlap, tag);
    if !is_blank(st.buf) && st.chunks.len() > 0 {
        assert forall|j: int| 0 <= j < r.len() - 1 implies crate::truncate::is_prefix_of(
            tail_within((#[trigger] r[j]).content, overlap),
            r[j + 1].content,
        ) by {
            if j < st.chunks.len() - 1 {
                assert(r[j] == st.chunks[j]);
                assert(r[j + 1] == st.chunks[j + 1]);
            } else {
                assert(r[j] == st.chunks.last());
                assert(r[j + 1].content == st.buf);
            }
        }
    }
}

/// Multi-scale segmentation: three independent passes over the document at
/// the small, medium and large tiers, concatenated in that order. Each
/// tier's chunks overlap deliberately so that a passage near a boundary
/// appears whole in at least one chunk.
pub fn create_multi_scale_chunks(content: &str) -> (r: Vec<Chunk>)
    ensures
        ms_views(r@) == ms_result(line_split(content@), 1000, 200, ChunkSize::Small) + ms_result(
            line_split(content@),
            3000,
            500,
            ChunkSize::Medium,
        ) + ms_result(line_split(content@), 6000, 1000, ChunkSize::Large),
{
    let lines = crate::text::doc_lines(content);
    let mut out: Vec<Chunk> = Vec::new();
    proof {
        assert(ms_views(out@) =~= Seq::<MsRec>::empty());
    }
    segment_tier(&lines, 1000, 200, ChunkSize::Small, &mut out);
    segment_tier(&lines, 3000, 500, ChunkSize::Medium, &mut out);
    segment_tier(&lines, 6000, 1000, ChunkSize::Large, &mut out);
    proof {
        let ld = lines.deep_view();
        assert(Seq::<MsRec>::empty() + ms_result(ld, 1000, 200, ChunkSize::Small) =~= ms_result(
            ld,
            1000,
            200,
            ChunkSize::Small,
        ));
        assert(ms_views(out@) =~= ms_result(ld, 1000, 200, ChunkSize::Small) + ms_result(
            ld,
            3000,
            500,
            ChunkSize::Medium,
        ) + ms_result(ld, 6000, 1000, ChunkSize::Large));
    }
    out
}

/// A section close at an H1/H2 boundary asks for at least this many
/// buffered bytes.
pub const SECTION_MIN_SIZE: usize = 500;

/// A flush before an opening fence asks for at least this many buffered
/// bytes.
pub const CODE_FLUSH_MIN_SIZE: usize = 300;

/// State of the semantic scan: prose accumulates in `buf`, a fenced block
/// accumulates in `code_buf` and joins `buf` whole when its fence closes.
#[verifier::ext_equal]
pub ghost struct SemScan {
    pub chunks: Seq<MsRec>,
    pub buf: Seq<char>,
    pub code_buf: Seq<char>,
    pub start_line: int,
    pub headers: Seq<Seq<char>>,
    pub in_code: bool,
    pub has_code: bool,
}

pub open spec fn sem_init() -> SemScan {
    SemScan {
        chunks: Seq::empty(),
        buf: Seq::empty(),
        code_buf: Seq::empty(),
        start_line: 0,
        headers: Seq::empty(),
        in_code: false,
        has_code: false,
    }
}

/// One step of the semantic scan at line `i`.
pub open spec fn sem_step(lines: Seq<Seq<char>>, target: int, st: SemScan, i: int) -> SemScan {
    let line = lines[i];
    let st1 = if starts_hash(line) && !st.in_code {
        let stc = if lead_hashes(line) <= 2 && text_size(st.buf) > SECTION_MIN_SIZE as int {
            SemScan {
                chunks: st.chunks.push(
                    MsRec {
                        content: st.buf,
                        start_line: st.start_line,
                        end_line: i - 1,
                        chunk_size: ChunkSize::Medium,
                        has_code: st.has_code,
                        headers: st.headers,
                    },
                ),
                buf: Seq::empty(),
                start_line: i,
                has_code: false,
                ..st
            }
        } else {
            st
        };
        SemScan { headers: ms_headers(stc.headers, line, false), ..stc }
    } else {
        st
    };
    if is_fence(line) {
        if !st1.in_code {
            let stf = if text_size(st1.buf) > CODE_FLUSH_MIN_SIZE as int {
                SemScan {
                    chunks: st1.chunks.push(
                        MsRec {
                            content: st1.buf,
                            start_line: st1.start_line,
                            end_line: i - 1,
                            chunk_size: ChunkSize::Medium,
                            has_code: false,
                            headers: st1.headers,
                        },
                    ),
                    buf: Seq::empty(),
                    start_line: i,
                    ..st1
                }
            } else {
                st1
            };
            // the opening fence line lands in the fresh code buffer
            SemScan {
                in_code: true,
                has_code: true,
                code_buf: line + seq!['\n'],
                ..stf
            }
        } else {
            // the closing fence folds the whole block into the prose buffer
            SemScan {
                in_code: false,
                buf: st1.buf + st1.code_buf + line + seq!['\n'],
                code_buf: Seq::empty(),
                ..st1
            }
        }
    } else {
        let st2 = if st1.in_code {
            SemScan { code_buf: st1.code_buf + line + seq!['\n'], ..st1 }
        } else {
            SemScan { buf: st1.buf + line + seq!['\n'], ..st1 }
        };
        if !st2.in_code && text_size(st2.buf) >= target && (is_blank(line) || i + 1 >= lines.len()
            || starts_hash(lines[i + 1])) {
            SemScan {
                chunks: st2.chunks.push(
                    MsRec {
                        content: st2.buf,
                        start_line: st2.start_line,
                        end_line: i,
                        chunk_size: ChunkSize::Medium,
                        has_code: st2.has_code,
                        headers: st2.headers,
                    },
                ),
                buf: Seq::empty(),
                start_line: i + 1,
                has_code: false,
                ..st2
            }
        } else {
            st2
        }
    }
}

/// The semantic scan after processing lines `0..n`.
pub open spec fn sem_scan(lines: Seq<Seq<char>>, target: int, n: int) -> SemScan
    decreases n,
{
    if n <= 0 {
        sem_init()
    } else {
        sem_step(lines, target, sem_scan(lines, target, n - 1), n - 1)
    }
}

/// The finished semantic segmentation: any unterminated code buffer folds
/// into the prose buffer, which, unless blank, closes as the final chunk.
pub open spec fn sem_result(lines: Seq<Seq<char>>, target: int) -> Seq<MsRec> {
    let st = sem_scan(lines, target, lines.len() as int);
    if !is_blank(st.buf) || st.code_buf.len() > 0 {
        st.chunks.push(
            MsRec {
                content: st.buf + st.code_buf,
                start_line: st.start_line,
                end_line: lines.len() - 1,
                chunk_size: ChunkSize::Medium,
                has_code: st.has_code,
                headers: st.headers,
            },
        )
    } else {
        st.chunks
    }
}

/// Semantic segmentation: one pass that closes chunks at major section
/// boundaries and at the byte-size target, buffering each fenced block
/// whole so a fence is never torn across two chunks. Total over any input.
pub fn semantic_chunk_markdown(content: &str, target_size: usize) -> (r: Vec<Chunk>)
    ensures
        ms_views(r@) == sem_result(line_split(content@), target_size as int),
{
    let lines = crate::text::doc_lines(content);
    let ghost ld = lines.deep_view();
    let mut out: Vec<Chunk> = Vec::new();
    let mut buf: Vec<char> = Vec::new();
    let mut bsize: u128 = 0;
    let mut code_buf: Vec<char> = Vec::new();
    let mut start_line: usize = 0;
    let mut headers: Vec<Vec<char>> = Vec::new();
    let mut in_code = false;
    let mut has_code = false;
    let mut i: usize = 0;
    proof {
        assert(text_size(buf@) == 0);
        assert(ms_views(out@) =~= sem_init().chunks);
        assert(buf@ =~= sem_init().buf);
        assert(code_buf@ =~= sem_init().code_buf);
        assert(headers.deep_view() =~= sem_init().headers);
    }
    while i < lines.len()
        invariant
            i <= lines@.len(),
            ld == lines.deep_view(),
            ld.len() == lines@.len(),
            bsize as int == sat128(text_size(buf@)),
            buf@.len() > 0 ==> i >= 1,
            code_buf@.len() > 0 ==> i >= 1,
            ({
                let st = sem_scan(ld, target_size as int, i as int);
                &&& st.buf == buf@
                &&& st.code_buf == code_buf@
                &&& st.start_line == start_line as int
                &&& st.headers == headers.deep_view()
                &&& st.has_code == has_code
                &&& st.in_code == in_code
                &&& ms_views(out@) == st.chunks
            }),
        decreases lines@.len() - i,
    {
        let ghost st = sem_scan(ld, target_size as int, i as int);
        let ghost stn = sem_step(ld, target_size as int, st, i as int);
        proof {
            assert(ld[i as int] =~= lines@[i as int]@);
            crate::text::lemma_sat_cmp(text_size(buf@), SECTION_MIN_SIZE as int);
        }
        let line = &lines[i];
        let lead = lead_hashes_x(line);
        if lead >= 1 && !in_code {
            if lead <= 2 && bsize > SECTION_MIN_SIZE as u128 {
                let content_s = crate::text::chars_to_string(&buf);
                let hstrs = crate::text::strings_of(&headers);
                let c = Chunk {
                    content: content_s,
                    start_line,
                    end_line: i - 1,
                    chunk_size: ChunkSize::Medium,
                    has_code,
                    headers: hstrs,
                };
                let ghost out0 = out@;
                out.push(c);
                proof {
                    lemma_ms_views_push(out0, out@[out@.len() - 1]);
                    assert(out@ =~= out0.push(out@[out@.len() - 1]));
                }
                buf = Vec::new();
                bsize = 0;
                start_line = i;
                has_code = false;
            }
            if lead <= 2 {
                let mut hs: Vec<Vec<char>> = Vec::new();
                hs.push(crate::text::clone_chars(line));
                headers = hs;
                proof {
                    assert(headers.deep_view() =~~= seq![ld[i as int]]);
                }
            } else if lead == 3 {
                let ghost h0 = headers.deep_view();
                headers.truncate(1);
                headers.push(crate::text::clone_chars(line));
                proof {
                    assert(headers.deep_view() =~~= h0.take(
                        if h0.len() >= 1 {
                            1int
                        } else {
                            0int
                        },
                    ).push(ld[i as int]));
                }
            }
        }
        let ghost st1 = SemScan {
            chunks: ms_views(out@),
            buf: buf@,
            code_buf: code_buf@,
            start_line: start_line as int,
            headers: headers.deep_view(),
            in_code,
            has_code,
        };
        proof {
            crate::text::lemma_sat_cmp(text_size(buf@), CODE_FLUSH_MIN_SIZE as int);
        }
        let fence = is_fence_x(line);
        if fence {
            if !in_code {
                if bsize > CODE_FLUSH_MIN_SIZE as u128 {
                    let content_s = crate::text::chars_to_string(&buf);
                    let hstrs = crate::text::strings_of(&headers);
                    let c = Chunk {
                        content: content_s,
                        start_line,
                        end_line: i - 1,
                        chunk_size: ChunkSize::Medium,
                        has_code: false,
                        headers: hstrs,
                    };
                    let ghost out0 = out@;
                    out.push(c);
                    proof {
                        lemma_ms_views_push(out0, out@[out@.len() - 1]);
                        assert(out@ =~= out0.push(out@[out@.len() - 1]));
                    }
                    buf = Vec::new();
                    bsize = 0;
                    start_line = i;
                }
                in_code = true;
                has_code = true;
                code_buf = Vec::new();
                extend_chars(&mut code_buf, line);
                code_buf.push('\n');
                proof {
                    assert(code_buf@ =~= Seq::<char>::empty() + ld[i as int] + seq!['\n']);
                    assert(code_buf@ =~= stn.code_buf);
                }
            } else {
                in_code = false;
                extend_chars(&mut code_buf, line);
                code_buf.push('\n');
                let ghost cb = code_buf@;
                let csz = crate::text::text_size_x(&code_buf);
                extend_chars(&mut buf, &code_buf);
                code_buf = Vec::new();
                proof {
                    crate::text::lemma_text_size_add(st1.buf, cb);
                    assert(cb =~= st1.code_buf + ld[i as int] + seq!['\n']);
                    assert(buf@ =~= st1.buf + st1.code_buf + ld[i as int] + seq!['\n']) by {
                        assert(buf@ =~= st1.buf + cb);
                    }
                }
                bsize = crate::text::sat_add(bsize, csz);
            }
        } else {
            if in_code {
                extend_chars(&mut code_buf, line);
                code_buf.push('\n');
                proof {
                    assert(code_buf@ =~= st1.code_buf + ld[i as int] + seq!['\n']);
                }
            } else {
                extend_chars(&mut buf, line);
                buf.push('\n');
                let lsz = crate::text::text_size_x(line);
                proof {
                    assert(buf@ =~= st1.buf + ld[i as int] + seq!['\n']);
                    crate::text::lemma_text_size_add(st1.buf + ld[i as int], seq!['\n']);
                    crate::text::lemma_text_size_add(st1.buf, ld[i as int]);
                    assert(seq!['\n'].drop_first() =~= Seq::<char>::empty());
                    assert(text_size(Seq::<char>::empty()) == 0);
                    assert(text_size(seq!['\n']) == 1);
                    crate::text::lemma_text_size_bounds(ld[i as int]);
                }
                bsize = crate::text::sat_add(bsize, crate::text::sat_add(lsz, 1));
                proof {
                    crate::text::lemma_sat_cmp(text_size(buf@), target_size as int);
                }
                if bsize >= target_size as u128 && (is_blank_x(line) || i + 1 >= lines.len()
                    || lead_hashes_x(&lines[i + 1]) >= 1) {
                    proof {
                        if i + 1 < lines@.len() {
                            assert(ld[i + 1 as int] =~= lines@[i + 1 as int]@);
                        }
                    }
                    let content_s = crate::text::chars_to_string(&buf);
                    let hstrs = crate::text::strings_of(&headers);
                    let c = Chunk {
                        content: content_s,
                        start_line,
                        end_line: i,
                        chunk_size: ChunkSize::Medium,
                        has_code,
                        headers: hstrs,
                    };
                    let ghost out0 = out@;
                    out.push(c);
                    proof {
                        lemma_ms_views_push(out0, out@[out@.len() - 1]);
                        assert(out@ =~= out0.push(out@[out@.len() - 1]));
                    }
                    buf = Vec::new();
                    bsize = 0;
                    start_line = i + 1;
                    has_code = false;
                } else {
                    proof {
                        if i + 1 < lines@.len() {
                            assert(ld[i + 1 as int] =~= lines@[i + 1 as int]@);
                        }
                    }
                }
            }
        }
        proof {
            assert(buf@ =~= stn.buf);
            assert(code_buf@ =~= stn.code_buf);
            assert(headers.deep_view() =~= stn.headers);
            assert(ms_views(out@) =~= stn.chunks);
            assert(sem_scan(ld, target_size as int, i + 1 as int) == stn);
        }
        i = i + 1;
    }
    if !is_blank_x(&buf) || code_buf.len() > 0 {
        let ghost st = sem_scan(ld, target_size as int, ld.len() as int);
        extend_chars(&mut buf, &code_buf);
        let content_s = crate::text::chars_to_string(&buf);
        let hstrs = crate::text::strings_of(&headers);
        let c = Chunk {
            content: content_s,
            start_line,
            end_line: lines.len() - 1,
            chunk_size: ChunkSize::Medium,
            has_code,
            headers: hstrs,
        };
        let ghost out0 = out@;
        out.push(c);
        proof {
            lemma_ms_views_push(out0, out@[out@.len() - 1]);
            assert(out@ =~= out0.push(out@[out@.len() - 1]));
            assert(ms_views(out@) =~= sem_result(ld, target_size as int));
        }
    } else {
        proof {
            assert(ms_views(out@) =~= sem_result(ld, target_size as int));
        }
    }
    out
}

} // verus!
