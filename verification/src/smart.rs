//! The single-level smart segmenter: splits a document at headers, keeps
//! every fenced code block whole as a chunk of its own, and otherwise
//! breaks prose at paragraph boundaries once a chunk exceeds its size cap.

use crate::text::{
    extend_chars, is_blank, is_blank_x, is_fence, is_fence_x, lead_hashes, lead_hashes_x,
    line_split, sat128, starts_hash, text_size,
};
use vstd::prelude::*;

verus! {

/// The kind of text a smart chunk holds.
#[derive(Clone, Copy, Debug, PartialEq, Eq, Structural)]
pub enum MdChunkType {
    Header,
    CodeBlock,
    Text,
    List,
    Table,
}

/// Mathematical model of one smart chunk.
#[verifier::ext_equal]
pub ghost struct SmartRec {
    pub content: Seq<char>,
    pub chunk_type: MdChunkType,
    pub header_context: Seq<char>,
    pub index: int,
}

/// One smart chunk: its text, its kind, and the most recent H1/H2 line seen
/// before it.
pub struct MarkdownChunk {
    pub content: String,
    pub chunk_type: MdChunkType,
    pub header_context: String,
    pub index: usize,
}

impl View for MarkdownChunk {
    type V = SmartRec;

    open spec fn view(&self) -> SmartRec {
        SmartRec {
            content: self.content@,
            chunk_type: self.chunk_type,
            header_context: self.header_context@,
            index: self.index as int,
        }
    }
}

pub open spec fn smart_views(s: Seq<MarkdownChunk>) -> Seq<SmartRec> {
    s.map_values(|c: MarkdownChunk| c@)
}

/// State of the smart scan.
#[verifier::ext_equal]
pub ghost struct SmartScan {
    pub chunks: Seq<SmartRec>,
    pub cur: Seq<char>,
    pub code: Seq<char>,
    pub ctx: Seq<char>,
    pub in_code: bool,
    pub idx: int,
}

pub open spec fn smart_init() -> SmartScan {
    SmartScan {
        chunks: Seq::empty(),
        cur: Seq::empty(),
        code: Seq::empty(),
        ctx: Seq::empty(),
        in_code: false,
        idx: 0,
    }
}

/// One step of the smart scan at line `i`.
pub open spec fn smart_step(lines: Seq<Seq<char>>, max_size: int, st: SmartScan, i: int) -> SmartScan {
    let line = lines[i];
    if starts_hash(line) && !st.in_code {
        let st1 = if st.cur.len() > 0 {
            SmartScan {
                chunks: st.chunks.push(
                    SmartRec {
                        content: st.cur,
                        chunk_type: MdChunkType::Text,
                        header_context: st.ctx,
                        index: st.idx,
                    },
                ),
                cur: Seq::empty(),
                idx: st.idx + 1,
                ..st
            }
        } else {
            st
        };
        let st2 = if lead_hashes(line) <= 2 {
            SmartScan { ctx: line, ..st1 }
        } else {
            st1
        };
        SmartScan { cur: st2.cur + line + seq!['\n'], ..st2 }
    } else if is_fence(line) {
        if st.in_code {
            let code = st.code + line + seq!['\n'];
            SmartScan {
                chunks: st.chunks.push(
                    SmartRec {
                        content: code,
                        chunk_type: MdChunkType::CodeBlock,
                        header_context: st.ctx,
                        index: st.idx,
                    },
                ),
                code: Seq::empty(),
                in_code: false,
                idx: st.idx + 1,
                ..st
            }
        } else {
            let st1 = if st.cur.len() > 0 {
                SmartScan {
                    chunks: st.chunks.push(
                        SmartRec {
                            content: st.cur,
                            chunk_type: MdChunkType::Text,
                            header_context: st.ctx,
                            index: st.idx,
                        },
                    ),
                    cur: Seq::empty(),
                    idx: st.idx + 1,
                    ..st
                }
            } else {
                st
            };
            SmartScan { in_code: true, code: st1.code + line + seq!['\n'], ..st1 }
        }
    } else if st.in_code {
        SmartScan { code: st.code + line + seq!['\n'], ..st }
    } else {
        let cur = st.cur + line + seq!['\n'];
        if text_size(cur) > max_size && is_blank(line) {
            SmartScan {
                chunks: st.chunks.push(
                    SmartRec {
                        content: cur,
                        chunk_type: MdChunkType::Text,
                        header_context: st.ctx,
                        index: st.idx,
                    },
                ),
                cur: Seq::empty(),
                idx: st.idx + 1,
                ..st
            }
        } else {
            SmartScan { cur, ..st }
        }
    }
}

/// The smart scan after processing lines `0..n`.
pub open spec fn smart_scan(lines: Seq<Seq<char>>, max_size: int, n: int) -> SmartScan
    decreases n,
{
    if n <= 0 {
        smart_init()
    } else {
        smart_step(lines, max_size, smart_scan(lines, max_size, n - 1), n - 1)
    }
}

/// The finished smart segmentation: remaining prose, then a remaining open
/// code block, each as a final chunk.
pub open spec fn smart_result(lines: Seq<Seq<char>>, max_size: int) -> Seq<SmartRec> {
    let st = smart_scan(lines, max_size, lines.len() as int);
    let r1 = if st.cur.len() > 0 {
        st.chunks.push(
            SmartRec {
                content: st.cur,
                chunk_type: MdChunkType::Text,
                header_context: st.ctx,
                index: st.idx,
            },
        )
    } else {
        st.chunks
    };
    if st.code.len() > 0 {
        r1.push(
            SmartRec {
                content: st.code,
                chunk_type: MdChunkType::CodeBlock,
                header_context: st.ctx,
                index: st.idx,
            },
        )
    } else {
        r1
    }
}

proof fn lemma_smart_views_push(s: Seq<MarkdownChunk>, c: MarkdownChunk)
    ensures
        smart_views(s.push(c)) == smart_views(s).push(c@),
{
    assert(smart_views(s.push(c)) =~= smart_views(s).push(c@));
}

proof fn lemma_smart_scan_idx(lines: Seq<Seq<char>>, max_size: int, n: int)
    requires
        0 <= n,
    ensures
        0 <= smart_scan(lines, max_size, n).idx <= n,
    decreases n,
{
    if n > 0 {
        lemma_smart_scan_idx(lines, max_size, n - 1);
    }
}

/// Smart segmentation: headers start a fresh chunk, a fenced code block is
/// emitted whole as one chunk of its own, and prose breaks at a blank line
/// once it exceeds `max_chunk_size` bytes. Total over any input.
pub fn smart_chunk_markdown(content: &str, max_chunk_size: usize) -> (r: Vec<MarkdownChunk>)
    ensures
        smart_views(r@) == smart_result(line_split(content@), max_chunk_size as int),
{
    let lines = crate::text::doc_lines(content);
    let ghost ld = lines.deep_view();
    let mut out: Vec<MarkdownChunk> = Vec::new();
    let mut cur: Vec<char> = Vec::new();
    let mut csize: u128 = 0;
    let mut code: Vec<char> = Vec::new();
    let mut ctx: Vec<char> = Vec::new();
    let mut in_code = false;
    let mut idx: usize = 0;
    let mut i: usize = 0;
    proof {
        assert(text_size(cur@) == 0);
        assert(smart_views(out@) =~= smart_init().chunks);
        assert(cur@ =~= smart_init().cur);
        assert(code@ =~= smart_init().code);
        assert(ctx@ =~= smart_init().ctx);
    }
    while i < lines.len()
        invariant
            i <= lines@.len(),
            ld == lines.deep_view(),
            ld.len() == lines@.len(),
            csize as int == sat128(text_size(cur@)),
            idx <= i,
            ({
                let st = smart_scan(ld, max_chunk_size as int, i as int);
                &&& st.cur == cur@
                &&& st.code == code@
                &&& st.ctx == ctx@
                &&& st.in_code == in_code
                &&& st.idx == idx as int
                &&& smart_views(out@) == st.chunks
            }),
        decreases lines@.len() - i,
    {
        let ghost st = smart_scan(ld, max_chunk_size as int, i as int);
        let ghost stn = smart_step(ld, max_chunk_size as int, st, i as int);
        proof {
            assert(ld[i as int] =~= lines@[i as int]@);
        }
        let line = &lines[i];
        let lead = lead_hashes_x(line);
        if lead >= 1 && !in_code {
            if cur.len() > 0 {
                let content_s = crate::text::chars_to_string(&cur);
                let ctx_s = crate::text::chars_to_string(&ctx);
                let ghost out0 = out@;
                out.push(
                    MarkdownChunk {
                        content: content_s,
                        chunk_type: MdChunkType::Text,
                        header_context: ctx_s,
                        index: idx,
                    },
                );
                proof {
                    lemma_smart_views_push(out0, out@[out@.len() - 1]);
                    assert(out@ =~= out0.push(out@[out@.len() - 1]));
                }
                cur = Vec::new();
                csize = 0;
                idx = idx + 1;
            }
            if lead <= 2 {
                ctx = crate::text::clone_chars(line);
            }
            let ghost cur0 = cur@;
            extend_chars(&mut cur, line);
            cur.push('\n');
            let lsz = crate::text::text_size_x(line);
            proof {
                assert(cur@ =~= cur0 + ld[i as int] + seq!['\n']);
                lemma_append_size(cur0, ld[i as int]);
            }
            csize = crate::text::sat_add(csize, crate::text::sat_add(lsz, 1));
        } else if is_fence_x(line) {
            if in_code {
                extend_chars(&mut code, line);
                code.push('\n');
                proof {
                    assert(code@ =~= st.code + ld[i as int] + seq!['\n']);
                }
                let content_s = crate::text::chars_to_string(&code);
                let ctx_s = crate::text::chars_to_string(&ctx);
                let ghost out0 = out@;
                out.push(
                    MarkdownChunk {
                        content: content_s,
                        chunk_type: MdChunkType::CodeBlock,
                        header_context: ctx_s,
                        index: idx,
                    },
                );
                proof {
                    lemma_smart_views_push(out0, out@[out@.len() - 1]);
                    assert(out@ =~= out0.push(out@[out@.len() - 1]));
                }
                code = Vec::new();
                in_code = false;
                idx = idx + 1;
            } else {
                if cur.len() > 0 {
                    let content_s = crate::text::chars_to_string(&cur);
                    let ctx_s = crate::text::chars_to_string(&ctx);
                    let ghost out0 = out@;
                    out.push(
                        MarkdownChunk {
                            content: content_s,
                            chunk_type: MdChunkType::Text,
                            header_context: ctx_s,
                            index: idx,
                        },
                    );
                    proof {
                        lemma_smart_views_push(out0, out@[out@.len() - 1]);
                        assert(out@ =~= out0.push(out@[out@.len() - 1]));
                    }
                    cur = Vec::new();
                    csize = 0;
                    idx = idx + 1;
                }
                in_code = true;
                let ghost code0 = code@;
                extend_chars(&mut code, line);
                code.push('\n');
                proof {
                    assert(code@ =~= code0 + ld[i as int] + seq!['\n']);
                }
            }
        } else if in_code {
            extend_chars(&mut code, line);
            code.push('\n');
            proof {
                assert(code@ =~= st.code + ld[i as int] + seq!['\n']);
            }
        } else {
            let ghost cur0 = cur@;
            extend_chars(&mut cur, line);
            cur.push('\n');
            let lsz = crate::text::text_size_x(line);
            proof {
                assert(cur@ =~= cur0 + ld[i as int] + seq!['\n']);
                lemma_append_size(cur0, ld[i as int]);
            }
            csize = crate::text::sat_add(csize, crate::text::sat_add(lsz, 1));
            proof {
                crate::text::lemma_sat_cmp(text_size(cur@), max_chunk_size as int);
            }
            if csize > max_chunk_size as u128 && is_blank_x(line) {
                let content_s = crate::text::chars_to_string(&cur);
                let ctx_s = crate::text::chars_to_string(&ctx);
                let ghost out0 = out@;
                out.push(
                    MarkdownChunk {
                        content: content_s,
                        chunk_type: MdChunkType::Text,
                        header_context: ctx_s,
                        index: idx,
                    },
                );
                proof {
                    lemma_smart_views_push(out0, out@[out@.len() - 1]);
                    assert(out@ =~= out0.push(out@[out@.len() - 1]));
                }
                cur = Vec::new();
                csize = 0;
                idx = idx + 1;
            }
        }
        proof {
            assert(cur@ =~= stn.cur);
            assert(code@ =~= stn.code);
            assert(ctx@ =~= stn.ctx);
            assert(smart_views(out@) =~= stn.chunks);
            assert(smart_scan(ld, max_chunk_size as int, i + 1 as int) == stn);
        }
        i = i + 1;
    }
    if cur.len() > 0 {
        let content_s = crate::text::chars_to_string(&cur);
        let ctx_s = crate::text::chars_to_string(&ctx);
        let ghost out0 = out@;
        out.push(
            MarkdownChunk {
                content: content_s,
                chunk_type: MdChunkType::Text,
                header_context: ctx_s,
                index: idx,
            },
        );
        proof {
            lemma_smart_views_push(out0, out@[out@.len() - 1]);
            assert(out@ =~= out0.push(out@[out@.len() - 1]));
        }
    }
    if code.len() > 0 {
        let content_s = crate::text::chars_to_string(&code);
        let ctx_s = crate::text::chars_to_string(&ctx);
        let ghost out0 = out@;
        out.push(
            MarkdownChunk {
                content: content_s,
                chunk_type: MdChunkType::CodeBlock,
                header_context: ctx_s,
                index: idx,
            },
        );
        proof {
            lemma_smart_views_push(out0, out@[out@.len() - 1]);
            assert(out@ =~= out0.push(out@[out@.len() - 1]));
        }
    }
    proof {
        assert(smart_views(out@) =~= smart_result(line_split(content@), max_chunk_size as int));
    }
    out
}

proof fn lemma_append_size(buf: Seq<char>, line: Seq<char>)
    ensures
        text_size(buf + line + seq!['\n']) == text_size(buf) + text_size(line) + 1,
{
    crate::text::lemma_text_size_add(buf + line, seq!['\n']);
    crate::text::lemma_text_size_add(buf, line);
    assert(seq!['\n'].drop_first() =~= Seq::<char>::empty());
    assert(text_size(Seq::<char>::empty()) == 0);
    assert(text_size(seq!['\n']) == 1);
    assert(buf + line + seq!['\n'] =~= (buf + line) + seq!['\n']);
}

} // verus!
