use mdchunk::multiscale::{create_multi_scale_chunks, semantic_chunk_markdown, ChunkSize};

fn padded_doc() -> String {
    let pad = "some sentence with enough characters to matter for sizing. ";
    let mut doc = String::new();
    doc.push_str("# Main\n\n");
    for s in 1..=6 {
        doc.push_str(&format!("## Part {}\n", s));
        for _ in 0..20 {
            doc.push_str(pad);
            doc.push('\n');
        }
        doc.push('\n');
    }
    doc
}

/// The trailing slice of `s` that fits in `cap` bytes, cut at a character
/// boundary: the overlap the segmenter retains.
fn tail_bytes(s: &str, cap: usize) -> &str {
    let mut idx = 0;
    while s.len() - idx > cap {
        idx += 1;
        while !s.is_char_boundary(idx) {
            idx += 1;
        }
    }
    &s[idx..]
}

#[test]
fn multi_scale_produces_three_tiers() {
    let doc = padded_doc();
    let chunks = create_multi_scale_chunks(&doc);
    let small = chunks.iter().filter(|c| matches!(c.chunk_size, ChunkSize::Small)).count();
    let medium = chunks.iter().filter(|c| matches!(c.chunk_size, ChunkSize::Medium)).count();
    let large = chunks.iter().filter(|c| matches!(c.chunk_size, ChunkSize::Large)).count();
    assert!(small >= 2, "small tier too coarse: {}", small);
    assert!(medium >= 1);
    assert!(large >= 1);
    assert_eq!(small + medium + large, chunks.len());
    for c in &chunks {
        assert!(!c.content.is_empty());
        assert!(c.end_line >= c.start_line || c.start_line == 0);
    }
}

#[test]
fn small_tier_adjacent_chunks_share_overlap() {
    let doc = padded_doc();
    let chunks = create_multi_scale_chunks(&doc);
    let small: Vec<_> =
        chunks.iter().filter(|c| matches!(c.chunk_size, ChunkSize::Small)).collect();
    assert!(small.len() >= 2);
    for w in small.windows(2) {
        let tail = tail_bytes(&w[0].content, 200);
        assert!(
            w[1].content.starts_with(tail),
            "overlap not carried: {:?} vs {:?}",
            tail,
            &w[1].content[..tail.len().min(w[1].content.len())]
        );
    }
}

#[test]
fn multi_scale_headers_follow_sections() {
    let doc = padded_doc();
    let chunks = create_multi_scale_chunks(&doc);
    for c in &chunks {
        assert!(!c.headers.is_empty(), "chunk without header context");
        assert!(c.headers[0].starts_with('#'));
    }
}

#[test]
fn multi_scale_marks_code() {
    let mut doc = String::new();
    for _ in 0..30 {
        doc.push_str("prose line with a good number of characters in it, truly. \n");
    }
    doc.push_str("```\ncode\n```\n\n");
    let chunks = create_multi_scale_chunks(&doc);
    assert!(chunks.iter().any(|c| c.has_code));
}

#[test]
fn semantic_closes_sections() {
    let pad = "sentence used for padding the section body with characters. ";
    let mut doc = String::new();
    for s in 1..=3 {
        doc.push_str(&format!("## Sec {}\n", s));
        for _ in 0..15 {
            doc.push_str(pad);
            doc.push('\n');
        }
    }
    let chunks = semantic_chunk_markdown(&doc, 3000);
    assert!(chunks.len() >= 3, "expected a chunk per section, got {}", chunks.len());
    for c in &chunks {
        assert!(matches!(c.chunk_size, ChunkSize::Medium));
    }
}

#[test]
fn semantic_keeps_fence_whole() {
    let pad = "prose line that pushes the pending buffer over the flush floor. ";
    let mut doc = String::new();
    for _ in 0..10 {
        doc.push_str(pad);
        doc.push('\n');
    }
    doc.push_str("```\nlet a = 1;\nlet b = 2;\n```\nafter code\n");
    let chunks = semantic_chunk_markdown(&doc, 3000);
    let with_code: Vec<_> = chunks.iter().filter(|c| c.has_code).collect();
    assert_eq!(with_code.len(), 1);
    assert_eq!(with_code[0].content.matches("```").count(), 2);
}

#[test]
fn semantic_empty_input() {
    let chunks = semantic_chunk_markdown("", 3000);
    assert!(chunks.is_empty());
}

#[test]
fn semantic_unterminated_fence_flushes_at_end() {
    let doc = "start\n```\nabandoned code\n";
    let chunks = semantic_chunk_markdown(doc, 3000);
    assert_eq!(chunks.len(), 1);
    assert!(chunks[0].content.contains("abandoned code"));
    assert!(chunks[0].has_code);
}
