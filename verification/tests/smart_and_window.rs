use mdchunk::smart::{smart_chunk_markdown, MdChunkType};
use mdchunk::window::chunk_text;

#[test]
fn smart_splits_at_headers() {
    let doc = "intro text\n# One\nbody one\n## Two\nbody two\n";
    let chunks = smart_chunk_markdown(doc, 1500);
    assert_eq!(chunks.len(), 3);
    assert_eq!(chunks[0].content, "intro text\n");
    assert_eq!(chunks[1].content, "# One\nbody one\n");
    assert_eq!(chunks[2].content, "## Two\nbody two\n");
    assert_eq!(chunks[0].header_context, "");
    assert_eq!(chunks[1].header_context, "# One");
    assert_eq!(chunks[2].header_context, "## Two");
    for (j, c) in chunks.iter().enumerate() {
        assert_eq!(c.index, j);
    }
}

#[test]
fn smart_emits_code_block_whole() {
    let doc = "# H\nsome text\n```\nfn f() {}\n```\ntail\n";
    let chunks = smart_chunk_markdown(doc, 1500);
    let code: Vec<_> =
        chunks.iter().filter(|c| matches!(c.chunk_type, MdChunkType::CodeBlock)).collect();
    assert_eq!(code.len(), 1);
    assert_eq!(code[0].content, "```\nfn f() {}\n```\n");
    assert_eq!(code[0].header_context, "# H");
    assert!(chunks.iter().any(|c| c.content.contains("tail")));
}

#[test]
fn smart_breaks_large_text_at_blank_line() {
    let mut doc = String::new();
    for _ in 0..10 {
        doc.push_str("0123456789\n");
    }
    doc.push('\n');
    doc.push_str("after the break\n");
    let chunks = smart_chunk_markdown(&doc, 50);
    assert!(chunks.len() >= 2, "expected a split, got {} chunk(s)", chunks.len());
    assert!(chunks.iter().all(|c| matches!(c.chunk_type, MdChunkType::Text)));
}

#[test]
fn smart_unterminated_fence_is_final_chunk() {
    let doc = "text\n```\nopen forever\n";
    let chunks = smart_chunk_markdown(doc, 1500);
    let last = chunks.last().unwrap();
    assert!(matches!(last.chunk_type, MdChunkType::CodeBlock));
    assert!(last.content.contains("open forever"));
}

#[test]
fn window_basic() {
    let r = chunk_text("abcdefghij", 4, 1);
    assert_eq!(r, vec!["abcd", "defg", "ghij"]);
}

#[test]
fn window_short_input_is_one_chunk() {
    assert_eq!(chunk_text("abc", 10, 2), vec!["abc"]);
}

#[test]
fn window_empty_input() {
    let r = chunk_text("", 4, 1);
    assert!(r.is_empty());
}

#[test]
fn window_counts_characters_not_bytes() {
    let r = chunk_text("\u{e9}\u{e9}\u{e9}\u{e9}\u{e9}", 3, 1);
    assert_eq!(r, vec!["\u{e9}\u{e9}\u{e9}", "\u{e9}\u{e9}\u{e9}"]);
}

#[test]
fn window_exact_multiple() {
    let r = chunk_text("abcdef", 3, 0);
    assert_eq!(r, vec!["abc", "def"]);
}
