use mdchunk::hierarchy::{
    create_child_chunks, create_hierarchical_chunks, parent_index, ChunkConfig, ChunkType,
};
use std::collections::HashSet;

fn default_config() -> ChunkConfig {
    ChunkConfig::default()
}

#[test]
fn small_document_one_parent_one_child() {
    let cfg = default_config();
    let (parents, children) = create_hierarchical_chunks("# Title\n\nShort content.\n", &cfg);
    assert_eq!(parents.len(), 1);
    assert_eq!(children.len(), 1);
    let p = &parents[0];
    let c = &children[0];
    assert_eq!(c.index_in_parent, 0);
    assert_eq!(c.parent_id, p.id);
    assert_eq!(p.child_ids, vec![c.id]);
    assert_eq!(p.content, "# Title\n\nShort content.\n");
    assert_eq!(c.content, "# Title\n\nShort content.\n");
    assert_eq!(p.start_line, 0);
    assert_eq!(p.end_line, 2);
    assert_eq!(p.headers, vec!["# Title".to_string()]);
}

#[test]
fn empty_document_yields_nothing() {
    let cfg = default_config();
    let (parents, children) = create_hierarchical_chunks("", &cfg);
    assert_eq!(parents.len(), 0);
    assert_eq!(children.len(), 0);
}

#[test]
fn fenced_block_stays_in_one_child() {
    let cfg = default_config();
    let content = "Intro prose.\n```\nlet x = 1;\nlet y = 2;\n```\nOutro prose.\n";
    let children = create_child_chunks(content, 7, 0, 8, &cfg);
    assert_eq!(children.len(), 1);
    let c = &children[0];
    assert!(matches!(c.chunk_type, ChunkType::Mixed));
    assert_eq!(c.content.matches("```").count(), 2);
    assert_eq!(c.id, 8);
    assert_eq!(c.parent_id, 7);
    assert_eq!(c.start_line, 0);
    assert_eq!(c.end_line, 5);
}

#[test]
fn child_line_numbers_offset_by_parent_start() {
    let cfg = default_config();
    let children = create_child_chunks("one\ntwo\n", 1, 40, 2, &cfg);
    assert_eq!(children.len(), 1);
    assert_eq!(children[0].start_line, 40);
    assert_eq!(children[0].end_line, 41);
}

#[test]
fn three_padded_sections_make_three_parents() {
    let cfg = default_config();
    let pad_line = "lorem ipsum dolor sit amet consectetur adipiscing elit sed do.";
    let mut doc = String::new();
    for s in 1..=3 {
        doc.push_str(&format!("## Section {}\n", s));
        for _ in 0..40 {
            doc.push_str(pad_line);
            doc.push('\n');
        }
        doc.push('\n');
    }
    let (parents, children) = create_hierarchical_chunks(&doc, &cfg);
    assert!(parents.len() >= 3, "got {} parents", parents.len());
    for p in &parents {
        assert!(!p.headers.is_empty(), "parent without headers");
    }
    assert!(!children.is_empty());
}

#[test]
fn linkage_has_no_orphans_and_no_duplicates() {
    let cfg = default_config();
    let pad = "words and more words to fill the buffer up with text. ".repeat(4);
    let mut doc = String::new();
    doc.push_str("# Top\n\n");
    for s in 1..=4 {
        doc.push_str(&format!("## Part {}\n", s));
        for _ in 0..30 {
            doc.push_str(&pad);
            doc.push('\n');
        }
        doc.push_str("\n```\ncode line one\ncode line two\n```\n\n");
    }
    let (parents, children) = create_hierarchical_chunks(&doc, &cfg);
    let parent_ids: HashSet<u128> = parents.iter().map(|p| p.id).collect();
    assert_eq!(parent_ids.len(), parents.len(), "duplicate parent id");
    let child_ids: HashSet<u128> = children.iter().map(|c| c.id).collect();
    assert_eq!(child_ids.len(), children.len(), "duplicate child id");
    // union of child_ids over parents == the children's ids, in order
    let flat: Vec<u128> = parents.iter().flat_map(|p| p.child_ids.iter().copied()).collect();
    let emitted: Vec<u128> = children.iter().map(|c| c.id).collect();
    assert_eq!(flat, emitted);
    for c in &children {
        assert!(parent_ids.contains(&c.parent_id), "orphan child {}", c.id);
    }
}

#[test]
fn sibling_indexes_are_contiguous() {
    let cfg = default_config();
    let pad = "a sentence that adds a handful of bytes to the running buffer. ";
    let mut doc = String::new();
    for s in 1..=3 {
        doc.push_str(&format!("## Block {}\n", s));
        for _ in 0..80 {
            doc.push_str(pad);
            doc.push('\n');
        }
        doc.push('\n');
    }
    let (parents, children) = create_hierarchical_chunks(&doc, &cfg);
    for p in &parents {
        let mine: Vec<_> = children.iter().filter(|c| c.parent_id == p.id).collect();
        for (j, c) in mine.iter().enumerate() {
            assert_eq!(c.index_in_parent, j, "index gap under parent {}", p.id);
        }
        let ids: Vec<u128> = mine.iter().map(|c| c.id).collect();
        assert_eq!(ids, p.child_ids);
    }
}

#[test]
fn fences_stay_paired_in_non_final_children() {
    let cfg = default_config();
    let pad = "filler text to grow each child toward its flush threshold now. ";
    let mut doc = String::new();
    for _ in 0..8 {
        for _ in 0..30 {
            doc.push_str(pad);
            doc.push('\n');
        }
        doc.push_str("\n```\nfn demo() {}\n```\n\n");
    }
    let (parents, children) = create_hierarchical_chunks(&doc, &cfg);
    for p in &parents {
        let mine: Vec<_> = children.iter().filter(|c| c.parent_id == p.id).collect();
        for (j, c) in mine.iter().enumerate() {
            if j + 1 < mine.len() {
                let fences = c
                    .content
                    .lines()
                    .filter(|l| l.trim_start().starts_with("```"))
                    .count();
                assert_eq!(fences % 2, 0, "unpaired fence in child {}", c.id);
            }
        }
    }
}

#[test]
fn unterminated_fence_folds_into_final_child() {
    let cfg = default_config();
    let content = "text before\n```\nnever closed\nstill code\n";
    let children = create_child_chunks(content, 0, 0, 1, &cfg);
    assert_eq!(children.len(), 1);
    assert!(children[0].content.contains("never closed"));
}

#[test]
fn default_config_values() {
    let cfg = ChunkConfig::default();
    assert_eq!(cfg.min_parent_size, 2000);
    assert_eq!(cfg.parent_target_size, 4000);
    assert_eq!(cfg.child_target_size, 1600);
    assert_eq!(cfg.child_min_size, 300);
}

#[test]
fn summary_carries_headers_and_excerpt() {
    let cfg = default_config();
    let long = "a descriptive opening paragraph that is comfortably longer than fifty characters";
    let doc = format!("# Guide\n\n{}\n", long);
    let (parents, _children) = create_hierarchical_chunks(&doc, &cfg);
    assert_eq!(parents.len(), 1);
    assert_eq!(parents[0].summary, format!("# Guide | {}", long));
}

#[test]
fn parent_index_finds_every_parent() {
    let cfg = default_config();
    let pad = "one more line of filler prose for the section body to grow. ";
    let mut doc = String::new();
    for s in 1..=3 {
        doc.push_str(&format!("## Chapter {}\n", s));
        for _ in 0..60 {
            doc.push_str(pad);
            doc.push('\n');
        }
        doc.push('\n');
    }
    let (parents, _children) = create_hierarchical_chunks(&doc, &cfg);
    assert!(parents.len() >= 2);
    let index = parent_index(&parents);
    for (k, p) in parents.iter().enumerate() {
        assert_eq!(index.get(&p.id), Some(&k));
    }
}
