use mdchunk::summary::create_summary;

#[test]
fn summary_headers_only() {
    let headers = vec!["# Top".to_string(), "## Sub".to_string()];
    let s = create_summary("short\n\n# another header\n", &headers);
    assert_eq!(s, "# Top > ## Sub");
}

#[test]
fn summary_empty() {
    let headers: Vec<String> = vec![];
    assert_eq!(create_summary("", &headers), "");
    assert_eq!(create_summary("tiny\n", &headers), "");
}

#[test]
fn summary_with_excerpt() {
    let headers = vec!["## Section".to_string()];
    let long_line = "This line is certainly longer than fifty characters in total, yes.";
    let content = format!("# Head\n\n{}\nmore\n", long_line);
    let s = create_summary(&content, &headers);
    assert_eq!(s, format!("## Section | {}", long_line));
}

#[test]
fn summary_excerpt_truncated_with_ellipsis() {
    let headers = vec!["# H".to_string()];
    let long_line = "x".repeat(250);
    let content = format!("{}\n", long_line);
    let s = create_summary(&content, &headers);
    assert_eq!(s, format!("# H | {}...", "x".repeat(200)));
}

#[test]
fn summary_skips_headers_and_blank_lines() {
    let headers: Vec<String> = vec![];
    let header_line = format!("# {}", "h".repeat(80));
    let blankish = " ".repeat(60);
    let qual = "q".repeat(60);
    let content = format!("{}\n{}\n{}\n", header_line, blankish, qual);
    let s = create_summary(&content, &headers);
    assert_eq!(s, format!(" | {}", qual));
}

#[test]
fn summary_counts_characters_not_bytes() {
    // 60 two-byte characters: longer than 50 characters, so it qualifies
    let headers: Vec<String> = vec![];
    let line = "\u{e9}".repeat(60);
    let s = create_summary(&format!("{}\n", line), &headers);
    assert_eq!(s, format!(" | {}", line));
}
