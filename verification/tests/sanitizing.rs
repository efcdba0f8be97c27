use mdchunk::sanitize::sanitize_for_embedding;

#[test]
fn sanitize_box_drawing() {
    assert_eq!(sanitize_for_embedding("\u{250c}\u{2500}\u{2510}"), "+-+");
    assert_eq!(sanitize_for_embedding("\u{2502}x\u{2502}"), "|x|");
    assert_eq!(sanitize_for_embedding("\u{2554}\u{2550}\u{2557}"), "+-+");
}

#[test]
fn sanitize_blocks_and_arrows() {
    assert_eq!(sanitize_for_embedding("\u{2588}\u{2593}"), "**");
    assert_eq!(sanitize_for_embedding("a \u{2192} b \u{2190} c"), "a > b < c");
    assert_eq!(sanitize_for_embedding("\u{2191}\u{2193}"), "^v");
}

#[test]
fn sanitize_checks_and_bullets() {
    assert_eq!(sanitize_for_embedding("\u{2713} ok \u{2717} bad"), "Y ok X bad");
    assert_eq!(sanitize_for_embedding("\u{2022} item"), "- item");
    assert_eq!(sanitize_for_embedding("\u{2605}\u{2606}"), "**");
}

#[test]
fn sanitize_quotes_dashes_ellipsis() {
    assert_eq!(sanitize_for_embedding("\u{2018}a\u{2019} \u{201c}b\u{201d}"), "'a' \"b\"");
    assert_eq!(sanitize_for_embedding("x \u{2013} y \u{2014} z"), "x - y - z");
    assert_eq!(sanitize_for_embedding("wait\u{2026}"), "wait.");
}

#[test]
fn sanitize_status_glyphs_keep_word_boundaries() {
    // a glyph becomes a space, and the resulting run collapses to one space
    assert_eq!(sanitize_for_embedding("done\u{2705}next"), "done next");
    assert_eq!(sanitize_for_embedding("done \u{2705} next"), "done next");
    assert_eq!(sanitize_for_embedding("\u{1f4c4}\u{1f4e6}"), " ");
}

#[test]
fn sanitize_passthrough() {
    assert_eq!(sanitize_for_embedding("plain ascii text 123"), "plain ascii text 123");
    assert_eq!(sanitize_for_embedding(""), "");
    assert_eq!(sanitize_for_embedding("caf\u{e9}"), "caf\u{e9}");
}

#[test]
fn sanitize_idempotent() {
    let inputs = [
        "\u{250c}\u{2500}\u{2510} \u{2192} done\u{2705}next \u{2026}",
        "a  b   c",
        "\u{2705} \u{2705} \u{2705}",
        "code \u{2018}x\u{2019} \u{2014} y",
    ];
    for s in inputs {
        let once = sanitize_for_embedding(s);
        let twice = sanitize_for_embedding(&once);
        assert_eq!(once, twice);
        assert!(!once.contains("  "), "double space in {:?}", once);
    }
}
