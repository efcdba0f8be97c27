use mdchunk::truncate::truncate_chars;

#[test]
fn truncate_noop_when_short() {
    assert_eq!(truncate_chars("hello", 10), "hello");
    assert_eq!(truncate_chars("hello", 5), "hello");
    assert_eq!(truncate_chars("", 3), "");
}

#[test]
fn truncate_cuts_ascii() {
    assert_eq!(truncate_chars("hello world", 5), "hello");
    assert_eq!(truncate_chars("hello", 0), "");
}

#[test]
fn truncate_two_byte_chars() {
    let s = "caf\u{e9}\u{e9}\u{e9}";
    let t = truncate_chars(s, 4);
    assert_eq!(t, "caf\u{e9}");
    assert_eq!(t.chars().count(), 4);
}

#[test]
fn truncate_three_byte_chars() {
    let s = "\u{4e2d}\u{6587}\u{6587}\u{6587}";
    let t = truncate_chars(s, 2);
    assert_eq!(t, "\u{4e2d}\u{6587}");
    assert_eq!(t.chars().count(), 2);
}

#[test]
fn truncate_four_byte_chars() {
    let s = "a\u{1f600}b\u{1f601}c";
    let t = truncate_chars(s, 2);
    assert_eq!(t, "a\u{1f600}");
    assert_eq!(t.chars().count(), 2);
    let u = truncate_chars(s, 4);
    assert_eq!(u, "a\u{1f600}b\u{1f601}");
}

#[test]
fn truncate_is_prefix() {
    let s = "один два три";
    for k in 0..=s.chars().count() + 2 {
        let t = truncate_chars(s, k);
        assert!(t.chars().count() <= k);
        assert!(s.starts_with(&t));
    }
}
