use lalr1::literal_matcher::LiteralMatcher;

#[test]
fn matcher_literal_matcher() {
    let lm = LiteralMatcher::new(&[
        (0, "test"),
        (1, "whatever"),
        (2, "anything"),
        (3, "anything at all"),
    ])
    .unwrap();
    assert!(lm.longest_match("something").is_none());
    assert_eq!(lm.longest_match("anything at all something"), Some((3, 15)));
    assert_eq!(
        lm.longest_match(&"anything at all whatever something"[16..]),
        Some((1, 8))
    );
}

#[test]
fn literal_matcher() {
    let lm = LiteralMatcher::new(&[
        (0, "test"),
        (1, "whatever"),
        (2, "anything"),
        (3, "anything at all"),
    ])
    .unwrap();
    assert!(lm.longest_match("something").is_none());
    assert_eq!(lm.longest_match("anything at all something"), Some((3, 15)));
    assert_eq!(
        lm.longest_match(&"anything at all whatever something"[16..]),
        Some((1, 8))
    );
}

#[test]
fn literal_matcher_matches_at_start_only() {
    let lm = LiteralMatcher::new(&[(0, "if"), (1, "iffy")]).unwrap();
    assert!(lm.matches("if"));
    assert!(lm.matches("iffy"));
    assert!(lm.matches("iff"));
    assert!(!lm.matches("xif"));
    assert!(!lm.matches(""));
    assert_eq!(lm.longest_match("iff"), Some((0, 2)));
}
