use test_utils::lines_match;

#[test]
fn lines_match_works() {
    assert!(lines_match("a b", "a b"));
    assert!(lines_match("a[..]b", "a b"));
    assert!(lines_match("a[..]", "a b"));
    assert!(lines_match("[..]", "a b"));
    assert!(lines_match("[..]b", "a b"));

    assert!(!lines_match("[..]b", "c"));
    assert!(!lines_match("b", "c"));
    assert!(!lines_match("b", "cb"));
}

#[test]
fn wildcard_spans_arbitrary_runs() {
    assert!(lines_match("a[..]b", "aXXXb"));
    assert!(lines_match("a[..]b", "ab"));
    assert!(lines_match("[..]", "anything"));
}

#[test]
fn leading_literal_must_match_at_start() {
    assert!(!lines_match("a[..]", "xa"));
}

#[test]
fn trailing_content_needs_trailing_wildcard() {
    assert!(!lines_match("a", "ab"));
    assert!(lines_match("a[..]", "ab"));
}

#[test]
fn backslashes_normalize_to_slashes() {
    assert!(lines_match("a\\b", "a/b"));
    assert!(lines_match("a\\\\b", "a/b"));
    assert!(lines_match("a/b", "a\\b"));
    assert!(!lines_match("a\\\\b", "a//b"));
}

#[test]
fn matching_is_greedy_leftmost() {
    // The first occurrence of each part is taken: after "a" the leftmost
    // "b" is consumed, so the trailing "cb" remains and the match fails.
    assert!(!lines_match("a[..]b", "abcb"));
}

#[test]
fn rerun_gives_identical_result() {
    assert_eq!(lines_match("a[..]b", "aXXXb"), lines_match("a[..]b", "aXXXb"));
    assert_eq!(lines_match("b", "cb"), lines_match("b", "cb"));
}
