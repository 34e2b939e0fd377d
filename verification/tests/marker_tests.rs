use test_utils::add_cursor;
use test_utils::extract_offset;
use test_utils::extract_range;
use test_utils::try_extract_offset;
use test_utils::try_extract_range;

#[test]
fn offset_extraction_finds_first_marker() {
    let (offset, cleaned) = try_extract_offset("ab<|>cd").unwrap();
    assert_eq!(offset, 2);
    assert_eq!(cleaned, "abcd");
}

#[test]
fn offset_extraction_none_iff_marker_absent() {
    assert!(try_extract_offset("no marker here").is_none());
    assert!(try_extract_offset("").is_none());
    assert!(try_extract_offset("<|>").is_some());
    assert!(try_extract_offset("x<|x<|>").is_some());
}

#[test]
fn extract_offset_matches_try_variant() {
    let (offset, cleaned) = extract_offset("<|>abc");
    assert_eq!(offset, 0);
    assert_eq!(cleaned, "abc");
}

#[test]
fn range_extraction_takes_two_markers_in_order() {
    let (range, cleaned) = try_extract_range("a<|>b<|>c").unwrap();
    assert_eq!(range.start, 1);
    assert_eq!(range.end, 2);
    assert_eq!(cleaned, "abc");

    let (range, cleaned) = extract_range("<|>ab<|>");
    assert_eq!(range.start, 0);
    assert_eq!(range.end, 2);
    assert_eq!(cleaned, "ab");
}

#[test]
fn range_extraction_needs_both_markers() {
    assert!(try_extract_range("only one <|>").is_none());
    assert!(try_extract_range("none").is_none());
}

#[test]
fn range_extraction_does_not_reorder_offsets() {
    // Removing the first marker fuses the surrounding characters into a
    // new marker that lies before it: the caller gets start > end and has
    // to treat that as its own error; the offsets are not swapped.
    let (range, cleaned) = try_extract_range("<<|>|>").unwrap();
    assert_eq!(range.start, 1);
    assert_eq!(range.end, 0);
    assert_eq!(cleaned, "");
}

#[test]
fn add_cursor_inserts_marker() {
    assert_eq!(add_cursor("abcd", 2), "ab<|>cd");
    assert_eq!(add_cursor("abcd", 0), "<|>abcd");
    assert_eq!(add_cursor("abcd", 4), "abcd<|>");
}

#[test]
fn add_cursor_round_trips_through_extraction() {
    let text = "fn frobnicate() {}";
    for offset in 0..=text.len() {
        let with_marker = add_cursor(text, offset);
        let (found, cleaned) = try_extract_offset(&with_marker).unwrap();
        assert_eq!(found, offset);
        assert_eq!(cleaned, text);
    }
}

#[test]
fn marker_rerun_gives_identical_result() {
    assert_eq!(try_extract_offset("a<|>b"), try_extract_offset("a<|>b"));
}

#[test]
fn cursor_marker_is_the_token_extraction_strips() {
    let with_marker = format!("ab{}cd", test_utils::CURSOR_MARKER);
    let (offset, cleaned) = try_extract_offset(&with_marker).unwrap();
    assert_eq!(offset, 2);
    assert_eq!(cleaned, "abcd");
}
