use test_utils::TextRange;
use test_utils::extract_ranges;
use test_utils::try_extract_ranges;

#[test]
fn nested_tags_sorted_and_cleaned() {
    let (ranges, cleaned) = extract_ranges("<t>hello</t> <t>wo<t>r</t>ld</t>", "t");
    assert_eq!(cleaned, "hello world");
    assert_eq!(
        ranges,
        vec![
            TextRange { start: 0, end: 5 },
            TextRange { start: 6, end: 11 },
            TextRange { start: 8, end: 9 },
        ]
    );
}

#[test]
fn cleaned_text_is_input_without_tags() {
    let (ranges, cleaned) = extract_ranges("a<tag>b</tag>c", "tag");
    assert_eq!(cleaned, "abc");
    assert_eq!(ranges, vec![TextRange { start: 1, end: 2 }]);

    let (ranges, cleaned) = extract_ranges("no tags at all", "tag");
    assert_eq!(cleaned, "no tags at all");
    assert!(ranges.is_empty());
}

#[test]
fn empty_region_and_adjacent_tags() {
    let (ranges, cleaned) = extract_ranges("<t></t><t>x</t>", "t");
    assert_eq!(cleaned, "x");
    assert_eq!(
        ranges,
        vec![TextRange { start: 0, end: 0 }, TextRange { start: 0, end: 1 }]
    );
}

#[test]
fn unmatched_open_fails() {
    assert!(try_extract_ranges("<t>never closed", "t").is_none());
    assert!(try_extract_ranges("<t>a<t>b</t>", "t").is_none());
}

#[test]
fn unmatched_close_fails() {
    assert!(try_extract_ranges("closed too much</t>", "t").is_none());
    assert!(try_extract_ranges("<t>a</t></t>", "t").is_none());
}

#[test]
fn stray_angle_brackets_are_kept() {
    let (ranges, cleaned) = extract_ranges("a < b <t>c</t>", "t");
    assert_eq!(cleaned, "a < b c");
    assert_eq!(ranges, vec![TextRange { start: 6, end: 7 }]);
}

#[test]
fn tag_rerun_gives_identical_result() {
    let first = extract_ranges("<t>a</t>", "t");
    let second = extract_ranges("<t>a</t>", "t");
    assert_eq!(first.0, second.0);
    assert_eq!(first.1, second.1);
}
