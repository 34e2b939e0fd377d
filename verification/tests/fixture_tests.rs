use test_utils::MalformedFixture;
use test_utils::parse_fixture;
use test_utils::trim_join_lines;
use test_utils::try_parse_fixture;

#[test]
fn two_blocks_parse_to_two_entries() {
    let entries = parse_fixture("//- /foo.rs\nfn f() {}\n//- /bar.rs\nfn g() {}\n");
    assert_eq!(entries.len(), 2);
    assert_eq!(entries[0].meta, "/foo.rs");
    assert_eq!(entries[0].text, "fn f() {}\n");
    assert_eq!(entries[1].meta, "/bar.rs");
    assert_eq!(entries[1].text, "fn g() {}\n");
}

#[test]
fn margin_is_stripped_from_every_line() {
    let entries = parse_fixture("    //- /m.rs\n    fn m() {}\n");
    assert_eq!(entries.len(), 1);
    assert_eq!(entries[0].meta, "/m.rs");
    assert_eq!(entries[0].text, "fn m() {}\n");
}

#[test]
fn blank_lines_shorter_than_margin_are_skipped() {
    let entries = parse_fixture("    //- /m.rs\n\n  \n    body\n");
    assert_eq!(entries.len(), 1);
    assert_eq!(entries[0].text, "body\n");
}

#[test]
fn no_meta_line_is_an_empty_fixture() {
    assert_eq!(
        try_parse_fixture("just some text\n").unwrap_err(),
        MalformedFixture::EmptyFixture
    );
    assert_eq!(try_parse_fixture("").unwrap_err(), MalformedFixture::EmptyFixture);
}

#[test]
fn non_blank_margin_prefix_is_rejected() {
    assert_eq!(
        try_parse_fixture("    //- /m.rs\nxxxxxx\n").unwrap_err(),
        MalformedFixture::NonBlankMargin
    );
}

#[test]
fn non_blank_short_line_is_rejected() {
    assert_eq!(
        try_parse_fixture("    //- /m.rs\nxx\n").unwrap_err(),
        MalformedFixture::NonBlankShortLine
    );
}

#[test]
fn meta_text_is_trimmed() {
    let entries = parse_fixture("//-   spaced meta  \nbody\n");
    assert_eq!(entries[0].meta, "spaced meta");
}

#[test]
fn lines_before_first_meta_are_dropped() {
    let entries = try_parse_fixture("\n//- /a.rs\nx\n").unwrap();
    assert_eq!(entries.len(), 1);
    assert_eq!(entries[0].meta, "/a.rs");
    assert_eq!(entries[0].text, "x\n");
}

#[test]
fn fixture_rerun_gives_identical_result() {
    let input = "//- /foo.rs\nfn f() {}\n";
    let first = parse_fixture(input);
    let second = parse_fixture(input);
    assert_eq!(first.len(), second.len());
    assert_eq!(first[0].meta, second[0].meta);
    assert_eq!(first[0].text, second[0].text);
}

#[test]
fn trim_join_flattens_indented_lines() {
    assert_eq!(trim_join_lines("  foo \n   bar"), "foo bar");
    assert_eq!(trim_join_lines("single"), "single");
    assert_eq!(trim_join_lines(""), "");
}

#[test]
fn unicode_whitespace_counts_as_blank() {
    let entries = parse_fixture("\u{a0}//- /m.rs\u{a0}\n\u{a0}x\n");
    assert_eq!(entries.len(), 1);
    assert_eq!(entries[0].meta, "/m.rs");
    assert_eq!(entries[0].text, "x\n");
}
