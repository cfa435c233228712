use fixme_report::emphasis::EmphasisSpan;
use fixme_report::extractor::{
    annotate, annotate_with_links, reference_spans, references, split_window, ReferenceKind,
    ReferenceSpan, Segment, SegmentKind,
};

fn issue_numbers(text: &str) -> Vec<(usize, usize)> {
    references(text)
        .into_iter()
        .filter(|r| r.kind == ReferenceKind::IssueNumber)
        .map(|r| (r.start, r.end))
        .collect()
}

fn text(start: usize, end: usize, emphasis: Option<(usize, usize)>) -> Segment {
    Segment {
        start,
        end,
        kind: SegmentKind::Text {
            emphasis: emphasis.map(|(start, end)| EmphasisSpan { start, end }),
        },
    }
}

fn issue(start: usize, end: usize, number: Option<u64>) -> Segment {
    Segment { start, end, kind: SegmentKind::IssueNumber { number } }
}

fn link(start: usize, end: usize, display_start: usize) -> Segment {
    Segment { start, end, kind: SegmentKind::Hyperlink { display_start } }
}

#[test]
fn digits_followed_by_a_letter_are_no_reference() {
    let line = "FIXME implement 128bit atomics";
    assert_eq!(references(line), vec![]);
    assert_eq!(annotate(line), vec![text(0, 30, None)]);
}

#[test]
fn one_and_two_digit_numbers_are_no_reference() {
    assert_eq!(references("FIXME 12 and 7 of 99"), vec![]);
    assert_eq!(references("FIXME: see 42"), vec![]);
}

#[test]
fn number_after_hash_is_one_issue_span() {
    let line = "FIXME: #7698, false positive of the internal lints";
    assert_eq!(issue_numbers(line), vec![(8, 12)]);
    assert_eq!(&line[8..12], "7698");
    assert_eq!(
        annotate(line),
        vec![text(0, 8, None), issue(8, 12, Some(7698)), text(12, line.len(), None)]
    );
}

#[test]
fn name_in_brackets_is_emphasis_and_no_issue() {
    let line = "FIXME(jackh726): This is a hack. It's somewhat like";
    assert_eq!(issue_numbers(line), vec![]);
    assert_eq!(annotate(line), vec![text(0, line.len(), Some((6, 14)))]);
    assert_eq!(&line[6..14], "jackh726");
}

#[test]
fn two_issue_numbers_in_one_line() {
    let line =
        "#[allow(dead_code)] // FIXME(81658): should be used + lint reinstated after #83171 relands";
    assert_eq!(issue_numbers(line), vec![(29, 34), (77, 82)]);
    assert_eq!(&line[29..34], "81658");
    assert_eq!(&line[77..82], "83171");
    assert_eq!(
        annotate(line),
        vec![
            text(0, 29, None),
            issue(29, 34, Some(81658)),
            text(34, 77, None),
            issue(77, 82, Some(83171)),
            text(82, line.len(), None),
        ]
    );
}

#[test]
fn bare_number_needs_no_hash() {
    assert_eq!(issue_numbers("FIXME 1232"), vec![(6, 10)]);
}

#[test]
fn percent_after_the_digits_is_no_reference() {
    assert_eq!(issue_numbers("FIXME: not 100% sure"), vec![]);
    assert_eq!(issue_numbers("FIXME: not 1000% sure"), vec![]);
}

#[test]
fn word_bytes_around_the_digits_are_no_reference() {
    assert_eq!(issue_numbers("FIXME E0599"), vec![]);
    assert_eq!(issue_numbers("FIXME x1234"), vec![]);
    assert_eq!(issue_numbers("FIXME _1234"), vec![]);
    assert_eq!(issue_numbers("FIXME 1234_"), vec![]);
    assert_eq!(issue_numbers("FIXME 1234a"), vec![]);
}

#[test]
fn leading_zero_is_no_reference() {
    assert_eq!(issue_numbers("FIXME 0123"), vec![]);
    assert_eq!(issue_numbers("FIXME #001999"), vec![]);
}

#[test]
fn digits_of_a_url_are_not_read_again() {
    let line = "FIXME see https://github.com/rust-lang/rust/issues/12345 and #67890";
    assert_eq!(
        references(line),
        vec![
            ReferenceSpan { start: 10, end: 56, kind: ReferenceKind::Hyperlink },
            ReferenceSpan { start: 62, end: 67, kind: ReferenceKind::IssueNumber },
        ]
    );
    assert_eq!(&line[10..56], "https://github.com/rust-lang/rust/issues/12345");
    assert_eq!(
        annotate(line),
        vec![
            text(0, 10, None),
            link(10, 56, 29),
            text(56, 62, None),
            issue(62, 67, Some(67890)),
        ]
    );
    assert_eq!(&line[29..56], "rust-lang/rust/issues/12345");
}

#[test]
fn link_display_drops_scheme_and_host() {
    let line = "https://example.org/x/200";
    assert_eq!(annotate(line), vec![link(0, line.len(), 8)]);
    let line = "http://github.com/x";
    assert_eq!(annotate(line), vec![link(0, line.len(), 0)]);
}

#[test]
fn link_display_drops_every_leading_copy() {
    let line = "https://https://github.com/github.com/x";
    let links = vec![(0, line.len())];
    assert_eq!(annotate_with_links(line, &links), vec![link(0, line.len(), 38)]);
    assert_eq!(&line[38..], "x");
}

#[test]
fn text_without_links_or_numbers_is_one_segment() {
    assert_eq!(annotate("HACK around it"), vec![text(0, 14, None)]);
}

#[test]
fn empty_text_has_no_segments() {
    assert_eq!(annotate(""), vec![]);
    assert_eq!(references(""), vec![]);
}

#[test]
fn only_the_first_capture_of_a_stretch_is_taken() {
    let line = "FIXME(alice) and HACK(bob)";
    assert_eq!(annotate(line), vec![text(0, line.len(), Some((6, 11)))]);
}

#[test]
fn each_stretch_is_searched_by_itself() {
    let line = "FIXME(alice) 12345 HACK(bob)";
    assert_eq!(
        annotate(line),
        vec![
            text(0, 13, Some((6, 11))),
            issue(13, 18, Some(12345)),
            text(18, line.len(), Some((24, 27))),
        ]
    );
}

#[test]
fn empty_or_open_brackets_are_no_capture() {
    assert_eq!(annotate("FIXME() later"), vec![text(0, 13, None)]);
    assert_eq!(annotate("FIXME(never closed"), vec![text(0, 18, None)]);
    assert_eq!(annotate("FIXME (spaced)"), vec![text(0, 14, None)]);
    assert_eq!(annotate("FIXME()HACK(x)"), vec![text(0, 14, Some((12, 13)))]);
}

#[test]
fn number_in_brackets_is_an_issue_not_a_capture() {
    let line = "ignore-android: FIXME(#10381)";
    assert_eq!(
        annotate(line),
        vec![text(0, 23, None), issue(23, 28, Some(10381)), text(28, 29, None)]
    );
}

#[test]
fn number_too_large_for_64_bits_has_no_value() {
    let line = "FIXME 18446744073709551616";
    assert_eq!(annotate(line), vec![text(0, 6, None), issue(6, 26, None)]);
    let line = "FIXME 18446744073709551615";
    assert_eq!(annotate(line), vec![text(0, 6, None), issue(6, 26, Some(u64::MAX))]);
}

#[test]
fn gap_ends_bound_a_number_as_text_ends_do() {
    let line = "ab12345cd";
    let links = vec![(0, 2), (7, 9)];
    assert_eq!(
        annotate_with_links(line, &links),
        vec![link(0, 2, 0), issue(2, 7, Some(12345)), link(7, 9, 7)]
    );
    assert_eq!(annotate_with_links(line, &vec![]), vec![text(0, 9, None)]);
}

#[test]
fn adjacent_links_leave_no_gap() {
    let line = "aaabbb 777";
    let links = vec![(0, 3), (3, 6)];
    assert_eq!(
        annotate_with_links(line, &links),
        vec![link(0, 3, 0), link(3, 6, 3), text(6, 7, None), issue(7, 10, Some(777))]
    );
}

#[test]
fn window_is_split_into_text_and_numbers() {
    let line = b"x 123 y 4567";
    assert_eq!(
        split_window(line, 0, line.len()),
        vec![
            text(0, 2, None),
            issue(2, 5, Some(123)),
            text(5, 8, None),
            issue(8, 12, Some(4567)),
        ]
    );
    assert_eq!(split_window(line, 3, 5), vec![text(3, 5, None)]);
    assert_eq!(split_window(line, 4, 4), vec![]);
}

#[test]
fn references_are_sorted_and_do_not_overlap() {
    let lines = [
        "FIXME: 12345 https://a.example/678 HACK(x) 9999, see http://b.example/1000 #333",
        "mailto me@example.org about 404 and 5000",
        "",
        "FIXME(81658): #83171",
    ];
    for line in lines {
        let refs = references(line);
        for pair in refs.windows(2) {
            assert!(pair[0].end <= pair[1].start, "{line}");
        }
        for r in &refs {
            assert!(r.start < r.end && r.end <= line.len(), "{line}");
        }
        let segs = annotate(line);
        assert_eq!(reference_spans(&segs), refs);
        let mut at = 0;
        for seg in &segs {
            assert_eq!(seg.start, at, "{line}");
            assert!(seg.start < seg.end, "{line}");
            at = seg.end;
        }
        assert_eq!(at, line.len(), "{line}");
    }
}

#[test]
fn text_with_characters_of_several_bytes() {
    let line = "FIXME(zoë): naïve — see №12345 and “6789”";
    let segs = annotate(line);
    let numbers: Vec<&str> = segs
        .iter()
        .filter(|s| matches!(s.kind, SegmentKind::IssueNumber { .. }))
        .map(|s| &line[s.start..s.end])
        .collect();
    assert_eq!(numbers, vec!["12345", "6789"]);
    match segs[0].kind {
        SegmentKind::Text { emphasis: Some(span) } => assert_eq!(&line[span.start..span.end], "zoë"),
        _ => panic!("no capture in {:?}", segs[0]),
    }
}
