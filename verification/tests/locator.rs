use fixme_report::locator::{locate, locate_in, LineSpan};
use fixme_report::markers::{contains_marker, marker_at};

fn by_std(text: &str) -> Vec<(usize, String)> {
    text.lines()
        .enumerate()
        .filter(|(_, line)| line.contains("FIXME") || line.contains("HACK"))
        .map(|(i, line)| (i + 1, line.to_string()))
        .collect()
}

fn by_library(text: &str) -> Vec<(usize, String)> {
    locate(text).into_iter().map(|l| (l.line, text[l.start..l.end].to_string())).collect()
}

#[test]
fn lines_with_a_marker_are_found_with_their_numbers() {
    let text = "fn main() {\n    // FIXME: first\n    let x = 1;\n    // HACK second\n}\n";
    assert_eq!(
        locate(text),
        vec![
            LineSpan { line: 2, start: 12, end: 31 },
            LineSpan { line: 4, start: 47, end: 65 },
        ]
    );
    assert_eq!(&text[12..31], "    // FIXME: first");
    assert_eq!(&text[47..65], "    // HACK second");
}

#[test]
fn marker_is_found_anywhere_in_a_line() {
    assert_eq!(locate("xFIXMEy"), vec![LineSpan { line: 1, start: 0, end: 7 }]);
    assert_eq!(locate("WHACKY"), vec![LineSpan { line: 1, start: 0, end: 6 }]);
    assert_eq!(locate("HACK"), vec![LineSpan { line: 1, start: 0, end: 4 }]);
}

#[test]
fn marker_is_matched_in_its_own_case_only() {
    assert_eq!(locate("fixme\nFixme\nhack\nFIXM E\nHAC K"), vec![]);
}

#[test]
fn marker_does_not_run_over_a_line_ending() {
    assert_eq!(locate("FIX\nME"), vec![]);
    assert_eq!(locate("HAC\r\nK"), vec![]);
}

#[test]
fn carriage_return_before_a_line_feed_is_no_text() {
    assert_eq!(
        locate("a\r\nFIXME b\r\nc"),
        vec![LineSpan { line: 2, start: 3, end: 10 }]
    );
    assert_eq!(locate("FIXME\r"), vec![LineSpan { line: 1, start: 0, end: 6 }]);
    assert_eq!(locate("FIXME\rx\n"), vec![LineSpan { line: 1, start: 0, end: 7 }]);
}

#[test]
fn empty_lines_count_and_a_final_line_ending_adds_no_line() {
    assert_eq!(locate("\n\nFIXME\n"), vec![LineSpan { line: 3, start: 2, end: 7 }]);
    assert_eq!(locate(""), vec![]);
    assert_eq!(locate("\n"), vec![]);
    assert_eq!(locate_in(b"HACK\n\n"), vec![LineSpan { line: 1, start: 0, end: 4 }]);
}

#[test]
fn markers_are_told_apart_by_length() {
    assert_eq!(marker_at(b"FIXME", 0, 5), 5);
    assert_eq!(marker_at(b"HACK", 0, 4), 4);
    assert_eq!(marker_at(b"FIXME", 0, 4), 0);
    assert_eq!(marker_at(b"xHACK", 0, 5), 0);
    assert_eq!(marker_at(b"xHACK", 1, 5), 4);
    assert!(contains_marker(b"a HACK b", 0, 8));
    assert!(!contains_marker(b"a HACK b", 3, 8));
    assert!(!contains_marker(b"a HACK b", 0, 5));
}

#[test]
fn locating_agrees_with_std() {
    for text in [
        "",
        "FIXME",
        "a\nb FIXME\r\nHACK\n\nlast fixme",
        "HACK\r\n\r\nFIXME\r",
        "x\n\n\nFIXME(é): ü\n— HACK —\n",
        "\r\nFIXME\n\rHACK",
        "one FIXME\ntwo\nthree HACK FIXME\n",
    ] {
        assert_eq!(by_library(text), by_std(text), "{text:?}");
    }
}
