use fixme_report::emphasis::{find_emphasis, EmphasisSpan};
use fixme_report::issues::{issue_numbers_in, parse_issue_number, IssueReference};
use fixme_report::links::link_display_start;

fn capture(text: &str) -> Option<&str> {
    find_emphasis(text.as_bytes(), 0, text.len()).map(|s| &text[s.start..s.end])
}

#[test]
fn capture_follows_either_marker() {
    assert_eq!(capture("FIXME(eddyb): x"), Some("eddyb"));
    assert_eq!(capture("see HACK(rust-lang/rust#1): x"), Some("rust-lang/rust#1"));
    assert_eq!(capture("TODO(x) FIXME y (z)"), None);
}

#[test]
fn capture_is_the_first_that_closes() {
    assert_eq!(capture("FIXME()FIXME(a)"), Some("a"));
    assert_eq!(capture("FIXME(a(b)c)"), Some("a(b"));
    assert_eq!(capture("HACK(FIXME(x))"), Some("FIXME(x"));
    assert_eq!(capture("FIXME(a\nb)"), Some("a\nb"));
}

#[test]
fn capture_lies_inside_the_window() {
    let text = b"FIXME(abc) HACK(de)";
    assert_eq!(find_emphasis(text, 0, 9), None);
    assert_eq!(find_emphasis(text, 0, 10), Some(EmphasisSpan { start: 6, end: 9 }));
    assert_eq!(find_emphasis(text, 1, 19), Some(EmphasisSpan { start: 16, end: 18 }));
    assert_eq!(find_emphasis(text, 12, 19), None);
    assert_eq!(find_emphasis(text, 4, 4), None);
}

#[test]
fn window_bounds_an_issue_number() {
    let text = b"a12345b";
    assert_eq!(issue_numbers_in(text, 0, 7), vec![]);
    assert_eq!(issue_numbers_in(text, 1, 6), vec![IssueReference { start: 1, end: 6 }]);
    assert_eq!(issue_numbers_in(text, 2, 6), vec![IssueReference { start: 2, end: 6 }]);
    assert_eq!(issue_numbers_in(text, 1, 7), vec![]);
    assert_eq!(issue_numbers_in(text, 4, 6), vec![]);
}

#[test]
fn digits_are_read_in_base_ten() {
    assert_eq!(parse_issue_number(b"#7698,", 1, 5), Some(7698));
    assert_eq!(parse_issue_number(b"007", 0, 3), Some(7));
    assert_eq!(parse_issue_number(b"1", 0, 0), Some(0));
    assert_eq!(parse_issue_number(b"18446744073709551615", 0, 20), Some(u64::MAX));
    assert_eq!(parse_issue_number(b"18446744073709551616", 0, 20), None);
    assert_eq!(parse_issue_number(b"99999999999999999999999", 0, 23), None);
}

#[test]
fn display_starts_after_scheme_and_host() {
    let link = b"https://github.com/rust-lang/rust";
    assert_eq!(link_display_start(link, 0, link.len()), 19);
    let link = b"https://example.org/github.com/x";
    assert_eq!(link_display_start(link, 0, link.len()), 8);
    let link = b"github.com/github.com/x";
    assert_eq!(link_display_start(link, 0, link.len()), 22);
    let link = b"http://github.com/x";
    assert_eq!(link_display_start(link, 0, link.len()), 0);
    let link = b"see https://github.com/x";
    assert_eq!(link_display_start(link, 4, link.len()), 23);
    assert_eq!(link_display_start(link, 4, 11), 4);
    assert_eq!(link_display_start(link, 4, 12), 12);
}
