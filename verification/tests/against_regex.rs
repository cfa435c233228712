use fixme_report::emphasis::find_emphasis;
use fixme_report::issues::issue_references;

fn by_regex(text: &str) -> Vec<(usize, usize)> {
    let pattern = regex::Regex::new(r"\b([1-9][0-9]{2,})([^%a-zA-Z]|$)").unwrap();
    pattern
        .captures_iter(text)
        .map(|m| (m.get(1).unwrap().start(), m.get(1).unwrap().end()))
        .collect()
}

fn by_library(text: &str) -> Vec<(usize, usize)> {
    issue_references(text).into_iter().map(|r| (r.start, r.end)).collect()
}

#[test]
fn issue_numbers_agree_with_the_pattern() {
    for text in [
        "FIXME(jackh726): This is a hack. It's somewhat like",
        "// FIXME: not 100% sure why these crop up, but return an empty tree to avoid a panic",
        "// FIXME(mu001999) E0599 maybe not suitable here because it is for types",
        "FIXME implement 128bit atomics",
        "FIXME: #7698, false positive of the internal lints",
        "FIXME: 91167",
        "ignore-android: FIXME (#20004)",
        "ignore-android: FIXME(#10381)",
        "frame_pointer: FramePointer::Always, // FIXME 43575: should be MayOmit",
        "FIXME: Report diagnostic on 404",
        "FIXME: [0..200; 2];",
        "FIXME(bytecodealliance/wasmtime#6104) use bitcast instead of store to get from i64x2 to i128",
        "#[allow(dead_code)] // FIXME(81658): should be used + lint reinstated after #83171 relands",
        "",
        "123",
        "12",
        "123 456 78 9012",
        "123,456;789",
        "#123#456",
        "(123)(456)",
        "0123 1023 100",
        "x123 123x _123",
        "1.234.567",
        "see 12345.",
    ] {
        assert_eq!(by_library(text), by_regex(text), "{text}");
    }
}

#[test]
fn captures_agree_with_the_pattern() {
    let pattern = regex::Regex::new(r"(FIXME|HACK)\(([^\)]+)\)").unwrap();
    for text in [
        "FIXME(jackh726): This is a hack. It's somewhat like",
        "// FIXME(mu001999) E0599 maybe",
        "ignore-android: FIXME (#20004)",
        "FIXME()",
        "FIXME()HACK(x)",
        "HACK(a)(b)",
        "FIXME(open",
        "xFIXME(a b)y",
        "HACKFIXME(q)",
        "FIXME(é)",
        "",
    ] {
        let expected = pattern.captures(text).map(|c| {
            let found = c.get(2).unwrap();
            (found.start(), found.end())
        });
        let found = find_emphasis(text.as_bytes(), 0, text.len()).map(|s| (s.start, s.end));
        assert_eq!(found, expected, "{text}");
    }
}
