use fixme_report::issues::{issue_references, IssueReference};

#[test]
fn test_issue_references() {
    let cases = [
        (
            "FIXME(jackh726): This is a hack. It's somewhat like",
            vec![],
        ),
        (
            "// FIXME: not 100% sure why these crop up, but return an empty tree to avoid a panic",
            vec![],
        ),
        (
            "// FIXME(mu001999) E0599 maybe not suitable here because it is for types",
            vec![],
        ),
        ("FIXME implement 128bit atomics", vec![]),
        (
            "FIXME: #7698, false positive of the internal lints",
            vec![IssueReference { start: 8, end: 12 }],
        ),
        ("FIXME: 91167", vec![IssueReference { start: 7, end: 12 }]),
        (
            "ignore-android: FIXME (#20004)",
            vec![IssueReference { start: 24, end: 29 }],
        ),
        (
            "ignore-android: FIXME(#10381)",
            vec![IssueReference { start: 23, end: 28 }],
        ),
        (
            "frame_pointer: FramePointer::Always, // FIXME 43575: should be MayOmit",
            vec![IssueReference { start: 46, end: 51 }],
        ),
        (
            "FIXME: Report diagnostic on 404",
            vec![IssueReference { start: 28, end: 31 }],
        ),
        (
            "FIXME: [0..200; 2];",
            vec![IssueReference { start: 11, end: 14 }],
        ),
        (
            "FIXME(bytecodealliance/wasmtime#6104) use bitcast instead of store to get from i64x2 to i128",
            vec![IssueReference { start: 32, end: 36 }],
        ),
        (
            "#[allow(dead_code)] // FIXME(81658): should be used + lint reinstated after #83171 relands",
            vec![
                IssueReference { start: 29, end: 34 },
                IssueReference { start: 77, end: 82 },
            ],
        ),
    ];

    for case in cases {
        let text = case.0;
        let expected = case.1;

        assert_eq!(issue_references(text), *expected, "{text}");
    }
}
