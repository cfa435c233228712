use fixme_report::store::{rank_keys, Entry, Occurrence, OccurrenceStore, Rank};

fn at(path: &str, line: usize) -> Occurrence {
    Occurrence { path: path.to_string(), line }
}

fn keys(store: &OccurrenceStore) -> Vec<String> {
    store.snapshot().iter().map(|e| e.key.clone()).collect()
}

#[test]
fn new_store_is_empty() {
    assert_eq!(OccurrenceStore::new().snapshot().len(), 0);
}

#[test]
fn occurrences_of_one_key_are_grouped_in_discovery_order() {
    let mut store = OccurrenceStore::new();
    store.record("FIXME: b", at("src/b.rs", 7));
    store.record("FIXME: a", at("src/a.rs", 3));
    store.record("FIXME: b", at("src/a.rs", 9));
    store.record("FIXME: b", at("src/a.rs", 1));
    assert_eq!(
        *store.snapshot(),
        vec![
            Entry { key: "FIXME: a".to_string(), occurrences: vec![at("src/a.rs", 3)] },
            Entry {
                key: "FIXME: b".to_string(),
                occurrences: vec![at("src/b.rs", 7), at("src/a.rs", 9), at("src/a.rs", 1)],
            },
        ]
    );
}

#[test]
fn snapshot_is_sorted_by_the_bytes_of_the_key() {
    let mut store = OccurrenceStore::new();
    for key in ["b", "a", "", "ab", "B", "é", "a ", "z", "aa", "~"] {
        store.record(key, at("f", 1));
    }
    let mut expected: Vec<String> =
        ["b", "a", "", "ab", "B", "é", "a ", "z", "aa", "~"].iter().map(|k| k.to_string()).collect();
    expected.sort_by(|a, b| a.as_bytes().cmp(b.as_bytes()));
    assert_eq!(keys(&store), expected);
    assert_eq!(keys(&store), vec!["", "B", "a", "a ", "aa", "ab", "b", "z", "~", "é"]);
}

#[test]
fn each_key_has_one_entry() {
    let mut store = OccurrenceStore::new();
    for (i, key) in ["x", "y", "x", "x", "y", "w"].iter().enumerate() {
        store.record(key, at("f", i + 1));
    }
    assert_eq!(keys(&store), vec!["w", "x", "y"]);
    let lines: Vec<Vec<usize>> = store
        .snapshot()
        .iter()
        .map(|e| e.occurrences.iter().map(|o| o.line).collect())
        .collect();
    assert_eq!(lines, vec![vec![6], vec![1, 3, 4], vec![2, 5]]);
}

#[test]
fn recording_takes_nothing_away() {
    let mut store = OccurrenceStore::new();
    store.record("k", at("f", 1));
    store.record("k", at("f", 1));
    assert_eq!(store.snapshot()[0].occurrences, vec![at("f", 1), at("f", 1)]);
}

#[test]
fn keys_are_ranked_byte_by_byte() {
    assert_eq!(rank_keys(b"", b""), Rank::Same);
    assert_eq!(rank_keys(b"", b"a"), Rank::Before);
    assert_eq!(rank_keys(b"a", b""), Rank::After);
    assert_eq!(rank_keys(b"abc", b"abd"), Rank::Before);
    assert_eq!(rank_keys(b"abd", b"abc"), Rank::After);
    assert_eq!(rank_keys(b"ab", b"abc"), Rank::Before);
    assert_eq!(rank_keys(b"abc", b"abc"), Rank::Same);
    assert_eq!(rank_keys(b"Z", b"a"), Rank::Before);
    assert_eq!(rank_keys("é".as_bytes(), b"z"), Rank::After);
}
