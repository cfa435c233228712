//! Where each annotation occurs: the occurrences of every canonical key, in
//! the order in which they were found, and the keys in byte order.

use vstd::prelude::*;
use vstd::string::StringSliceAdditionalSpecFns;
use vstd::utf8::encode_utf8;

verus! {

/// A place where an annotation stands: a file, and a line counted from 1.
#[derive(Debug, PartialEq, Eq)]
pub struct Occurrence {
    pub path: String,
    pub line: usize,
}

/// An `Occurrence` as a mathematical value.
pub struct OccurrenceView {
    pub path: Seq<char>,
    pub line: usize,
}

impl View for Occurrence {
    type V = OccurrenceView;

    open spec fn view(&self) -> OccurrenceView {
        OccurrenceView { path: self.path@, line: self.line }
    }
}

/// A canonical key and the places where it occurs.
#[derive(Debug, PartialEq, Eq)]
pub struct Entry {
    pub key: String,
    pub occurrences: Vec<Occurrence>,
}

/// An `Entry` as a mathematical value: the bytes of its key, and its
/// occurrences in order.
pub struct EntryView {
    pub key: Seq<u8>,
    pub occurrences: Seq<OccurrenceView>,
}

impl View for Entry {
    type V = EntryView;

    open spec fn view(&self) -> EntryView {
        EntryView {
            key: encode_utf8(self.key@),
            occurrences: self.occurrences@.map_values(|o: Occurrence| o@),
        }
    }
}

/// The views of the entries, one for one.
pub open spec fn entry_views(entries: Seq<Entry>) -> Seq<EntryView> {
    entries.map_values(|e: Entry| e@)
}

/// `a` and `b` hold the same bytes before `i`.
pub open spec fn agree_until(a: Seq<u8>, b: Seq<u8>, i: int) -> bool {
    &&& 0 <= i <= a.len()
    &&& i <= b.len()
    &&& forall|k: int| 0 <= k < i ==> a[k] == #[trigger] b[k]
}

/// `a` comes before `b` in byte order: where the two first differ `a` has
/// the smaller byte, or `a` ends there and `b` goes on.
pub open spec fn lex_less(a: Seq<u8>, b: Seq<u8>) -> bool {
    exists|i: int| #[trigger] agree_until(a, b, i) && i < b.len() && (i == a.len() || a[i] < b[i])
}

/// The keys rise strictly from each entry to the next, so that no key
/// stands twice.
pub open spec fn sorted_by_key(entries: Seq<EntryView>) -> bool {
    forall|i: int, j: int|
        0 <= i < j < entries.len() ==> lex_less((#[trigger] entries[i]).key, (#[trigger] entries[j]).key)
}

/// What `record` does to the entries: where the key has an entry, the
/// occurrence is added at the end of it; where it has none, an entry with
/// that one occurrence is put in; and the keys stay in order.
pub open spec fn records(
    before: Seq<EntryView>,
    after: Seq<EntryView>,
    key: Seq<u8>,
    occurrence: OccurrenceView,
) -> bool {
    &&& sorted_by_key(after)
    &&& forall|i: int|
        0 <= i < before.len() && (#[trigger] before[i]).key == key ==> after == before.update(
            i,
            EntryView { key, occurrences: before[i].occurrences.push(occurrence) },
        )
    &&& (forall|i: int| 0 <= i < before.len() ==> (#[trigger] before[i]).key != key) ==> exists|
        i: int,
    |
        0 <= i <= before.len() && after == #[trigger] before.insert(
            i,
            EntryView { key, occurrences: seq![occurrence] },
        )
}

/// The occurrences that `entries` holds for `key`: none where it has no
/// entry.
pub open spec fn occurrences_of(entries: Seq<EntryView>, key: Seq<u8>) -> Seq<OccurrenceView> {
    if exists|i: int| 0 <= i < entries.len() && (#[trigger] entries[i]).key == key {
        let i = choose|i: int| 0 <= i < entries.len() && (#[trigger] entries[i]).key == key;
        entries[i].occurrences
    } else {
        Seq::empty()
    }
}

/// Byte order runs one way only: what comes before another key is not that
/// key and does not come after it.
pub proof fn lemma_lex_less_is_strict(a: Seq<u8>, b: Seq<u8>)
    requires
        lex_less(a, b),
    ensures
        a != b,
        !lex_less(b, a),
{
    let i = choose|i: int| #[trigger]
        agree_until(a, b, i) && i < b.len() && (i == a.len() || a[i] < b[i]);
    if a == b {
        assert(a[i] == b[i]);
    }
    if lex_less(b, a) {
        let j = choose|j: int| #[trigger]
            agree_until(b, a, j) && j < a.len() && (j == b.len() || b[j] < a[j]);
        if i < j {
            assert(b[i] == a[i]);
        } else if j < i {
            assert(a[j] == b[j]);
        }
    }
}

/// Byte order carries over: what comes before a key comes before all that
/// comes after that key.
pub proof fn lemma_lex_less_is_transitive(a: Seq<u8>, b: Seq<u8>, c: Seq<u8>)
    requires
        lex_less(a, b),
        lex_less(b, c),
    ensures
        lex_less(a, c),
{
    let i = choose|i: int| #[trigger]
        agree_until(a, b, i) && i < b.len() && (i == a.len() || a[i] < b[i]);
    let j = choose|j: int| #[trigger]
        agree_until(b, c, j) && j < c.len() && (j == b.len() || b[j] < c[j]);
    let m = if i <= j {
        i
    } else {
        j
    };
    assert forall|k: int| 0 <= k < m implies a[k] == #[trigger] c[k] by {
        assert(a[k] == b[k]);
        assert(b[k] == c[k]);
    }
    assert(agree_until(a, c, m));
    if j < i {
        assert(a[j] == b[j]);
    } else if i < j {
        assert(b[i] == c[i]);
    }
}

/// How one key stands to another in byte order.
#[derive(Debug, Clone, Copy, PartialEq, Eq, Structural)]
pub enum Rank {
    Before,
    Same,
    After,
}

/// Compares two keys byte by byte.
pub fn rank_keys(a: &[u8], b: &[u8]) -> (rank: Rank)
    ensures
        rank == Rank::Before <==> lex_less(a@, b@),
        rank == Rank::Same <==> a@ == b@,
        rank == Rank::After <==> lex_less(b@, a@),
{
    let mut i: usize = 0;
    while i < a.len() && i < b.len() && a[i] == b[i]
        invariant
            agree_until(a@, b@, i as int),
        decreases a.len() - i,
    {
        i += 1;
    }
    if i == a.len() && i == b.len() {
        assert(a@ =~= b@);
        proof {
            if lex_less(a@, b@) {
                lemma_lex_less_is_strict(a@, b@);
            }
            if lex_less(b@, a@) {
                lemma_lex_less_is_strict(b@, a@);
            }
        }
        Rank::Same
    } else if i == a.len() || (i < b.len() && a[i] < b[i]) {
        proof {
            assert(agree_until(a@, b@, i as int));
            assert(lex_less(a@, b@));
            lemma_lex_less_is_strict(a@, b@);
        }
        Rank::Before
    } else {
        proof {
            assert forall|k: int| 0 <= k < i implies b@[k] == #[trigger] a@[k] by {
                assert(a@[k] == b@[k]);
            }
            assert(agree_until(b@, a@, i as int));
            assert(lex_less(b@, a@));
            lemma_lex_less_is_strict(b@, a@);
        }
        Rank::After
    }
}

/// The occurrences of every key seen so far. Entries are added and grow;
/// nothing is ever taken out.
pub struct OccurrenceStore {
    entries: Vec<Entry>,
}

impl View for OccurrenceStore {
    type V = Seq<EntryView>;

    closed spec fn view(&self) -> Seq<EntryView> {
        entry_views(self.entries@)
    }
}

impl OccurrenceStore {
    #[verifier::type_invariant]
    spec fn keys_in_order(self) -> bool {
        sorted_by_key(entry_views(self.entries@))
    }

    /// A store that holds nothing.
    pub fn new() -> (store: OccurrenceStore)
        ensures
            store@ == Seq::<EntryView>::empty(),
    {
        let store = OccurrenceStore { entries: Vec::new() };
        assert(store@ =~= Seq::<EntryView>::empty());
        store
    }

    /// Where `key` stands among the entries, or would stand: the index of
    /// the first entry whose key does not come before it, and whether that
    /// entry has the key.
    fn find(&self, key: &[u8]) -> (at: (usize, bool))
        ensures
            at.0 <= self@.len(),
            forall|j: int| 0 <= j < at.0 ==> lex_less((#[trigger] self@[j]).key, key@),
            at.1 ==> at.0 < self@.len() && self@[at.0 as int].key == key@,
            !at.1 ==> forall|j: int|
                at.0 <= j < self@.len() ==> lex_less(key@, (#[trigger] self@[j]).key),
    {
        proof {
            use_type_invariant(self);
        }
        let mut i: usize = 0;
        while i < self.entries.len()
            invariant
                i <= self.entries.len(),
                self@ == entry_views(self.entries@),
                sorted_by_key(self@),
                forall|j: int| 0 <= j < i ==> lex_less((#[trigger] self@[j]).key, key@),
            decreases self.entries.len() - i,
        {
            let rank = rank_keys(self.entries[i].key.as_str().as_bytes(), key);
            assert(self@[i as int].key == encode_utf8(self.entries[i as int].key@));
            match rank {
                Rank::Before => {
                    i += 1;
                },
                Rank::Same => {
                    return (i, true);
                },
                Rank::After => {
                    assert forall|j: int| i <= j < self@.len() implies lex_less(
                        key@,
                        (#[trigger] self@[j]).key,
                    ) by {
                        if i < j {
                            lemma_lex_less_is_transitive(key@, self@[i as int].key, self@[j].key);
                        }
                    }
                    return (i, false);
                },
            }
        }
        (i, false)
    }

    /// Notes that the annotation with the canonical key `key` occurs at
    /// `occurrence`. The occurrence goes to the end of the key's entry; a key
    /// not seen before gets an entry of its own, at its place in byte order.
    pub fn record(&mut self, key: &str, occurrence: Occurrence)
        ensures
            records(old(self)@, final(self)@, key.spec_bytes(), occurrence@),
    {
        proof {
            use_type_invariant(&*self);
        }
        let ghost before = self@;
        let ghost wanted = key.spec_bytes();
        let (i, found) = self.find(key.as_bytes());
        let mut entries: Vec<Entry> = Vec::new();
        assert(entry_views(entries@) =~= Seq::<EntryView>::empty());
        core::mem::swap(&mut self.entries, &mut entries);
        if found {
            let mut entry = entries.remove(i);
            let ghost grown = EntryView {
                key: wanted,
                occurrences: before[i as int].occurrences.push(occurrence@),
            };
            entry.occurrences.push(occurrence);
            assert(entry@.occurrences =~= grown.occurrences);
            proof {
                lemma_sorted_with(before, i as int, grown);
                assert(before.remove(i as int).insert(i as int, grown) =~= before.update(
                    i as int,
                    grown,
                ));
                assert(entry_views(entries@.insert(i as int, entry)) =~= before.update(
                    i as int,
                    grown,
                ));
                assert forall|j: int|
                    0 <= j < before.len() && (#[trigger] before[j]).key == wanted implies j == i by {
                    if j < i {
                        lemma_lex_less_is_strict(before[j].key, before[i as int].key);
                    } else if i < j {
                        lemma_lex_less_is_strict(before[i as int].key, before[j].key);
                    }
                }
            }
            entries.insert(i, entry);
        } else {
            let entry = Entry { key: key.to_owned(), occurrences: vec![occurrence] };
            let ghost fresh = EntryView { key: wanted, occurrences: seq![occurrence@] };
            assert(entry@.occurrences =~= fresh.occurrences);
            proof {
                assert(entry_views(entries@.insert(i as int, entry)) =~= before.insert(
                    i as int,
                    fresh,
                ));
                lemma_sorted_insert(before, i as int, fresh);
                assert forall|j: int| 0 <= j < before.len() implies (#[trigger] before[j]).key
                    != wanted by {
                    if j < i {
                        lemma_lex_less_is_strict(before[j].key, wanted);
                    } else {
                        lemma_lex_less_is_strict(wanted, before[j].key);
                    }
                }
            }
            entries.insert(i, entry);
        }
        core::mem::swap(&mut self.entries, &mut entries);
    }

    /// All entries, sorted by key in byte order: no two keys are the same,
    /// and the order of any two is settled by the first byte in which they
    /// differ.
    pub fn snapshot(&self) -> (entries: &Vec<Entry>)
        ensures
            entry_views(entries@) == self@,
            sorted_by_key(self@),
    {
        proof {
            use_type_invariant(self);
        }
        &self.entries
    }
}

/// Putting in an entry whose key lies after those before `i` and before
/// those from `i` on leaves the keys in order.
proof fn lemma_sorted_insert(entries: Seq<EntryView>, i: int, entry: EntryView)
    requires
        sorted_by_key(entries),
        0 <= i <= entries.len(),
        forall|j: int| 0 <= j < i ==> lex_less((#[trigger] entries[j]).key, entry.key),
        forall|j: int| i <= j < entries.len() ==> lex_less(entry.key, (#[trigger] entries[j]).key),
    ensures
        sorted_by_key(entries.insert(i, entry)),
{
    let all = entries.insert(i, entry);
    assert forall|a: int, b: int| 0 <= a < b < all.len() implies lex_less(
        (#[trigger] all[a]).key,
        (#[trigger] all[b]).key,
    ) by {
        if a < i {
            assert(all[a] == entries[a]);
        } else if a > i {
            assert(all[a] == entries[a - 1]);
        }
        if b < i {
            assert(all[b] == entries[b]);
        } else if b > i {
            assert(all[b] == entries[b - 1]);
        }
    }
}

/// Putting an entry back in the place of one with the same key leaves the
/// keys in order.
proof fn lemma_sorted_with(entries: Seq<EntryView>, i: int, entry: EntryView)
    requires
        sorted_by_key(entries),
        0 <= i < entries.len(),
        entry.key == entries[i].key,
    ensures
        sorted_by_key(entries.remove(i).insert(i, entry)),
{
    let all = entries.remove(i).insert(i, entry);
    assert(all =~= entries.update(i, entry));
    assert forall|a: int, b: int| 0 <= a < b < all.len() implies lex_less(
        (#[trigger] all[a]).key,
        (#[trigger] all[b]).key,
    ) by {
        assert(all[a].key == entries[a].key);
        assert(all[b].key == entries[b].key);
    }
}

/// Among keys in order a key has one entry at most.
pub proof fn lemma_key_stands_once(entries: Seq<EntryView>, i: int, j: int)
    requires
        sorted_by_key(entries),
        0 <= i < entries.len(),
        0 <= j < entries.len(),
        entries[i].key == entries[j].key,
    ensures
        i == j,
{
    if i < j {
        lemma_lex_less_is_strict(entries[i].key, entries[j].key);
    } else if j < i {
        lemma_lex_less_is_strict(entries[j].key, entries[i].key);
    }
}

/// Where `entries[i]` has the key, its occurrences are those of the key.
proof fn lemma_occurrences_at(entries: Seq<EntryView>, key: Seq<u8>, i: int)
    requires
        sorted_by_key(entries),
        0 <= i < entries.len(),
        entries[i].key == key,
    ensures
        occurrences_of(entries, key) == entries[i].occurrences,
{
    let c = choose|c: int| 0 <= c < entries.len() && (#[trigger] entries[c]).key == key;
    lemma_key_stands_once(entries, c, i);
}

/// Recording adds to one key and touches no other: after `record` the key
/// has the occurrences that it had, in their order, and the new one after
/// them; every other key has what it had.
pub proof fn lemma_record_appends(
    before: Seq<EntryView>,
    after: Seq<EntryView>,
    key: Seq<u8>,
    occurrence: OccurrenceView,
    other: Seq<u8>,
)
    requires
        sorted_by_key(before),
        records(before, after, key, occurrence),
    ensures
        occurrences_of(after, key) == occurrences_of(before, key).push(occurrence),
        other != key ==> occurrences_of(after, other) == occurrences_of(before, other),
{
    if exists|i: int| 0 <= i < before.len() && (#[trigger] before[i]).key == key {
        let i = choose|i: int| 0 <= i < before.len() && (#[trigger] before[i]).key == key;
        assert(after[i].key == key);
        lemma_occurrences_at(before, key, i);
        lemma_occurrences_at(after, key, i);
        if other != key {
            if exists|j: int| 0 <= j < before.len() && (#[trigger] before[j]).key == other {
                let j = choose|j: int| 0 <= j < before.len() && (#[trigger] before[j]).key == other;
                assert(after[j] == before[j]);
                lemma_occurrences_at(before, other, j);
                lemma_occurrences_at(after, other, j);
            } else {
                assert forall|j: int| 0 <= j < after.len() implies (#[trigger] after[j]).key
                    != other by {
                    if j != i {
                        assert(after[j] == before[j]);
                    }
                }
            }
        }
    } else {
        let fresh = EntryView { key, occurrences: seq![occurrence] };
        let i = choose|i: int| 0 <= i <= before.len() && after == #[trigger] before.insert(i, fresh);
        assert(after[i] == fresh);
        lemma_occurrences_at(after, key, i);
        assert(Seq::<OccurrenceView>::empty().push(occurrence) =~= seq![occurrence]);
        if other != key {
            if exists|j: int| 0 <= j < before.len() && (#[trigger] before[j]).key == other {
                let j = choose|j: int| 0 <= j < before.len() && (#[trigger] before[j]).key == other;
                let moved = if j < i {
                    j
                } else {
                    j + 1
                };
                assert(after[moved] == before[j]);
                lemma_occurrences_at(before, other, j);
                lemma_occurrences_at(after, other, moved);
            } else {
                assert forall|j: int| 0 <= j < after.len() implies (#[trigger] after[j]).key
                    != other by {
                    if j < i {
                        assert(after[j] == before[j]);
                    } else if j > i {
                        assert(after[j] == before[j - 1]);
                    }
                }
            }
        }
    }
}

} // verus!
