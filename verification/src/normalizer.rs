//! The canonical key of an annotation: its line without the comment
//! punctuation around it.

use crate::ascii::lemma_boundary_after_ascii;
use vstd::prelude::*;
use vstd::string::StringSliceAdditionalSpecFns;
use vstd::utf8::{
    encode_utf8_valid_utf8, is_char_boundary_iff_not_is_continuation_byte,
    is_char_boundary_start_end_of_seq,
};

verus! {

/// A byte that is stripped from both ends of a line: one of
/// `/ * space : - . ^ ,`.
pub open spec fn is_trim(b: u8) -> bool {
    b == 0x2f || b == 0x2a || b == 0x20 || b == 0x3a || b == 0x2d || b == 0x2e || b == 0x5e || b
        == 0x2c
}

/// `t` without the trim bytes that lead it.
pub open spec fn trim_start(t: Seq<u8>) -> Seq<u8>
    decreases t.len(),
{
    if t.len() > 0 && is_trim(t[0]) {
        trim_start(t.drop_first())
    } else {
        t
    }
}

/// `t` without the trim bytes that end it.
pub open spec fn trim_end(t: Seq<u8>) -> Seq<u8>
    decreases t.len(),
{
    if t.len() > 0 && is_trim(t[t.len() - 1]) {
        trim_end(t.drop_last())
    } else {
        t
    }
}

/// The canonical key of the line `t`: what is left once the trim bytes are
/// stripped from both ends, as often as one stands there. Nothing else is
/// changed: no case is folded and no white space inside is touched.
pub open spec fn canonical_key(t: Seq<u8>) -> Seq<u8> {
    trim_end(trim_start(t))
}

/// Every byte of `t` is a trim byte.
pub open spec fn all_trim(t: Seq<u8>) -> bool {
    forall|i: int| 0 <= i < t.len() ==> is_trim(#[trigger] t[i])
}

/// `t` is empty, or neither starts nor ends with a trim byte.
pub open spec fn is_clean(t: Seq<u8>) -> bool {
    t.len() > 0 ==> !is_trim(t[0]) && !is_trim(t[t.len() - 1])
}

/// Whether `b` is one of the bytes that are stripped.
pub fn trim_byte(b: u8) -> (r: bool)
    ensures
        r == is_trim(b),
{
    b == 0x2f || b == 0x2a || b == 0x20 || b == 0x3a || b == 0x2d || b == 0x2e || b == 0x5e || b
        == 0x2c
}

/// Where only trim bytes stand before `a`, and none at `a`, the trimmed text
/// starts at `a`.
proof fn lemma_trim_start_at(t: Seq<u8>, a: int)
    requires
        0 <= a <= t.len(),
        forall|i: int| 0 <= i < a ==> is_trim(#[trigger] t[i]),
        a == t.len() || !is_trim(t[a]),
    ensures
        trim_start(t) == t.subrange(a, t.len() as int),
    decreases a,
{
    if a == 0 {
        assert(t.subrange(0, t.len() as int) =~= t);
    } else {
        let rest = t.drop_first();
        assert forall|i: int| 0 <= i < a - 1 implies is_trim(#[trigger] rest[i]) by {
            assert(rest[i] == t[i + 1]);
        }
        lemma_trim_start_at(rest, a - 1);
        assert(rest.subrange(a - 1, rest.len() as int) =~= t.subrange(a, t.len() as int));
    }
}

/// Where only trim bytes stand from `b` on, and none right before `b`, the
/// trimmed text ends at `b`.
proof fn lemma_trim_end_at(t: Seq<u8>, b: int)
    requires
        0 <= b <= t.len(),
        forall|i: int| b <= i < t.len() ==> is_trim(#[trigger] t[i]),
        b == 0 || !is_trim(t[b - 1]),
    ensures
        trim_end(t) == t.subrange(0, b),
    decreases t.len() - b,
{
    if b == t.len() {
        assert(t.subrange(0, t.len() as int) =~= t);
    } else {
        let rest = t.drop_last();
        assert forall|i: int| b <= i < rest.len() implies is_trim(#[trigger] rest[i]) by {
            assert(rest[i] == t[i]);
        }
        lemma_trim_end_at(rest, b);
        assert(rest.subrange(0, b) =~= t.subrange(0, b));
    }
}

/// `[a, b)` is where the key of the line `t` lies: only trim bytes stand
/// before `a` and from `b` on, and none at either end of `[a, b)`. A line of
/// trim bytes only has its empty key at its end.
pub open spec fn is_key_range(t: Seq<u8>, a: int, b: int) -> bool {
    &&& 0 <= a <= b <= t.len()
    &&& forall|i: int| 0 <= i < a ==> is_trim(#[trigger] t[i])
    &&& forall|i: int| b <= i < t.len() ==> is_trim(#[trigger] t[i])
    &&& a < t.len() ==> !is_trim(t[a])
    &&& a < b ==> !is_trim(t[b - 1])
}

/// The byte range of the canonical key within the line `t`.
pub fn key_range(t: &[u8]) -> (range: (usize, usize))
    ensures
        is_key_range(t@, range.0 as int, range.1 as int),
        t@.subrange(range.0 as int, range.1 as int) == canonical_key(t@),
{
    let mut a: usize = 0;
    while a < t.len() && trim_byte(t[a])
        invariant
            a <= t.len(),
            forall|i: int| 0 <= i < a ==> is_trim(#[trigger] t@[i]),
        decreases t.len() - a,
    {
        a += 1;
    }
    let mut b: usize = t.len();
    while b > a && trim_byte(t[b - 1])
        invariant
            a <= b <= t.len(),
            forall|i: int| b <= i < t.len() ==> is_trim(#[trigger] t@[i]),
        decreases b,
    {
        b -= 1;
    }
    proof {
        let rest = t@.subrange(a as int, t.len() as int);
        lemma_trim_start_at(t@, a as int);
        assert forall|i: int| b - a <= i < rest.len() implies is_trim(#[trigger] rest[i]) by {
            assert(rest[i] == t@[a + i]);
        }
        if b > a {
            assert(rest[b - a - 1] == t@[b - 1]);
        }
        lemma_trim_end_at(rest, b - a);
        assert(rest.subrange(0, b - a) =~= t@.subrange(a as int, b as int));
    }
    (a, b)
}

/// The canonical key of a raw line: the line without the trim bytes
/// `/ * space : - . ^ ,` at its two ends.
pub fn normalize(line: &str) -> (key: &str)
    ensures
        key.spec_bytes() == canonical_key(line.spec_bytes()),
{
    let t = line.as_bytes();
    let (a, b) = key_range(t);
    proof {
        encode_utf8_valid_utf8(line@);
        if b < t.len() {
            is_char_boundary_iff_not_is_continuation_byte(t@, b as int);
        } else {
            is_char_boundary_start_end_of_seq(t@);
        }
    }
    let (head, _) = line.split_at(b);
    proof {
        encode_utf8_valid_utf8(head@);
        if a == 0 {
        } else if a == b {
            is_char_boundary_start_end_of_seq(head.spec_bytes());
        } else {
            assert(head.spec_bytes()[a - 1] == t@[a - 1]);
            lemma_boundary_after_ascii(head.spec_bytes(), a - 1);
        }
    }
    let (_, key) = head.split_at(a);
    assert(key.spec_bytes() =~= t@.subrange(a as int, b as int));
    key
}

/// What `trim_start` leaves does not start with a trim byte.
proof fn lemma_trim_start_is_clean(t: Seq<u8>)
    ensures
        trim_start(t).len() > 0 ==> !is_trim(trim_start(t)[0]),
    decreases t.len(),
{
    if t.len() > 0 && is_trim(t[0]) {
        lemma_trim_start_is_clean(t.drop_first());
    }
}

/// What `trim_end` leaves is the front of what it was given, and does not
/// end with a trim byte.
proof fn lemma_trim_end_is_front(t: Seq<u8>)
    ensures
        trim_end(t).len() <= t.len(),
        trim_end(t) == t.subrange(0, trim_end(t).len() as int),
        trim_end(t).len() > 0 ==> !is_trim(trim_end(t)[trim_end(t).len() - 1]),
    decreases t.len(),
{
    if t.len() > 0 && is_trim(t[t.len() - 1]) {
        let rest = t.drop_last();
        lemma_trim_end_is_front(rest);
        assert(rest.subrange(0, trim_end(rest).len() as int) =~= t.subrange(
            0,
            trim_end(rest).len() as int,
        ));
    } else {
        assert(t.subrange(0, t.len() as int) =~= t);
    }
}

/// A key neither starts nor ends with a trim byte.
pub proof fn lemma_key_is_clean(line: Seq<u8>)
    ensures
        is_clean(canonical_key(line)),
{
    let front = trim_start(line);
    lemma_trim_start_is_clean(line);
    lemma_trim_end_is_front(front);
}

/// The key of a text with trim bytes put around it is that text, where the
/// text itself neither starts nor ends with a trim byte.
pub proof fn lemma_key_of_wrapped(before: Seq<u8>, key: Seq<u8>, after: Seq<u8>)
    requires
        all_trim(before),
        all_trim(after),
        is_clean(key),
    ensures
        canonical_key(before + key + after) == key,
{
    let line = before + key + after;
    if key.len() == 0 {
        assert forall|i: int| 0 <= i < line.len() implies is_trim(#[trigger] line[i]) by {
            if i < before.len() {
                assert(line[i] == before[i]);
            } else {
                assert(line[i] == after[i - before.len()]);
            }
        }
        lemma_trim_start_at(line, line.len() as int);
        assert(line.subrange(line.len() as int, line.len() as int) =~= key);
    } else {
        let a = before.len() as int;
        assert forall|i: int| 0 <= i < a implies is_trim(#[trigger] line[i]) by {
            assert(line[i] == before[i]);
        }
        assert(line[a] == key[0]);
        lemma_trim_start_at(line, a);
        let rest = line.subrange(a, line.len() as int);
        assert(rest =~= key + after);
        let b = key.len() as int;
        assert forall|i: int| b <= i < rest.len() implies is_trim(#[trigger] rest[i]) by {
            assert(rest[i] == after[i - b]);
        }
        assert(rest[b - 1] == key[b - 1]);
        lemma_trim_end_at(rest, b);
        assert(rest.subrange(0, b) =~= key);
    }
}

/// Normalizing a key changes nothing.
pub proof fn lemma_key_is_stable(line: Seq<u8>)
    ensures
        canonical_key(canonical_key(line)) == canonical_key(line),
{
    let key = canonical_key(line);
    lemma_key_is_clean(line);
    lemma_key_of_wrapped(Seq::empty(), key, Seq::empty());
    assert(Seq::<u8>::empty() + key + Seq::<u8>::empty() =~= key);
}

/// The same line always has the same key.
pub proof fn lemma_key_is_determined(first: Seq<u8>, second: Seq<u8>)
    requires
        first == second,
    ensures
        canonical_key(first) == canonical_key(second),
{
}

/// Two lines have the same key exactly when they are the same once trimmed.
/// Whatever trim bytes stand around `first_text` and `second_text`, which
/// themselves neither start nor end with one, the two lines share a key if
/// and only if the two texts are byte for byte the same.
pub proof fn lemma_same_key_iff_same_text(
    first_before: Seq<u8>,
    first_text: Seq<u8>,
    first_after: Seq<u8>,
    second_before: Seq<u8>,
    second_text: Seq<u8>,
    second_after: Seq<u8>,
)
    requires
        all_trim(first_before),
        all_trim(first_after),
        is_clean(first_text),
        all_trim(second_before),
        all_trim(second_after),
        is_clean(second_text),
    ensures
        canonical_key(first_before + first_text + first_after) == canonical_key(
            second_before + second_text + second_after,
        ) <==> first_text == second_text,
{
    lemma_key_of_wrapped(first_before, first_text, first_after);
    lemma_key_of_wrapped(second_before, second_text, second_after);
}

} // verus!
