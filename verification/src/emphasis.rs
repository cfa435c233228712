//! The name captured in brackets right after a marker keyword.

use crate::markers::{marker_at, marker_len_at};
use vstd::prelude::*;

verus! {

/// The byte range of a capture, without its brackets.
#[derive(Debug, Clone, Copy, PartialEq, Eq, Structural)]
pub struct EmphasisSpan {
    pub start: usize,
    pub end: usize,
}

/// The opening bracket.
pub const OPEN: u8 = 0x28;

/// The closing bracket.
pub const CLOSE: u8 = 0x29;

/// In the window `[lo, hi)` of `t` a marker keyword stands at `p`, an opening
/// bracket right after it, `[a, b)` holds at least one byte and no closing
/// bracket, and a closing bracket stands at `b`.
pub open spec fn is_emphasis(t: Seq<u8>, lo: int, hi: int, p: int, a: int, b: int) -> bool {
    &&& 0 <= lo <= p
    &&& marker_len_at(t, p, hi) > 0
    &&& a == p + marker_len_at(t, p, hi) + 1
    &&& a < b < hi <= t.len()
    &&& t[a - 1] == OPEN
    &&& t[b] == CLOSE
    &&& forall|i: int| a <= i < b ==> #[trigger] t[i] != CLOSE
}

/// A capture of the window opens with the marker keyword at `p`.
pub open spec fn emphasis_starts_at(t: Seq<u8>, lo: int, hi: int, p: int) -> bool {
    exists|a: int, b: int| #[trigger] is_emphasis(t, lo, hi, p, a, b)
}

/// `[a, b)` is the capture of the window `[lo, hi)` whose marker keyword
/// comes first.
pub open spec fn is_first_emphasis(t: Seq<u8>, lo: int, hi: int, a: int, b: int) -> bool {
    exists|p: int|
        {
            &&& #[trigger] is_emphasis(t, lo, hi, p, a, b)
            &&& forall|q: int| lo <= q < p ==> !#[trigger] emphasis_starts_at(t, lo, hi, q)
        }
}

/// `found` is what a search of the window `[lo, hi)` owes: its first capture,
/// or nothing where the window has none.
#[verifier::opaque]
pub open spec fn is_emphasis_of(
    found: Option<EmphasisSpan>,
    t: Seq<u8>,
    lo: int,
    hi: int,
) -> bool {
    match found {
        Some(span) => is_first_emphasis(t, lo, hi, span.start as int, span.end as int),
        None => forall|q: int| !#[trigger] emphasis_starts_at(t, lo, hi, q),
    }
}

/// The first capture of the window `[lo, hi)` of `t`. Only the first is
/// looked for: an annotation names one contributor at most.
pub fn find_emphasis(t: &[u8], lo: usize, hi: usize) -> (found: Option<EmphasisSpan>)
    requires
        lo <= hi <= t.len(),
    ensures
        is_emphasis_of(found, t@, lo as int, hi as int),
{
    let mut p: usize = lo;
    while p < hi
        invariant
            lo <= p <= hi <= t.len(),
            forall|q: int| lo <= q < p ==> !#[trigger] emphasis_starts_at(t@, lo as int, hi as int, q),
        decreases hi - p,
    {
        reveal(is_emphasis_of);
        let m = marker_at(t, p, hi);
        if m > 0 && p + m < hi && t[p + m] == OPEN {
            let a: usize = p + m + 1;
            let mut b: usize = a;
            while b < hi && t[b] != CLOSE
                invariant
                    a <= b <= hi <= t.len(),
                    forall|i: int| a <= i < b ==> #[trigger] t@[i] != CLOSE,
                decreases hi - b,
            {
                b += 1;
            }
            if b >= hi {
                assert forall|q: int| !#[trigger] emphasis_starts_at(
                    t@,
                    lo as int,
                    hi as int,
                    q,
                ) by {
                    assert forall|a2: int, b2: int| !#[trigger] is_emphasis(
                        t@,
                        lo as int,
                        hi as int,
                        q,
                        a2,
                        b2,
                    ) by {
                        if is_emphasis(t@, lo as int, hi as int, q, a2, b2) {
                            if q < p {
                                assert(emphasis_starts_at(t@, lo as int, hi as int, q));
                            } else {
                                assert(t@[b2] == CLOSE);
                            }
                        }
                    }
                }
                return None;
            }
            if b > a {
                assert(is_emphasis(t@, lo as int, hi as int, p as int, a as int, b as int));
                return Some(EmphasisSpan { start: a, end: b });
            }
            assert forall|a2: int, b2: int| !#[trigger] is_emphasis(
                t@,
                lo as int,
                hi as int,
                p as int,
                a2,
                b2,
            ) by {
                if is_emphasis(t@, lo as int, hi as int, p as int, a2, b2) {
                    assert(t@[a as int] == CLOSE);
                }
            }
        } else {
            assert forall|a2: int, b2: int| !#[trigger] is_emphasis(
                t@,
                lo as int,
                hi as int,
                p as int,
                a2,
                b2,
            ) by {}
        }
        p += 1;
    }
    reveal(is_emphasis_of);
    assert forall|q: int| !#[trigger] emphasis_starts_at(t@, lo as int, hi as int, q) by {
        assert forall|a2: int, b2: int| !#[trigger] is_emphasis(
            t@,
            lo as int,
            hi as int,
            q,
            a2,
            b2,
        ) by {
            if is_emphasis(t@, lo as int, hi as int, q, a2, b2) && q < p {
                assert(emphasis_starts_at(t@, lo as int, hi as int, q));
            }
        }
    }
    None
}

} // verus!
