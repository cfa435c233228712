//! The two marker keywords that make a line an annotation.

use vstd::prelude::*;

verus! {

/// The length of `FIXME`.
pub const FIXME_LEN: usize = 5;

/// The length of `HACK`.
pub const HACK_LEN: usize = 4;

/// The bytes `FIXME` stand at `p` and end at or before `hi`.
pub open spec fn fixme_at(t: Seq<u8>, p: int, hi: int) -> bool {
    &&& 0 <= p
    &&& p + FIXME_LEN <= hi <= t.len()
    &&& t[p] == 0x46
    &&& t[p + 1] == 0x49
    &&& t[p + 2] == 0x58
    &&& t[p + 3] == 0x4d
    &&& t[p + 4] == 0x45
}

/// The bytes `HACK` stand at `p` and end at or before `hi`.
pub open spec fn hack_at(t: Seq<u8>, p: int, hi: int) -> bool {
    &&& 0 <= p
    &&& p + HACK_LEN <= hi <= t.len()
    &&& t[p] == 0x48
    &&& t[p + 1] == 0x41
    &&& t[p + 2] == 0x43
    &&& t[p + 3] == 0x4b
}

/// The length of the marker keyword that stands at `p` and ends at or before
/// `hi`; 0 where none does. Case counts, and what surrounds the keyword does
/// not.
pub open spec fn marker_len_at(t: Seq<u8>, p: int, hi: int) -> int {
    if fixme_at(t, p, hi) {
        FIXME_LEN as int
    } else if hack_at(t, p, hi) {
        HACK_LEN as int
    } else {
        0
    }
}

/// A marker keyword lies somewhere in the window `[lo, hi)` of `t`.
pub open spec fn has_marker(t: Seq<u8>, lo: int, hi: int) -> bool {
    exists|p: int| lo <= p && #[trigger] marker_len_at(t, p, hi) > 0
}

/// The length of the marker keyword at `p`, 0 where there is none.
pub fn marker_at(t: &[u8], p: usize, hi: usize) -> (len: usize)
    requires
        p <= hi <= t.len(),
    ensures
        len == marker_len_at(t@, p as int, hi as int),
{
    let room = hi - p;
    if room >= FIXME_LEN && t[p] == 0x46 && t[p + 1] == 0x49 && t[p + 2] == 0x58 && t[p + 3] == 0x4d
        && t[p + 4] == 0x45 {
        FIXME_LEN
    } else if room >= HACK_LEN && t[p] == 0x48 && t[p + 1] == 0x41 && t[p + 2] == 0x43 && t[p + 3]
        == 0x4b {
        HACK_LEN
    } else {
        0
    }
}

/// Whether a marker keyword lies in the window `[lo, hi)` of `t`.
pub fn contains_marker(t: &[u8], lo: usize, hi: usize) -> (found: bool)
    requires
        lo <= hi <= t.len(),
    ensures
        found == has_marker(t@, lo as int, hi as int),
{
    let mut p: usize = lo;
    while p < hi
        invariant
            lo <= p <= hi <= t.len(),
            forall|q: int| lo <= q < p ==> #[trigger] marker_len_at(t@, q, hi as int) == 0,
        decreases hi - p,
    {
        if marker_at(t, p, hi) > 0 {
            return true;
        }
        p += 1;
    }
    false
}

} // verus!
