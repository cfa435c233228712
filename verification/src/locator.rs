//! Finding the lines of a text that hold a marker keyword.
//!
//! Lines end at a line feed, or at a carriage return followed by one; a
//! carriage return elsewhere belongs to its line. The last line needs no line
//! ending, and nothing follows a final line ending.

use crate::ascii::{lemma_boundary_after_ascii, lemma_boundary_at_ascii};
use crate::markers::{contains_marker, has_marker};
use vstd::prelude::*;
use vstd::string::StringSliceAdditionalSpecFns;
use vstd::utf8::{
    encode_utf8_valid_utf8, is_char_boundary, is_char_boundary_start_end_of_seq, valid_utf8,
};

verus! {

/// The line feed.
pub const LINE_FEED: u8 = 0x0a;

/// The carriage return.
pub const CARRIAGE_RETURN: u8 = 0x0d;

/// A line that holds a marker keyword: its number, counted from 1, and the
/// byte range of its text, without the line ending.
#[derive(Debug, Clone, Copy, PartialEq, Eq, Structural)]
pub struct LineSpan {
    pub line: usize,
    pub start: usize,
    pub end: usize,
}

/// How many line feeds stand before `i`.
pub open spec fn line_feeds_before(t: Seq<u8>, i: int) -> int
    decreases i,
{
    if i <= 0 {
        0
    } else {
        line_feeds_before(t, i - 1) + if t[i - 1] == LINE_FEED {
            1int
        } else {
            0int
        }
    }
}

/// The line that starts at `s` runs up to `stop`, which is the first line
/// feed from `s` on, or the end of the text.
pub open spec fn line_stops_at(t: Seq<u8>, s: int, stop: int) -> bool {
    &&& s <= stop <= t.len()
    &&& forall|i: int| s <= i < stop ==> #[trigger] t[i] != LINE_FEED
    &&& (stop == t.len() || t[stop] == LINE_FEED)
}

/// Where the text of the line `[s, stop)` ends: before the carriage return
/// that the line feed at `stop` follows, if there is one.
pub open spec fn text_end(t: Seq<u8>, s: int, stop: int) -> int {
    if s < stop < t.len() && t[stop - 1] == CARRIAGE_RETURN {
        stop - 1
    } else {
        stop
    }
}

/// `[s, e)` is the text of the line with the number `n`.
pub open spec fn is_line(t: Seq<u8>, n: int, s: int, e: int) -> bool {
    &&& 0 <= s < t.len()
    &&& (s == 0 || t[s - 1] == LINE_FEED)
    &&& n == line_feeds_before(t, s) + 1
    &&& exists|stop: int| #[trigger] line_stops_at(t, s, stop) && e == text_end(t, s, stop)
}

/// `[s, e)` is the text of the line `n`, and holds a marker keyword.
pub open spec fn is_annotation(t: Seq<u8>, n: int, s: int, e: int) -> bool {
    is_line(t, n, s, e) && has_marker(t, s, e)
}

/// `found` holds the line `n` with the range `[s, e)`.
pub open spec fn has_line(found: Seq<LineSpan>, n: int, s: int, e: int) -> bool {
    exists|k: int|
        0 <= k < found.len() && (#[trigger] found[k]).line == n && found[k].start == s
            && found[k].end == e
}

/// `found` lists the lines of `t` that hold a marker keyword, all of them,
/// each once, from the first to the last.
pub open spec fn lists_annotations(found: Seq<LineSpan>, t: Seq<u8>) -> bool {
    &&& forall|k: int|
        0 <= k < found.len() ==> is_annotation(
            t,
            (#[trigger] found[k]).line as int,
            found[k].start as int,
            found[k].end as int,
        )
    &&& forall|j: int, k: int|
        0 <= j < k < found.len() ==> (#[trigger] found[j]).line < (#[trigger] found[k]).line
    &&& forall|n: int, s: int, e: int| #[trigger]
        is_annotation(t, n, s, e) ==> has_line(found, n, s, e)
}

/// No more line feeds stand before `i` than bytes.
proof fn lemma_line_feeds_bounded(t: Seq<u8>, i: int)
    requires
        0 <= i,
    ensures
        0 <= line_feeds_before(t, i) <= i,
    decreases i,
{
    if i > 0 {
        lemma_line_feeds_bounded(t, i - 1);
    }
}

/// The lines of the window of bytes `t` that hold a marker keyword.
pub fn locate_in(t: &[u8]) -> (found: Vec<LineSpan>)
    ensures
        lists_annotations(found@, t@),
{
    let mut found: Vec<LineSpan> = Vec::new();
    let mut s: usize = 0;
    let mut feeds: usize = 0;
    while s < t.len()
        invariant
            s <= t.len(),
            s == 0 || s == t.len() || t@[s - 1] == LINE_FEED,
            s < t.len() ==> feeds == line_feeds_before(t@, s as int),
            forall|k: int|
                0 <= k < found.len() ==> is_annotation(
                    t@,
                    (#[trigger] found[k]).line as int,
                    found[k].start as int,
                    found[k].end as int,
                ) && (s < t.len() ==> found[k].line <= feeds),
            forall|j: int, k: int|
                0 <= j < k < found.len() ==> (#[trigger] found[j]).line < (#[trigger] found[k]).line,
            forall|m: int, a: int, b: int| #[trigger]
                is_annotation(t@, m, a, b) && a < s ==> has_line(found@, m, a, b),
        decreases t.len() - s,
    {
        let mut stop: usize = s;
        while stop < t.len() && t[stop] != LINE_FEED
            invariant
                s <= stop <= t.len(),
                forall|i: int| s <= i < stop ==> #[trigger] t@[i] != LINE_FEED,
                line_feeds_before(t@, stop as int) == line_feeds_before(t@, s as int),
            decreases t.len() - stop,
        {
            stop += 1;
        }
        let e: usize = if s < stop && stop < t.len() && t[stop - 1] == CARRIAGE_RETURN {
            stop - 1
        } else {
            stop
        };
        let ghost before = found@;
        proof {
            lemma_line_feeds_bounded(t@, s as int);
        }
        assert(line_stops_at(t@, s as int, stop as int));
        if contains_marker(t, s, e) {
            found.push(LineSpan { line: feeds + 1, start: s, end: e });
            assert(found@[before.len() as int].line == feeds + 1);
        }
        let next: usize = if stop < t.len() {
            stop + 1
        } else {
            stop
        };
        proof {
            assert forall|m: int, a: int, b: int| #[trigger]
                is_annotation(t@, m, a, b) && a < next implies has_line(found@, m, a, b) by {
                if a < s {
                    let k = choose|k: int|
                        0 <= k < before.len() && (#[trigger] before[k]).line == m && before[k].start
                            == a && before[k].end == b;
                    assert(found@[k] == before[k]);
                } else if a == s {
                    let other = choose|other: int| #[trigger]
                        line_stops_at(t@, a, other) && b == text_end(t@, a, other);
                    if other < stop {
                        assert(t@[other] != LINE_FEED);
                    } else if other > stop {
                        assert(t@[stop as int] != LINE_FEED);
                    }
                    assert(found@[before.len() as int].end == b);
                } else {
                    assert(t@[a - 1] != LINE_FEED);
                }
            }
        }
        if stop < t.len() {
            feeds += 1;
        }
        s = next;
    }
    found
}

/// Every line starts and ends where a character of `t` starts, or at the
/// end of `t`.
pub open spec fn lines_on_char_boundaries(found: Seq<LineSpan>, t: Seq<u8>) -> bool {
    forall|k: int|
        0 <= k < found.len() ==> is_char_boundary(t, (#[trigger] found[k]).start as int)
            && is_char_boundary(t, found[k].end as int)
}

/// The text of a line can be cut out of valid UTF-8: it starts and ends on a
/// character boundary.
pub proof fn lemma_line_on_char_boundaries(t: Seq<u8>, n: int, s: int, e: int)
    requires
        valid_utf8(t),
        is_line(t, n, s, e),
    ensures
        is_char_boundary(t, s),
        is_char_boundary(t, e),
{
    if s == 0 {
        is_char_boundary_start_end_of_seq(t);
    } else {
        lemma_boundary_after_ascii(t, s - 1);
    }
    let stop = choose|stop: int| #[trigger] line_stops_at(t, s, stop) && e == text_end(t, s, stop);
    lemma_boundary_at_ascii(t, e);
}

/// The lines of `text` that hold `FIXME` or `HACK` anywhere in them, in the
/// case given and whatever stands around the keyword, each with its number
/// and the byte range of its text.
pub fn locate(text: &str) -> (found: Vec<LineSpan>)
    ensures
        lists_annotations(found@, text.spec_bytes()),
        lines_on_char_boundaries(found@, text.spec_bytes()),
{
    let found = locate_in(text.as_bytes());
    proof {
        let t = text.spec_bytes();
        encode_utf8_valid_utf8(text@);
        assert forall|k: int| 0 <= k < found.len() implies is_char_boundary(
            t,
            (#[trigger] found[k]).start as int,
        ) && is_char_boundary(t, found[k].end as int) by {
            lemma_line_on_char_boundaries(
                t,
                found[k].line as int,
                found[k].start as int,
                found[k].end as int,
            );
        }
    }
    found
}

} // verus!
