//! The line that holds a byte offset, found by binary search over the
//! offsets at which the lines of a text start.

use crate::locator::{line_feeds_before, LINE_FEED};
use vstd::prelude::*;

verus! {

/// The offsets at which lines start in the first `i` bytes of `t`, and the
/// start that a line feed at `i - 1` opens: 0, and the offset after every
/// line feed, from left to right.
pub open spec fn line_starts_upto(t: Seq<u8>, i: int) -> Seq<usize>
    decreases i,
{
    if i <= 0 {
        seq![0usize]
    } else if t[i - 1] == LINE_FEED {
        line_starts_upto(t, i - 1).push(i as usize)
    } else {
        line_starts_upto(t, i - 1)
    }
}

/// The offsets at which the lines of `t` start. A final line feed opens one
/// more start, at the end of the text.
pub open spec fn line_starts(t: Seq<u8>) -> Seq<usize> {
    line_starts_upto(t, t.len() as int)
}

/// The starts begin with 0 and rise strictly.
pub open spec fn rising(starts: Seq<usize>) -> bool {
    &&& starts.len() > 0
    &&& starts[0] == 0
    &&& forall|i: int, j: int| 0 <= i < j < starts.len() ==> starts[i] < starts[j]
}

/// `line`, counted from 1, is the line of `starts` that holds `offset`: the
/// last line that starts at or before it.
pub open spec fn holds_offset(starts: Seq<usize>, line: int, offset: int) -> bool {
    &&& 1 <= line <= starts.len()
    &&& starts[line - 1] <= offset
    &&& line < starts.len() ==> offset < starts[line]
}

/// The starts found in the first `i` bytes: there is one more of them than
/// line feeds, they rise, and none lies beyond `i`.
pub proof fn lemma_line_starts_upto(t: Seq<u8>, i: int)
    requires
        0 <= i <= t.len(),
        t.len() <= usize::MAX,
    ensures
        line_starts_upto(t, i).len() == line_feeds_before(t, i) + 1,
        rising(line_starts_upto(t, i)),
        forall|k: int|
            0 <= k < line_starts_upto(t, i).len() ==> #[trigger] line_starts_upto(t, i)[k] <= i,
    decreases i,
{
    if i > 0 {
        lemma_line_starts_upto(t, i - 1);
    }
}

/// What was found in the first `i` bytes stays in front as more bytes are
/// read, and what is found later lies beyond `i`.
pub proof fn lemma_line_starts_grow(t: Seq<u8>, i: int, j: int)
    requires
        0 <= i <= j <= t.len(),
        t.len() <= usize::MAX,
    ensures
        line_starts_upto(t, i).len() <= line_starts_upto(t, j).len(),
        forall|k: int|
            0 <= k < line_starts_upto(t, i).len() ==> line_starts_upto(t, j)[k]
                == #[trigger] line_starts_upto(t, i)[k],
        forall|k: int|
            line_starts_upto(t, i).len() <= k < line_starts_upto(t, j).len() ==> i
                < #[trigger] line_starts_upto(t, j)[k],
    decreases j - i,
{
    if i < j {
        lemma_line_starts_grow(t, i, j - 1);
    }
}

/// The line that the index gives for an offset is the line that counting
/// line feeds gives: one more than the number of line feeds before it.
pub proof fn lemma_line_counts_line_feeds(t: Seq<u8>, line: int, offset: int)
    requires
        t.len() <= usize::MAX,
        0 <= offset <= t.len(),
        holds_offset(line_starts(t), line, offset),
    ensures
        line == line_feeds_before(t, offset) + 1,
{
    let all = line_starts(t);
    let front = line_starts_upto(t, offset);
    lemma_line_starts_upto(t, offset);
    lemma_line_starts_upto(t, t.len() as int);
    lemma_line_starts_grow(t, offset, t.len() as int);
    if line < front.len() {
        assert(all[line] == front[line]);
    } else if line > front.len() {
        assert(offset < all[line - 1]);
    }
}

/// The starts of the lines of a text, for looking up the line of an offset.
pub struct LineIndex {
    starts: Vec<usize>,
}

impl View for LineIndex {
    type V = Seq<usize>;

    closed spec fn view(&self) -> Seq<usize> {
        self.starts@
    }
}

impl LineIndex {
    #[verifier::type_invariant]
    spec fn starts_rise(self) -> bool {
        rising(self.starts@)
    }

    /// Reads the text once and notes where its lines start.
    pub fn new(t: &[u8]) -> (index: LineIndex)
        ensures
            index@ == line_starts(t@),
            rising(index@),
    {
        let mut starts: Vec<usize> = Vec::new();
        starts.push(0);
        let mut i: usize = 0;
        while i < t.len()
            invariant
                i <= t.len(),
                starts@ == line_starts_upto(t@, i as int),
            decreases t.len() - i,
        {
            if t[i] == LINE_FEED {
                starts.push(i + 1);
            }
            i += 1;
        }
        proof {
            lemma_line_starts_upto(t@, t.len() as int);
        }
        LineIndex { starts }
    }

    /// How many lines start in the text.
    pub fn len(&self) -> (n: usize)
        ensures
            n == self@.len(),
            n > 0,
    {
        proof {
            use_type_invariant(self);
        }
        self.starts.len()
    }

    /// The line, counted from 1, that holds the byte at `offset`: the last
    /// line that starts at or before it.
    pub fn line_of(&self, offset: usize) -> (line: usize)
        ensures
            holds_offset(self@, line as int, offset as int),
    {
        proof {
            use_type_invariant(self);
        }
        let mut lo: usize = 0;
        let mut hi: usize = self.starts.len();
        while hi - lo > 1
            invariant
                rising(self.starts@),
                0 <= lo < hi <= self.starts.len(),
                self.starts@[lo as int] <= offset,
                hi < self.starts.len() ==> offset < self.starts@[hi as int],
            decreases hi - lo,
        {
            let mid = lo + (hi - lo) / 2;
            if self.starts[mid] <= offset {
                lo = mid;
            } else {
                hi = mid;
            }
        }
        lo + 1
    }
}

} // verus!
