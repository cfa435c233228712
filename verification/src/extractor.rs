//! Splitting the text of an annotation into hyperlinks, issue numbers and the
//! text between them.
//!
//! Hyperlinks are found first. Issue numbers are looked for only in the gaps
//! that the hyperlinks leave, each gap read as a text of its own, so that the
//! digits of a URL are never taken for an issue number. What then remains is
//! plain text, searched once per stretch for a bracketed capture.

use crate::ascii::{
    all_digits, is_digit, is_letter, lemma_boundary_after_ascii, lemma_boundary_at_ascii,
};
use crate::emphasis::{
    emphasis_starts_at, find_emphasis, is_emphasis, is_emphasis_of, EmphasisSpan,
};
use crate::issues::{
    is_issue_number, issue_numbers_in, issue_value, lists_issue_numbers, parse_issue_number,
    MIN_DIGITS, PERCENT, ZERO,
};
use crate::links::{
    display_start, find_links, lemma_display_start_on_char_boundary, link_display_start,
    link_spans, links_on_char_boundaries, ordered_links,
};
use vstd::prelude::*;
use vstd::string::StringSliceAdditionalSpecFns;
use vstd::utf8::{
    encode_utf8_valid_utf8, is_char_boundary, is_char_boundary_start_end_of_seq, valid_utf8,
};

verus! {

/// What a segment of an annotation's text is.
#[derive(Debug, Clone, Copy, PartialEq, Eq)]
pub enum SegmentKind {
    /// Text that is no reference, with the capture to set off in it, if any.
    Text { emphasis: Option<EmphasisSpan> },
    /// A hyperlink, shown from `display_start` on.
    Hyperlink { display_start: usize },
    /// The digits of an issue number, and the number where 64 bits hold it.
    IssueNumber { number: Option<u64> },
}

/// A byte range of an annotation's text, and what it is.
#[derive(Debug, Clone, Copy, PartialEq, Eq)]
pub struct Segment {
    pub start: usize,
    pub end: usize,
    pub kind: SegmentKind,
}

/// The second segment starts where the first ends.
pub open spec fn ends_meet(first: Segment, second: Segment) -> bool {
    first.end == second.start
}

/// Both segments are text.
pub open spec fn both_text(first: Segment, second: Segment) -> bool {
    first.kind is Text && second.kind is Text
}

/// The segments are not empty and cover `[lo, hi)` from left to right, each
/// starting where the one before ends.
pub open spec fn tiles(segs: Seq<Segment>, lo: int, hi: int) -> bool {
    &&& forall|i: int| 0 <= i < segs.len() ==> (#[trigger] segs[i]).start < segs[i].end
    &&& forall|i: int, j: int|
        0 <= i && j == i + 1 && j < segs.len() ==> ends_meet(#[trigger] segs[i], #[trigger] segs[j])
    &&& if segs.len() == 0 {
        lo == hi
    } else {
        segs[0].start == lo && segs[segs.len() - 1].end == hi
    }
}

/// No two text segments touch: text between two references is one segment.
pub open spec fn no_adjacent_text(segs: Seq<Segment>) -> bool {
    forall|i: int, j: int|
        0 <= i && j == i + 1 && j < segs.len() ==> !both_text(#[trigger] segs[i], #[trigger] segs[j])
}

/// `[s, e)` is a segment of `segs` and a hyperlink.
pub open spec fn has_hyperlink(segs: Seq<Segment>, s: int, e: int) -> bool {
    exists|i: int|
        0 <= i < segs.len() && (#[trigger] segs[i]).start == s && segs[i].end == e
            && segs[i].kind is Hyperlink
}

/// `[s, e)` is a segment of `segs` and an issue number.
pub open spec fn has_issue_number(segs: Seq<Segment>, s: int, e: int) -> bool {
    exists|i: int|
        0 <= i < segs.len() && (#[trigger] segs[i]).start == s && segs[i].end == e
            && segs[i].kind is IssueNumber
}

/// What a segment of a window without hyperlinks must be: text with the
/// first capture of its own range, or an issue number of the window with the
/// number that its digits spell.
pub open spec fn fits_window(seg: Segment, t: Seq<u8>, lo: int, hi: int) -> bool {
    match seg.kind {
        SegmentKind::Text { emphasis } => is_emphasis_of(
            emphasis,
            t,
            seg.start as int,
            seg.end as int,
        ),
        SegmentKind::Hyperlink { .. } => false,
        SegmentKind::IssueNumber { number } => is_issue_number(
            t,
            lo,
            hi,
            seg.start as int,
            seg.end as int,
        ) && number == issue_value(t, seg.start as int, seg.end as int),
    }
}

/// `segs` splits the window `[lo, hi)` of `t`, which holds no hyperlink:
/// the segments cover the window, the issue numbers among them are those of
/// the window, all of them, and one text segment fills each stretch between.
pub open spec fn splits_window(segs: Seq<Segment>, t: Seq<u8>, lo: int, hi: int) -> bool {
    &&& tiles(segs, lo, hi)
    &&& no_adjacent_text(segs)
    &&& forall|i: int| 0 <= i < segs.len() ==> fits_window(#[trigger] segs[i], t, lo, hi)
    &&& forall|s: int, e: int| #[trigger]
        is_issue_number(t, lo, hi, s, e) ==> has_issue_number(segs, s, e)
}

/// Where the gap before the hyperlink `k` starts; `k` may be the number of
/// hyperlinks, for the gap after the last one.
pub open spec fn gap_start(links: Seq<(usize, usize)>, k: int) -> int {
    if k <= 0 {
        0
    } else {
        links[k - 1].1 as int
    }
}

/// Where the gap before the hyperlink `k` ends.
pub open spec fn gap_end(links: Seq<(usize, usize)>, len: int, k: int) -> int {
    if k >= links.len() {
        len
    } else {
        links[k].0 as int
    }
}

/// `[s, e)` is an issue number of the gap before the hyperlink `k`.
#[verifier::opaque]
pub open spec fn is_issue_number_of_gap(
    t: Seq<u8>,
    links: Seq<(usize, usize)>,
    k: int,
    s: int,
    e: int,
) -> bool {
    &&& 0 <= k <= links.len()
    &&& is_issue_number(t, gap_start(links, k), gap_end(links, t.len() as int, k), s, e)
}

/// `[s, e)` is an issue number of one of the gaps that the hyperlinks leave.
pub open spec fn is_issue_segment(t: Seq<u8>, links: Seq<(usize, usize)>, s: int, e: int) -> bool {
    exists|k: int| #[trigger] is_issue_number_of_gap(t, links, k, s, e)
}

/// `[s, e)` is one of the hyperlinks.
pub open spec fn is_link(links: Seq<(usize, usize)>, s: int, e: int) -> bool {
    exists|k: int| 0 <= k < links.len() && (#[trigger] links[k]).0 == s && links[k].1 == e
}

/// What a segment of an annotation must be: text with the first capture of
/// its own range, one of the hyperlinks with its display start, or an issue
/// number of a gap with the number that its digits spell.
pub open spec fn fits(seg: Segment, t: Seq<u8>, links: Seq<(usize, usize)>) -> bool {
    match seg.kind {
        SegmentKind::Text { emphasis } => is_emphasis_of(
            emphasis,
            t,
            seg.start as int,
            seg.end as int,
        ),
        SegmentKind::Hyperlink { display_start: shown } => is_link(
            links,
            seg.start as int,
            seg.end as int,
        ) && shown == display_start(t, seg.start as int, seg.end as int),
        SegmentKind::IssueNumber { number } => is_issue_segment(
            t,
            links,
            seg.start as int,
            seg.end as int,
        ) && number == issue_value(t, seg.start as int, seg.end as int),
    }
}

/// `segs` annotates the text `t` whose hyperlinks are `links`: the segments
/// cover the text in order; the hyperlinks among them are `links`; the issue
/// numbers among them are those of the gaps between hyperlinks, all of them;
/// and one text segment fills each stretch that is left.
pub open spec fn annotates(segs: Seq<Segment>, t: Seq<u8>, links: Seq<(usize, usize)>) -> bool {
    &&& tiles(segs, 0, t.len() as int)
    &&& no_adjacent_text(segs)
    &&& forall|i: int| 0 <= i < segs.len() ==> fits(#[trigger] segs[i], t, links)
    &&& forall|s: int, e: int| #[trigger] is_link(links, s, e) ==> has_hyperlink(segs, s, e)
    &&& forall|s: int, e: int| #[trigger]
        is_issue_segment(t, links, s, e) ==> has_issue_number(segs, s, e)
}

proof fn lemma_tiles_push(segs: Seq<Segment>, seg: Segment, lo: int, mid: int)
    requires
        tiles(segs, lo, mid),
        seg.start == mid,
        seg.start < seg.end,
    ensures
        tiles(segs.push(seg), lo, seg.end as int),
{
    let after = segs.push(seg);
    assert forall|i: int, j: int| 0 <= i && j == i + 1 && j < after.len() implies ends_meet(
        #[trigger] after[i],
        #[trigger] after[j],
    ) by {
        if j < segs.len() {
            assert(after[i] == segs[i]);
            assert(after[j] == segs[j]);
        }
    }
}

proof fn lemma_tiles_concat(a: Seq<Segment>, b: Seq<Segment>, lo: int, mid: int, hi: int)
    requires
        tiles(a, lo, mid),
        tiles(b, mid, hi),
    ensures
        tiles(a + b, lo, hi),
{
    let ab = a + b;
    assert forall|i: int| 0 <= i < ab.len() implies (#[trigger] ab[i]).start < ab[i].end by {
        if i < a.len() {
            assert(ab[i] == a[i]);
        } else {
            assert(ab[i] == b[i - a.len()]);
        }
    }
    assert forall|i: int, j: int| 0 <= i && j == i + 1 && j < ab.len() implies ends_meet(
        #[trigger] ab[i],
        #[trigger] ab[j],
    ) by {
        if j < a.len() {
            assert(ab[i] == a[i]);
            assert(ab[j] == a[j]);
        } else if j == a.len() {
            assert(ab[i] == a[i]);
            assert(ab[j] == b[0]);
        } else {
            assert(ab[i] == b[i - a.len()]);
            assert(ab[j] == b[j - a.len()]);
        }
    }
    if ab.len() > 0 {
        if a.len() > 0 {
            assert(ab[0] == a[0]);
        } else {
            assert(ab[0] == b[0]);
        }
        if b.len() > 0 {
            assert(ab[ab.len() - 1] == b[b.len() - 1]);
        } else {
            assert(ab[ab.len() - 1] == a[a.len() - 1]);
        }
    }
}

proof fn lemma_no_adjacent_text_concat(a: Seq<Segment>, b: Seq<Segment>)
    requires
        no_adjacent_text(a),
        no_adjacent_text(b),
        a.len() > 0 && b.len() > 0 ==> !(a[a.len() - 1].kind is Text && b[0].kind is Text),
    ensures
        no_adjacent_text(a + b),
{
    let ab = a + b;
    assert forall|i: int, j: int| 0 <= i && j == i + 1 && j < ab.len() implies !both_text(
        #[trigger] ab[i],
        #[trigger] ab[j],
    ) by {
        if j < a.len() {
            assert(ab[i] == a[i]);
            assert(ab[j] == a[j]);
        } else if j == a.len() {
            assert(ab[i] == a[i]);
            assert(ab[j] == b[0]);
        } else {
            assert(ab[i] == b[i - a.len()]);
            assert(ab[j] == b[j - a.len()]);
        }
    }
}

proof fn lemma_has_issue_number_extends(a: Seq<Segment>, b: Seq<Segment>, s: int, e: int)
    requires
        has_issue_number(a, s, e) || has_issue_number(b, s, e),
    ensures
        has_issue_number(a + b, s, e),
{
    let ab = a + b;
    if has_issue_number(a, s, e) {
        let i = choose|i: int|
            0 <= i < a.len() && (#[trigger] a[i]).start == s && a[i].end == e
                && a[i].kind is IssueNumber;
        assert(ab[i] == a[i]);
    } else {
        let i = choose|i: int|
            0 <= i < b.len() && (#[trigger] b[i]).start == s && b[i].end == e
                && b[i].kind is IssueNumber;
        assert(ab[a.len() + i] == b[i]);
    }
}

proof fn lemma_has_hyperlink_extends(a: Seq<Segment>, b: Seq<Segment>, s: int, e: int)
    requires
        has_hyperlink(a, s, e) || has_hyperlink(b, s, e),
    ensures
        has_hyperlink(a + b, s, e),
{
    let ab = a + b;
    if has_hyperlink(a, s, e) {
        let i = choose|i: int|
            0 <= i < a.len() && (#[trigger] a[i]).start == s && a[i].end == e
                && a[i].kind is Hyperlink;
        assert(ab[i] == a[i]);
    } else {
        let i = choose|i: int|
            0 <= i < b.len() && (#[trigger] b[i]).start == s && b[i].end == e
                && b[i].kind is Hyperlink;
        assert(ab[a.len() + i] == b[i]);
    }
}

/// What splits the gap before the hyperlink `k` fits the whole text.
proof fn lemma_window_fits(gap: Seq<Segment>, t: Seq<u8>, links: Seq<(usize, usize)>, k: int)
    requires
        0 <= k <= links.len(),
        splits_window(gap, t, gap_start(links, k), gap_end(links, t.len() as int, k)),
    ensures
        forall|i: int| 0 <= i < gap.len() ==> fits(#[trigger] gap[i], t, links),
        forall|s: int, e: int| #[trigger]
            is_issue_number_of_gap(t, links, k, s, e) ==> has_issue_number(gap, s, e),
{
    reveal(is_issue_number_of_gap);
    assert forall|i: int| 0 <= i < gap.len() implies fits(#[trigger] gap[i], t, links) by {
        let seg = gap[i];
        assert(fits_window(seg, t, gap_start(links, k), gap_end(links, t.len() as int, k)));
        if seg.kind is IssueNumber {
            assert(is_issue_number_of_gap(t, links, k, seg.start as int, seg.end as int));
        }
    }
}

/// Splits a window that holds no hyperlink into its issue numbers and the
/// text between them.
pub fn split_window(t: &[u8], lo: usize, hi: usize) -> (segs: Vec<Segment>)
    requires
        lo <= hi <= t.len(),
    ensures
        splits_window(segs@, t@, lo as int, hi as int),
{
    let refs = issue_numbers_in(t, lo, hi);
    let mut segs: Vec<Segment> = Vec::new();
    let mut last: usize = lo;
    let mut k: usize = 0;
    while k < refs.len()
        invariant
            lo <= last <= hi <= t.len(),
            k <= refs.len(),
            lists_issue_numbers(refs@, t@, lo as int, hi as int),
            tiles(segs@, lo as int, last as int),
            no_adjacent_text(segs@),
            forall|i: int|
                0 <= i < segs.len() ==> fits_window(#[trigger] segs[i], t@, lo as int, hi as int),
            k == 0 ==> segs.len() == 0 && last == lo,
            k > 0 ==> segs.len() > 0 && segs[segs.len() - 1].kind is IssueNumber && last == refs[k
                - 1].end,
            forall|j: int|
                0 <= j < k ==> has_issue_number(
                    segs@,
                    (#[trigger] refs[j]).start as int,
                    refs[j].end as int,
                ),
        decreases refs.len() - k,
    {
        let found = refs[k];
        let ghost before = segs@;
        assert(is_issue_number(
            t@,
            lo as int,
            hi as int,
            refs[k as int].start as int,
            refs[k as int].end as int,
        ));
        if k > 0 {
            assert(refs[k - 1].end < refs[k as int].start);
        }
        if found.start > last {
            let emphasis = find_emphasis(t, last, found.start);
            let text = Segment { start: last, end: found.start, kind: SegmentKind::Text { emphasis } };
            proof {
                lemma_tiles_push(segs@, text, lo as int, last as int);
            }
            segs.push(text);
        }
        let number = parse_issue_number(t, found.start, found.end);
        let issue = Segment {
            start: found.start,
            end: found.end,
            kind: SegmentKind::IssueNumber { number },
        };
        proof {
            lemma_tiles_push(segs@, issue, lo as int, found.start as int);
        }
        segs.push(issue);
        proof {
            let after = segs@;
            assert(after[after.len() - 1] == issue);
            assert forall|i: int, j: int| 0 <= i && j == i + 1 && j < after.len() implies !both_text(
                #[trigger] after[i],
                #[trigger] after[j],
            ) by {
                if j < before.len() {
                    assert(after[i] == before[i]);
                    assert(after[j] == before[j]);
                } else if j == before.len() {
                    assert(after[i] == before[i]);
                }
            }
            assert forall|j: int| 0 <= j < k + 1 implies has_issue_number(
                after,
                (#[trigger] refs[j]).start as int,
                refs[j].end as int,
            ) by {
                assert(after =~= before + after.subrange(before.len() as int, after.len() as int));
                if j < k {
                    lemma_has_issue_number_extends(
                        before,
                        after.subrange(before.len() as int, after.len() as int),
                        refs[j].start as int,
                        refs[j].end as int,
                    );
                }
            }
        }
        last = found.end;
        k += 1;
    }
    if last < hi {
        let emphasis = find_emphasis(t, last, hi);
        let text = Segment { start: last, end: hi, kind: SegmentKind::Text { emphasis } };
        let ghost before = segs@;
        proof {
            lemma_tiles_push(segs@, text, lo as int, last as int);
        }
        segs.push(text);
        proof {
            let after = segs@;
            assert(after =~= before + seq![text]);
            lemma_no_adjacent_text_concat(before, seq![text]);
            assert forall|j: int| 0 <= j < refs.len() implies has_issue_number(
                after,
                (#[trigger] refs[j]).start as int,
                refs[j].end as int,
            ) by {
                lemma_has_issue_number_extends(
                    before,
                    seq![text],
                    refs[j].start as int,
                    refs[j].end as int,
                );
            }
        }
    } else {
        assert(last == hi) by {
            if k > 0 {
                assert(is_issue_number(
                    t@,
                    lo as int,
                    hi as int,
                    refs[k - 1].start as int,
                    refs[k - 1].end as int,
                ));
            }
        }
    }
    assert forall|s: int, e: int| #[trigger]
        is_issue_number(t@, lo as int, hi as int, s, e) implies has_issue_number(segs@, s, e) by {
        let j = choose|j: int|
            0 <= j < refs.len() && (#[trigger] refs[j]).start == s && refs[j].end == e;
        assert(has_issue_number(segs@, refs[j].start as int, refs[j].end as int));
    }
    segs
}

/// What holds of the segments once the hyperlinks before `k` are placed: the
/// text is covered up to the end of the last of them, and what `annotates`
/// asks holds of the gaps and hyperlinks passed so far.
spec fn annotates_up_to(
    segs: Seq<Segment>,
    t: Seq<u8>,
    links: Seq<(usize, usize)>,
    k: int,
) -> bool {
    &&& 0 <= k <= links.len()
    &&& tiles(segs, 0, gap_start(links, k))
    &&& no_adjacent_text(segs)
    &&& segs.len() > 0 ==> segs[segs.len() - 1].kind is Hyperlink
    &&& forall|i: int| 0 <= i < segs.len() ==> fits(#[trigger] segs[i], t, links)
    &&& forall|j: int|
        0 <= j < k ==> has_hyperlink(segs, (#[trigger] links[j]).0 as int, links[j].1 as int)
    &&& forall|j: int, s: int, e: int|
        0 <= j < k && #[trigger] is_issue_number_of_gap(t, links, j, s, e) ==> has_issue_number(
            segs,
            s,
            e,
        )
}

/// Adding the split of the next gap keeps what was placed and places the
/// issue numbers of that gap.
proof fn lemma_gap_added(
    before: Seq<Segment>,
    gap: Seq<Segment>,
    t: Seq<u8>,
    links: Seq<(usize, usize)>,
    k: int,
)
    requires
        annotates_up_to(before, t, links, k),
        splits_window(gap, t, gap_start(links, k), gap_end(links, t.len() as int, k)),
    ensures
        tiles(before + gap, 0, gap_end(links, t.len() as int, k)),
        no_adjacent_text(before + gap),
        forall|i: int| 0 <= i < (before + gap).len() ==> fits(#[trigger] (before + gap)[i], t, links),
        forall|j: int|
            0 <= j < k ==> has_hyperlink(
                before + gap,
                (#[trigger] links[j]).0 as int,
                links[j].1 as int,
            ),
        forall|j: int, s: int, e: int|
            0 <= j <= k && #[trigger] is_issue_number_of_gap(t, links, j, s, e)
                ==> has_issue_number(before + gap, s, e),
{
    let all = before + gap;
    lemma_window_fits(gap, t, links, k);
    lemma_tiles_concat(
        before,
        gap,
        0,
        gap_start(links, k),
        gap_end(links, t.len() as int, k),
    );
    lemma_no_adjacent_text_concat(before, gap);
    assert forall|i: int| 0 <= i < all.len() implies fits(#[trigger] all[i], t, links) by {
        if i < before.len() {
            assert(all[i] == before[i]);
        } else {
            assert(all[i] == gap[i - before.len()]);
        }
    }
    assert forall|j: int| 0 <= j < k implies has_hyperlink(
        all,
        (#[trigger] links[j]).0 as int,
        links[j].1 as int,
    ) by {
        lemma_has_hyperlink_extends(before, gap, links[j].0 as int, links[j].1 as int);
    }
    assert forall|j: int, s: int, e: int|
        0 <= j <= k && #[trigger] is_issue_number_of_gap(t, links, j, s, e) implies has_issue_number(
        all,
        s,
        e,
    ) by {
        lemma_has_issue_number_extends(before, gap, s, e);
    }
}

/// Adding the gap before the hyperlink `k`, and then that hyperlink, leaves
/// the segments as they must be for `k + 1`.
proof fn lemma_link_added(
    before: Seq<Segment>,
    gap: Seq<Segment>,
    link: Segment,
    t: Seq<u8>,
    links: Seq<(usize, usize)>,
    k: int,
)
    requires
        annotates_up_to(before, t, links, k),
        k < links.len(),
        splits_window(gap, t, gap_start(links, k), gap_end(links, t.len() as int, k)),
        link.start == links[k].0,
        link.end == links[k].1,
        link.start < link.end,
        link.kind is Hyperlink,
        fits(link, t, links),
    ensures
        annotates_up_to((before + gap).push(link), t, links, k + 1),
{
    let all = before + gap;
    let after = all.push(link);
    lemma_gap_added(before, gap, t, links, k);
    assert(after =~= all + seq![link]);
    lemma_tiles_push(all, link, 0, link.start as int);
    lemma_no_adjacent_text_concat(all, seq![link]);
    assert(after[after.len() - 1] == link);
    assert forall|i: int| 0 <= i < after.len() implies fits(#[trigger] after[i], t, links) by {
        if i < all.len() {
            assert(after[i] == all[i]);
        }
    }
    assert forall|j: int| 0 <= j < k + 1 implies has_hyperlink(
        after,
        (#[trigger] links[j]).0 as int,
        links[j].1 as int,
    ) by {
        if j < k {
            lemma_has_hyperlink_extends(all, seq![link], links[j].0 as int, links[j].1 as int);
        }
    }
    assert forall|j: int, s: int, e: int|
        0 <= j < k + 1 && #[trigger] is_issue_number_of_gap(
            t,
            links,
            j,
            s,
            e,
        ) implies has_issue_number(after, s, e) by {
        lemma_has_issue_number_extends(all, seq![link], s, e);
    }
}

/// Adding the gap after the last hyperlink completes the annotation.
proof fn lemma_last_gap_added(
    before: Seq<Segment>,
    gap: Seq<Segment>,
    t: Seq<u8>,
    links: Seq<(usize, usize)>,
)
    requires
        annotates_up_to(before, t, links, links.len() as int),
        splits_window(gap, t, gap_start(links, links.len() as int), t.len() as int),
    ensures
        annotates(before + gap, t, links),
{
    let all = before + gap;
    let n = links.len() as int;
    lemma_gap_added(before, gap, t, links, n);
    assert forall|s: int, e: int| #[trigger] is_link(links, s, e) implies has_hyperlink(
        all,
        s,
        e,
    ) by {
        let j = choose|j: int|
            0 <= j < links.len() && (#[trigger] links[j]).0 == s && links[j].1 == e;
        assert(has_hyperlink(all, links[j].0 as int, links[j].1 as int));
    }
    assert forall|s: int, e: int| #[trigger]
        is_issue_segment(t, links, s, e) implies has_issue_number(all, s, e) by {
        let j = choose|j: int| #[trigger] is_issue_number_of_gap(t, links, j, s, e);
        reveal(is_issue_number_of_gap);
        assert(0 <= j <= n);
    }
}

/// Every offset of the segment lies where a character of `t` starts, or at
/// the end of `t`: its two ends, and with them the ends of its capture and
/// the start of its display text.
pub open spec fn segment_on_char_boundaries(seg: Segment, t: Seq<u8>) -> bool {
    &&& is_char_boundary(t, seg.start as int)
    &&& is_char_boundary(t, seg.end as int)
    &&& match seg.kind {
        SegmentKind::Text { emphasis: Some(span) } => is_char_boundary(t, span.start as int)
            && is_char_boundary(t, span.end as int),
        SegmentKind::Text { emphasis: None } => true,
        SegmentKind::Hyperlink { display_start: shown } => is_char_boundary(t, shown as int),
        SegmentKind::IssueNumber { .. } => true,
    }
}

/// Every offset of every segment lies on a character boundary of `t`.
pub open spec fn on_char_boundaries(segs: Seq<Segment>, t: Seq<u8>) -> bool {
    forall|i: int| 0 <= i < segs.len() ==> segment_on_char_boundaries(#[trigger] segs[i], t)
}

/// A hyperlink or an issue number of an annotation starts and ends on a
/// character boundary.
proof fn lemma_reference_on_char_boundaries(
    seg: Segment,
    t: Seq<u8>,
    links: Seq<(usize, usize)>,
)
    requires
        valid_utf8(t),
        links_on_char_boundaries(links, t),
        fits(seg, t, links),
        !(seg.kind is Text),
    ensures
        is_char_boundary(t, seg.start as int),
        is_char_boundary(t, seg.end as int),
{
    match seg.kind {
        SegmentKind::Text { .. } => {},
        SegmentKind::Hyperlink { .. } => {
            let k = choose|k: int|
                0 <= k < links.len() && (#[trigger] links[k]).0 == seg.start && links[k].1
                    == seg.end;
            assert(is_char_boundary(t, links[k].0 as int));
        },
        SegmentKind::IssueNumber { .. } => {
            reveal(is_issue_number_of_gap);
            reveal(all_digits);
            let g = choose|g: int| #[trigger]
                is_issue_number_of_gap(t, links, g, seg.start as int, seg.end as int);
            assert(is_digit(t[seg.start as int]));
            assert(is_digit(t[seg.end - 1]));
            lemma_boundary_at_ascii(t, seg.start as int);
            lemma_boundary_after_ascii(t, seg.end - 1);
        },
    }
}

/// The capture of a text segment starts and ends on a character boundary.
proof fn lemma_emphasis_on_char_boundaries(
    found: EmphasisSpan,
    t: Seq<u8>,
    lo: int,
    hi: int,
)
    requires
        valid_utf8(t),
        is_emphasis_of(Some(found), t, lo, hi),
    ensures
        is_char_boundary(t, found.start as int),
        is_char_boundary(t, found.end as int),
{
    reveal(is_emphasis_of);
    let p = choose|p: int|
        {
            &&& #[trigger] is_emphasis(t, lo, hi, p, found.start as int, found.end as int)
            &&& forall|q: int|
                lo <= q < p ==> !#[trigger] emphasis_starts_at(t, lo, hi, q)
        };
    lemma_boundary_after_ascii(t, found.start - 1);
    lemma_boundary_at_ascii(t, found.end as int);
}

/// The segments of an annotation can be cut out of its text: where the
/// text is valid UTF-8 and its hyperlinks start and end on character
/// boundaries, so does every segment, every capture, and the display text of
/// every hyperlink.
pub proof fn lemma_segments_on_char_boundaries(
    segs: Seq<Segment>,
    t: Seq<u8>,
    links: Seq<(usize, usize)>,
)
    requires
        annotates(segs, t, links),
        valid_utf8(t),
        links_on_char_boundaries(links, t),
    ensures
        on_char_boundaries(segs, t),
{
    assert forall|i: int| 0 <= i < segs.len() implies segment_on_char_boundaries(
        #[trigger] segs[i],
        t,
    ) by {
        let seg = segs[i];
        assert(fits(seg, t, links));
        match seg.kind {
            SegmentKind::Text { emphasis } => {
                if i == 0 {
                    is_char_boundary_start_end_of_seq(t);
                } else {
                    assert(segs[i - 1].end == segs[i].start);
                    assert(fits(segs[i - 1], t, links));
                    lemma_reference_on_char_boundaries(segs[i - 1], t, links);
                }
                if i == segs.len() - 1 {
                    is_char_boundary_start_end_of_seq(t);
                } else {
                    assert(segs[i].end == segs[i + 1].start);
                    assert(fits(segs[i + 1], t, links));
                    lemma_reference_on_char_boundaries(segs[i + 1], t, links);
                }
                match emphasis {
                    Some(found) => {
                        lemma_emphasis_on_char_boundaries(
                            found,
                            t,
                            seg.start as int,
                            seg.end as int,
                        );
                    },
                    None => {},
                }
            },
            SegmentKind::Hyperlink { .. } => {
                lemma_reference_on_char_boundaries(seg, t, links);
                lemma_segment_in_text(segs, t.len() as int, i);
                lemma_display_start_on_char_boundary(t, seg.start as int, seg.end as int);
            },
            SegmentKind::IssueNumber { .. } => {
                lemma_reference_on_char_boundaries(seg, t, links);
            },
        }
    }
}

/// A segment of a tiling lies within what is tiled.
proof fn lemma_segment_in_text(segs: Seq<Segment>, len: int, i: int)
    requires
        tiles(segs, 0, len),
        0 <= i < segs.len(),
    ensures
        0 <= segs[i].start < segs[i].end <= len,
    decreases segs.len() - i,
{
    if i < segs.len() - 1 {
        lemma_segment_in_text(segs, len, i + 1);
        assert(segs[i].end == segs[i + 1].start);
    }
}

/// Splits `text`, whose hyperlinks are `links`, into segments that cover it
/// from left to right. Issue numbers are looked for in each gap between
/// hyperlinks by itself, and each stretch of text left over is searched for
/// its first capture.
pub fn annotate_with_links(text: &str, links: &Vec<(usize, usize)>) -> (segs: Vec<Segment>)
    requires
        ordered_links(links@, text.spec_bytes().len() as int),
    ensures
        annotates(segs@, text.spec_bytes(), links@),
{
    let t = text.as_bytes();
    let mut segs: Vec<Segment> = Vec::new();
    let mut last: usize = 0;
    let mut k: usize = 0;
    while k < links.len()
        invariant
            t@ == text.spec_bytes(),
            ordered_links(links@, t@.len() as int),
            k <= links.len(),
            last == gap_start(links@, k as int),
            last <= t.len(),
            annotates_up_to(segs@, t@, links@, k as int),
        decreases links.len() - k,
    {
        let (s, e) = links[k];
        let ghost before = segs@;
        assert(links[k as int].0 < links[k as int].1 <= t@.len());
        if k > 0 {
            assert(links[k - 1].1 <= links[k as int].0);
        }
        let mut gap = split_window(t, last, s);
        let ghost gap_segs = gap@;
        segs.append(&mut gap);
        let shown = link_display_start(t, s, e);
        let link = Segment { start: s, end: e, kind: SegmentKind::Hyperlink { display_start: shown } };
        segs.push(link);
        proof {
            assert(is_link(links@, s as int, e as int));
            lemma_link_added(before, gap_segs, link, t@, links@, k as int);
        }
        last = e;
        k += 1;
    }
    let ghost before = segs@;
    let mut gap = split_window(t, last, t.len());
    proof {
        lemma_last_gap_added(before, gap@, t@, links@);
    }
    segs.append(&mut gap);
    segs
}

/// Splits `text` into segments that cover it from left to right: its
/// hyperlinks, the issue numbers of the gaps between them, and the text that
/// is left, each stretch of it with its first capture.
pub fn annotate(text: &str) -> (segs: Vec<Segment>)
    ensures
        annotates(segs@, text.spec_bytes(), link_spans(text@)),
        ordered_links(link_spans(text@), text.spec_bytes().len() as int),
        on_char_boundaries(segs@, text.spec_bytes()),
{
    let links = find_links(text);
    let segs = annotate_with_links(text, &links);
    proof {
        encode_utf8_valid_utf8(text@);
        lemma_segments_on_char_boundaries(segs@, text.spec_bytes(), links@);
    }
    segs
}

/// What a reference points to.
#[derive(Debug, Clone, Copy, PartialEq, Eq, Structural)]
pub enum ReferenceKind {
    Hyperlink,
    IssueNumber,
}

/// A hyperlink or an issue number found in an annotation's text.
#[derive(Debug, Clone, Copy, PartialEq, Eq, Structural)]
pub struct ReferenceSpan {
    pub start: usize,
    pub end: usize,
    pub kind: ReferenceKind,
}

/// The references among the segments, in the order of the segments.
pub open spec fn references_of(segs: Seq<Segment>) -> Seq<ReferenceSpan>
    decreases segs.len(),
{
    if segs.len() == 0 {
        Seq::empty()
    } else {
        let last = segs[segs.len() - 1];
        let front = references_of(segs.drop_last());
        match last.kind {
            SegmentKind::Text { .. } => front,
            SegmentKind::Hyperlink { .. } => front.push(
                ReferenceSpan { start: last.start, end: last.end, kind: ReferenceKind::Hyperlink },
            ),
            SegmentKind::IssueNumber { .. } => front.push(
                ReferenceSpan { start: last.start, end: last.end, kind: ReferenceKind::IssueNumber },
            ),
        }
    }
}

/// The spans are not empty, lie in `[lo, hi)`, and each ends before the next
/// starts: they are sorted by their start, and no two overlap.
pub open spec fn spans_in_order(refs: Seq<ReferenceSpan>, lo: int, hi: int) -> bool {
    &&& forall|i: int| 0 <= i < refs.len() ==> lo <= (#[trigger] refs[i]).start < refs[i].end <= hi
    &&& forall|i: int, j: int|
        0 <= i < j < refs.len() ==> (#[trigger] refs[i]).end <= (#[trigger] refs[j]).start
}

/// The references of segments that tile a range are sorted by start and do
/// not overlap.
pub proof fn lemma_references_in_order(segs: Seq<Segment>, lo: int, hi: int)
    requires
        tiles(segs, lo, hi),
    ensures
        lo <= hi,
        spans_in_order(references_of(segs), lo, hi),
    decreases segs.len(),
{
    if segs.len() > 0 {
        let last = segs[segs.len() - 1];
        let front = segs.drop_last();
        assert forall|i: int, j: int| 0 <= i && j == i + 1 && j < front.len() implies ends_meet(
            #[trigger] front[i],
            #[trigger] front[j],
        ) by {
            assert(front[i] == segs[i]);
            assert(front[j] == segs[j]);
        }
        assert forall|i: int| 0 <= i < front.len() implies (#[trigger] front[i]).start
            < front[i].end by {
            assert(front[i] == segs[i]);
        }
        if front.len() > 0 {
            assert(front[0] == segs[0]);
            assert(front[front.len() - 1] == segs[segs.len() - 2]);
            assert(segs[segs.len() - 2].end == segs[segs.len() - 1].start);
        }
        assert(tiles(front, lo, last.start as int));
        lemma_references_in_order(front, lo, last.start as int);
    }
}

/// The references of an annotation are sorted by their start offset and do
/// not overlap, whatever the text and whatever hyperlinks were found in it.
pub proof fn lemma_annotation_references_in_order(
    segs: Seq<Segment>,
    t: Seq<u8>,
    links: Seq<(usize, usize)>,
)
    requires
        annotates(segs, t, links),
    ensures
        spans_in_order(references_of(segs), 0, t.len() as int),
{
    lemma_references_in_order(segs, 0, t.len() as int);
}

/// The gaps between hyperlinks come in order: a later gap starts where an
/// earlier one has ended, or after that.
proof fn lemma_gaps_in_order(links: Seq<(usize, usize)>, len: int, j: int, k: int)
    requires
        ordered_links(links, len),
        0 <= j < k <= links.len(),
    ensures
        gap_end(links, len, j) < gap_start(links, k),
{
    assert(links[j].0 < links[j].1);
    if j < k - 1 {
        assert(links[j].1 <= links[k - 1].0);
        assert(links[k - 1].0 < links[k - 1].1);
    }
}

/// The digits of a hyperlink are never read as an issue number: an issue
/// number of an annotation lies clear of every hyperlink.
pub proof fn lemma_issue_numbers_avoid_links(
    segs: Seq<Segment>,
    t: Seq<u8>,
    links: Seq<(usize, usize)>,
    s: int,
    e: int,
    k: int,
)
    requires
        annotates(segs, t, links),
        ordered_links(links, t.len() as int),
        has_issue_number(segs, s, e),
        0 <= k < links.len(),
    ensures
        e <= links[k].0 || links[k].1 <= s,
{
    reveal(is_issue_number_of_gap);
    let i = choose|i: int|
        0 <= i < segs.len() && (#[trigger] segs[i]).start == s && segs[i].end == e
            && segs[i].kind is IssueNumber;
    assert(fits(segs[i], t, links));
    let g = choose|g: int| #[trigger] is_issue_number_of_gap(t, links, g, s, e);
    if g < k {
        assert(links[g].1 <= links[k].0);
        assert(links[g].0 < links[g].1);
    } else if g > k + 1 {
        assert(links[k].1 <= links[g - 1].0);
        assert(links[g - 1].0 < links[g - 1].1);
    }
}

/// A number of one or two digits is never a reference, nor one that starts
/// with a zero: every issue number of an annotation is a run of three digits
/// or more whose first digit is not zero.
pub proof fn lemma_issue_numbers_are_long(
    segs: Seq<Segment>,
    t: Seq<u8>,
    links: Seq<(usize, usize)>,
    s: int,
    e: int,
)
    requires
        annotates(segs, t, links),
        has_issue_number(segs, s, e),
    ensures
        s + MIN_DIGITS <= e,
        all_digits(t, s, e),
        t[s] != ZERO,
{
    reveal(is_issue_number_of_gap);
    let i = choose|i: int|
        0 <= i < segs.len() && (#[trigger] segs[i]).start == s && segs[i].end == e
            && segs[i].kind is IssueNumber;
    assert(fits(segs[i], t, links));
    let g = choose|g: int| #[trigger] is_issue_number_of_gap(t, links, g, s, e);
}

/// The underscore, a word byte that is neither a letter nor a digit.
pub const UNDERSCORE: u8 = 0x5f;

/// The boundary law of issue numbers. Take a gap between hyperlinks and a
/// run of digits in it that cannot be made longer, has at least three digits
/// and does not start with a zero, and that no underscore touches. The run is
/// an issue number of the annotation if and only if no letter stands right
/// before it, and neither a letter nor a percent sign right after it; the
/// ends of the gap count as the ends of a text.
pub proof fn lemma_issue_number_boundaries(
    segs: Seq<Segment>,
    t: Seq<u8>,
    links: Seq<(usize, usize)>,
    k: int,
    s: int,
    e: int,
)
    requires
        annotates(segs, t, links),
        ordered_links(links, t.len() as int),
        0 <= k <= links.len(),
        gap_start(links, k) <= s,
        s + MIN_DIGITS <= e <= gap_end(links, t.len() as int, k),
        all_digits(t, s, e),
        t[s] != ZERO,
        s == gap_start(links, k) || !is_digit(t[s - 1]),
        e == gap_end(links, t.len() as int, k) || !is_digit(t[e]),
        s == gap_start(links, k) || t[s - 1] != UNDERSCORE,
        e == gap_end(links, t.len() as int, k) || t[e] != UNDERSCORE,
    ensures
        has_issue_number(segs, s, e) <==> {
            &&& (s == gap_start(links, k) || !is_letter(t[s - 1]))
            &&& (e == gap_end(links, t.len() as int, k) || (!is_letter(t[e]) && t[e] != PERCENT))
        },
{
    reveal(is_issue_number_of_gap);
    let len = t.len() as int;
    let lo = gap_start(links, k);
    let hi = gap_end(links, len, k);
    assert(0 <= lo && hi <= len) by {
        if k > 0 {
            assert(links[k - 1].0 < links[k - 1].1 <= len);
        }
        if k < links.len() {
            assert(links[k].0 < links[k].1 <= len);
        }
    }
    if has_issue_number(segs, s, e) {
        let i = choose|i: int|
            0 <= i < segs.len() && (#[trigger] segs[i]).start == s && segs[i].end == e
                && segs[i].kind is IssueNumber;
        assert(fits(segs[i], t, links));
        let g = choose|g: int| #[trigger] is_issue_number_of_gap(t, links, g, s, e);
        if g < k {
            lemma_gaps_in_order(links, len, g, k);
        } else if k < g {
            lemma_gaps_in_order(links, len, k, g);
        }
        assert(g == k);
    }
    if (s == lo || !is_letter(t[s - 1])) && (e == hi || (!is_letter(t[e]) && t[e] != PERCENT)) {
        assert(is_issue_number(t, lo, hi, s, e));
        assert(is_issue_number_of_gap(t, links, k, s, e));
        assert(is_issue_segment(t, links, s, e));
    }
}

/// The references among the segments, in order.
pub fn reference_spans(segs: &Vec<Segment>) -> (refs: Vec<ReferenceSpan>)
    ensures
        refs@ == references_of(segs@),
{
    let mut refs: Vec<ReferenceSpan> = Vec::new();
    let mut i: usize = 0;
    while i < segs.len()
        invariant
            i <= segs.len(),
            refs@ == references_of(segs@.take(i as int)),
        decreases segs.len() - i,
    {
        let seg = segs[i];
        assert(segs@.take(i + 1).drop_last() =~= segs@.take(i as int));
        match seg.kind {
            SegmentKind::Text { .. } => {},
            SegmentKind::Hyperlink { .. } => {
                refs.push(
                    ReferenceSpan { start: seg.start, end: seg.end, kind: ReferenceKind::Hyperlink },
                );
            },
            SegmentKind::IssueNumber { .. } => {
                refs.push(
                    ReferenceSpan {
                        start: seg.start,
                        end: seg.end,
                        kind: ReferenceKind::IssueNumber,
                    },
                );
            },
        }
        i += 1;
    }
    assert(segs@.take(segs.len() as int) =~= segs@);
    refs
}

/// The hyperlinks and issue numbers of `text`, sorted by their start, no two
/// of them overlapping.
pub fn references(text: &str) -> (refs: Vec<ReferenceSpan>)
    ensures
        spans_in_order(refs@, 0, text.spec_bytes().len() as int),
        exists|segs: Seq<Segment>|
            annotates(segs, text.spec_bytes(), link_spans(text@)) && refs@ == #[trigger] references_of(
                segs,
            ),
{
    let segs = annotate(text);
    proof {
        lemma_references_in_order(segs@, 0, text.spec_bytes().len() as int);
    }
    reference_spans(&segs)
}

} // verus!
