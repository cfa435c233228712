//! Hyperlinks in free text: where they lie, and what of them is shown.

use crate::ascii::lemma_boundary_after_ascii;
use vstd::prelude::*;
use vstd::string::StringSliceAdditionalSpecFns;
use vstd::utf8::{is_char_boundary, valid_utf8};

verus! {

/// The hyperlinks of a text as `(start, end)` byte ranges, in the order in
/// which they are found. Which stretches of a text read as a URL or an e-mail
/// address is the link finder's knowledge, and is not restated here.
pub uninterp spec fn link_spans(text: Seq<char>) -> Seq<(usize, usize)>;

/// The ranges are not empty, lie within `len` bytes, follow one another from
/// left to right and do not overlap.
pub open spec fn ordered_links(links: Seq<(usize, usize)>, len: int) -> bool {
    &&& forall|k: int| 0 <= k < links.len() ==> (#[trigger] links[k]).0 < links[k].1 <= len
    &&& forall|j: int, k: int|
        0 <= j < k < links.len() ==> (#[trigger] links[j]).1 <= (#[trigger] links[k]).0
}

/// Every range starts and ends where a character of `t` starts, or at the
/// end of `t`.
pub open spec fn links_on_char_boundaries(links: Seq<(usize, usize)>, t: Seq<u8>) -> bool {
    forall|k: int|
        0 <= k < links.len() ==> is_char_boundary(t, (#[trigger] links[k]).0 as int)
            && is_char_boundary(t, links[k].1 as int)
}

/// Calls `linkify::LinkFinder::links` on a finder with the default options
/// and collects the `start()` and `end()` of each `Link` that it yields.
///
/// Believed, not proved: the ranges are the named `link_spans` of the text;
/// and, as the iterator's `next` shows, each range is not empty and ends
/// within the text (a link holds its trigger byte, `:` or `@`, and what was
/// scanned to both sides of it), and each search starts where the link
/// before ended, so that the ranges come in order without overlap. Both ends
/// of a range are offsets at which `Link::as_str` and the next search slice
/// the text, so they lie on character boundaries.
#[verifier::external_body]
pub(crate) fn find_links(text: &str) -> (links: Vec<(usize, usize)>)
    ensures
        links@ == link_spans(text@),
        ordered_links(links@, text.spec_bytes().len() as int),
        links_on_char_boundaries(links@, text.spec_bytes()),
{
    linkify::LinkFinder::new().links(text).map(|link| (link.start(), link.end())).collect()
}

/// The scheme that is dropped from the front of a link's display text:
/// `https://`.
pub open spec fn scheme() -> Seq<u8> {
    seq![0x68u8, 0x74u8, 0x74u8, 0x70u8, 0x73u8, 0x3au8, 0x2fu8, 0x2fu8]
}

/// The host label that is dropped after the scheme: `github.com/`.
pub open spec fn host() -> Seq<u8> {
    seq![
        0x67u8,
        0x69u8,
        0x74u8,
        0x68u8,
        0x75u8,
        0x62u8,
        0x2eu8,
        0x63u8,
        0x6fu8,
        0x6du8,
        0x2fu8,
    ]
}

/// `pat` stands at `from` and ends at or before `to`.
pub open spec fn starts_with(t: Seq<u8>, from: int, to: int, pat: Seq<u8>) -> bool {
    &&& 0 <= from
    &&& from + pat.len() <= to <= t.len()
    &&& forall|i: int| 0 <= i < pat.len() ==> t[from + i] == #[trigger] pat[i]
}

/// The first offset at or after `from` at which `pat` does not stand, going
/// from one copy of `pat` to the next.
pub open spec fn skip_repeats(t: Seq<u8>, from: int, to: int, pat: Seq<u8>) -> int
    decreases to - from,
{
    if pat.len() > 0 && starts_with(t, from, to, pat) {
        skip_repeats(t, from + pat.len(), to, pat)
    } else {
        from
    }
}

/// Where the display text of the link `[s, e)` starts: after every leading
/// `https://`, and after every `github.com/` that then leads.
pub open spec fn display_start(t: Seq<u8>, s: int, e: int) -> int {
    skip_repeats(t, skip_repeats(t, s, e, scheme()), e, host())
}

/// What is skipped lies within the window.
pub proof fn lemma_skip_repeats_bounds(t: Seq<u8>, from: int, to: int, pat: Seq<u8>)
    requires
        0 <= from <= to <= t.len(),
    ensures
        from <= skip_repeats(t, from, to, pat) <= to,
    decreases to - from,
{
    if pat.len() > 0 && starts_with(t, from, to, pat) {
        lemma_skip_repeats_bounds(t, from + pat.len(), to, pat);
    }
}

/// What is skipped ends with the last byte of `pat`.
pub proof fn lemma_skip_repeats_end(t: Seq<u8>, from: int, to: int, pat: Seq<u8>)
    requires
        0 <= from <= to <= t.len(),
        pat.len() > 0,
    ensures
        skip_repeats(t, from, to, pat) == from || (from < skip_repeats(t, from, to, pat)
            && t[skip_repeats(t, from, to, pat) - 1] == pat[pat.len() - 1]),
    decreases to - from,
{
    if starts_with(t, from, to, pat) {
        lemma_skip_repeats_bounds(t, from + pat.len(), to, pat);
        lemma_skip_repeats_end(t, from + pat.len(), to, pat);
        assert(t[from + (pat.len() - 1)] == pat[pat.len() - 1]);
    }
}

/// The display text of a link starts on a character boundary, where the
/// link does.
pub proof fn lemma_display_start_on_char_boundary(t: Seq<u8>, s: int, e: int)
    requires
        valid_utf8(t),
        0 <= s <= e <= t.len(),
        is_char_boundary(t, s),
    ensures
        s <= display_start(t, s, e) <= e,
        is_char_boundary(t, display_start(t, s, e)),
{
    let after_scheme = skip_repeats(t, s, e, scheme());
    let shown = display_start(t, s, e);
    lemma_skip_repeats_bounds(t, s, e, scheme());
    lemma_skip_repeats_end(t, s, e, scheme());
    lemma_skip_repeats_bounds(t, after_scheme, e, host());
    lemma_skip_repeats_end(t, after_scheme, e, host());
    assert(scheme()[scheme().len() - 1] == 0x2f);
    assert(host()[host().len() - 1] == 0x2f);
    if shown != s {
        lemma_boundary_after_ascii(t, shown - 1);
    }
}

/// Whether `pat` stands at `from`.
fn stands_at(t: &[u8], from: usize, to: usize, pat: &[u8]) -> (r: bool)
    requires
        from <= to <= t.len(),
    ensures
        r == starts_with(t@, from as int, to as int, pat@),
{
    if pat.len() > to - from {
        return false;
    }
    let mut i: usize = 0;
    while i < pat.len()
        invariant
            from + pat.len() <= to <= t.len(),
            i <= pat.len(),
            forall|k: int| 0 <= k < i ==> t@[from + k] == #[trigger] pat@[k],
        decreases pat.len() - i,
    {
        if t[from + i] != pat[i] {
            return false;
        }
        i += 1;
    }
    true
}

/// Skips the copies of `pat` that stand one after another from `from` on.
fn skip(t: &[u8], from: usize, to: usize, pat: &[u8]) -> (at: usize)
    requires
        from <= to <= t.len(),
    ensures
        at == skip_repeats(t@, from as int, to as int, pat@),
        from <= at <= to,
{
    let mut at: usize = from;
    if pat.len() == 0 {
        return at;
    }
    while stands_at(t, at, to, pat)
        invariant
            from <= at <= to <= t.len(),
            pat.len() > 0,
            skip_repeats(t@, at as int, to as int, pat@) == skip_repeats(
                t@,
                from as int,
                to as int,
                pat@,
            ),
        decreases to - at,
    {
        at += pat.len();
    }
    at
}

/// Where the display text of the link `[s, e)` of `t` starts: the link
/// without its leading scheme and well-known host label.
pub fn link_display_start(t: &[u8], s: usize, e: usize) -> (at: usize)
    requires
        s <= e <= t.len(),
    ensures
        at == display_start(t@, s as int, e as int),
        s <= at <= e,
{
    let scheme_bytes: [u8; 8] = [0x68, 0x74, 0x74, 0x70, 0x73, 0x3a, 0x2f, 0x2f];
    let host_bytes: [u8; 11] = [0x67, 0x69, 0x74, 0x68, 0x75, 0x62, 0x2e, 0x63, 0x6f, 0x6d, 0x2f];
    assert(scheme_bytes@ =~= scheme());
    assert(host_bytes@ =~= host());
    let after_scheme = skip(t, s, e, scheme_bytes.as_slice());
    skip(t, after_scheme, e, host_bytes.as_slice())
}

} // verus!
