//! Numeric references to tracker issues in free text.

use crate::ascii::{all_digits, digit, is_digit, is_word, word};
use vstd::prelude::*;
use vstd::string::StringSliceAdditionalSpecFns;

verus! {

/// The byte range of a digit run that reads as an issue number.
#[derive(Debug, Clone, Copy, PartialEq, Eq, Structural)]
pub struct IssueReference {
    pub start: usize,
    pub end: usize,
}

/// The percent sign.
pub const PERCENT: u8 = 0x25;

/// The digit zero.
pub const ZERO: u8 = 0x30;

/// The fewest digits that an issue number has.
pub const MIN_DIGITS: usize = 3;

/// `[s, e)` is an issue number of the window `[lo, hi)` of `t`: at least
/// three digits, the first of them not zero, with no word byte before the run
/// and neither a word byte nor a percent sign after it. The ends of the
/// window bound a run as the ends of a text do.
pub open spec fn is_issue_number(t: Seq<u8>, lo: int, hi: int, s: int, e: int) -> bool {
    &&& 0 <= lo <= s
    &&& s + MIN_DIGITS <= e <= hi <= t.len()
    &&& all_digits(t, s, e)
    &&& t[s] != ZERO
    &&& (s == lo || !is_word(t[s - 1]))
    &&& (e == hi || (!is_word(t[e]) && t[e] != PERCENT))
}

/// `refs` holds the range `[s, e)`.
pub open spec fn has_reference(refs: Seq<IssueReference>, s: int, e: int) -> bool {
    exists|k: int| 0 <= k < refs.len() && (#[trigger] refs[k]).start == s && refs[k].end == e
}

/// `refs` lists the issue numbers of the window `[lo, hi)` of `t`, all of
/// them, each once, from left to right.
pub open spec fn lists_issue_numbers(
    refs: Seq<IssueReference>,
    t: Seq<u8>,
    lo: int,
    hi: int,
) -> bool {
    &&& forall|k: int|
        0 <= k < refs.len() ==> is_issue_number(
            t,
            lo,
            hi,
            (#[trigger] refs[k]).start as int,
            refs[k].end as int,
        )
    &&& forall|j: int, k: int|
        0 <= j < k < refs.len() ==> (#[trigger] refs[j]).end < (#[trigger] refs[k]).start
    &&& forall|s: int, e: int| #[trigger]
        is_issue_number(t, lo, hi, s, e) ==> has_reference(refs, s, e)
}

/// The issue numbers of the window `[lo, hi)` of `t`.
pub fn issue_numbers_in(t: &[u8], lo: usize, hi: usize) -> (refs: Vec<IssueReference>)
    requires
        lo <= hi <= t.len(),
    ensures
        lists_issue_numbers(refs@, t@, lo as int, hi as int),
{
    let mut refs: Vec<IssueReference> = Vec::new();
    let mut i: usize = lo;
    while i < hi
        invariant
            lo <= i <= hi <= t.len(),
            forall|k: int|
                0 <= k < refs.len() ==> is_issue_number(
                    t@,
                    lo as int,
                    hi as int,
                    (#[trigger] refs[k]).start as int,
                    refs[k].end as int,
                ) && refs[k].end <= i,
            forall|j: int, k: int|
                0 <= j < k < refs.len() ==> (#[trigger] refs[j]).end < (#[trigger] refs[k]).start,
            forall|s: int, e: int| #[trigger]
                is_issue_number(t@, lo as int, hi as int, s, e) && s < i ==> has_reference(
                    refs@,
                    s,
                    e,
                ),
        decreases hi - i,
    {
        reveal(all_digits);
        if digit(t[i]) {
            let mut j: usize = i + 1;
            while j < hi && digit(t[j])
                invariant
                    i < j <= hi <= t.len(),
                    all_digits(t@, i as int, j as int),
                decreases hi - j,
            {
                reveal(all_digits);
                j += 1;
            }
            let left = i == lo || !word(t[i - 1]);
            let right = j == hi || (!word(t[j]) && t[j] != PERCENT);
            let ghost before = refs@;
            if j - i >= MIN_DIGITS && t[i] != ZERO && left && right {
                refs.push(IssueReference { start: i, end: j });
                assert(refs@[before.len() as int].start == i);
            }
            assert forall|s: int, e: int| #[trigger]
                is_issue_number(t@, lo as int, hi as int, s, e) && s < j implies has_reference(
                refs@,
                s,
                e,
            ) by {
                if s < i {
                    let k = choose|k: int|
                        0 <= k < before.len() && (#[trigger] before[k]).start == s && before[k].end
                            == e;
                    assert(refs@[k] == before[k]);
                } else if s == i {
                    if e < j {
                        assert(is_digit(t@[e]));
                    } else if e > j {
                        assert(is_digit(t@[j as int]));
                    }
                    assert(refs@[before.len() as int].end == e);
                } else {
                    assert(is_digit(t@[s - 1]));
                }
            }
            i = j;
        } else {
            assert forall|s: int, e: int| #[trigger]
                is_issue_number(t@, lo as int, hi as int, s, e) && s < i + 1 implies has_reference(
                refs@,
                s,
                e,
            ) by {
                if s == i {
                    assert(is_digit(t@[s]));
                }
            }
            i += 1;
        }
    }
    refs
}

/// The number that the bytes of `[s, e)` spell in base ten.
pub open spec fn decimal_value(t: Seq<u8>, s: int, e: int) -> nat
    decreases e - s,
{
    if e <= s {
        0
    } else {
        decimal_value(t, s, e - 1) * 10 + (t[e - 1] - ZERO) as nat
    }
}

/// The number of the issue that `[s, e)` names, where 64 bits hold it.
pub open spec fn issue_value(t: Seq<u8>, s: int, e: int) -> Option<u64> {
    if decimal_value(t, s, e) <= u64::MAX {
        Some(decimal_value(t, s, e) as u64)
    } else {
        None
    }
}

/// More digits never spell a smaller number.
pub proof fn lemma_decimal_value_grows(t: Seq<u8>, s: int, k: int, e: int)
    requires
        s <= k <= e,
        all_digits(t, s, e),
    ensures
        decimal_value(t, s, k) <= decimal_value(t, s, e),
    decreases e - k,
{
    reveal(all_digits);
    if k < e {
        lemma_decimal_value_grows(t, s, k, e - 1);
        assert(is_digit(t[e - 1]));
    }
}

/// Reads the digits of `[s, e)` as a number, unless 64 bits cannot hold it.
pub fn parse_issue_number(t: &[u8], s: usize, e: usize) -> (number: Option<u64>)
    requires
        s <= e <= t.len(),
        all_digits(t@, s as int, e as int),
    ensures
        number == issue_value(t@, s as int, e as int),
{
    let mut acc: u64 = 0;
    let mut i: usize = s;
    while i < e
        invariant
            s <= i <= e <= t.len(),
            all_digits(t@, s as int, e as int),
            acc == decimal_value(t@, s as int, i as int),
        decreases e - i,
    {
        reveal(all_digits);
        assert(is_digit(t@[i as int]));
        let d: u64 = (t[i] - ZERO) as u64;
        if acc > (u64::MAX - d) / 10 {
            proof {
                lemma_decimal_value_grows(t@, s as int, i + 1, e as int);
            }
            return None;
        }
        acc = acc * 10 + d;
        i += 1;
    }
    Some(acc)
}

/// The issue numbers of `text`, from left to right: every run of at least
/// three digits that does not start with a zero, has no word byte before it
/// and has neither a word byte nor a percent sign after it. A `#` before the
/// number is not asked for.
pub fn issue_references(text: &str) -> (refs: Vec<IssueReference>)
    ensures
        lists_issue_numbers(refs@, text.spec_bytes(), 0, text.spec_bytes().len() as int),
{
    let bytes = text.as_bytes();
    issue_numbers_in(bytes, 0, bytes.len())
}

} // verus!
