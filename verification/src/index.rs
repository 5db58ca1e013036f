//! The index of the source text, and what a search in it finds.

use std::ops::Range;
use suffix_array::SuffixArray;
use vstd::prelude::*;

verus! {

/// Max length of the source data.
pub const MAX_LENGTH: usize = 0xffff_fffc;

/// `suffix_array::SuffixArray`, the sorted suffixes of a text. Nothing inside a value is
/// visible here; `indexed_text` names the text that one was built from.
#[verifier::external_type_specification]
#[verifier::external_body]
pub struct ExSuffixArray<'s>(SuffixArray<'s>);

/// The text that an index built by `SuffixArray::new` holds. An index that came about in another
/// way need not have one.
pub uninterp spec fn indexed_text(sa: SuffixArray) -> Option<Seq<u8>>;

/// The range that `SuffixArray::search_lcp` finds for a pattern in a text: its first position
/// and the position behind its last.
pub uninterp spec fn lcp_range(text: Seq<u8>, pat: Seq<u8>) -> (int, int);

/// `sub` stands in `text` at position `p`.
pub open spec fn occurs_at(text: Seq<u8>, sub: Seq<u8>, p: int) -> bool {
    &&& 0 <= p
    &&& p + sub.len() <= text.len()
    &&& text.subrange(p, p + sub.len()) == sub
}

/// `sub` stands somewhere in `text`.
pub open spec fn occurs(text: Seq<u8>, sub: Seq<u8>) -> bool {
    exists|p: int| occurs_at(text, sub, p)
}

/// Where and how long the match found for `pat` in `text` is. A range that does not lie in the
/// text, or is longer than the pattern, counts as no match.
pub open spec fn extent(text: Seq<u8>, pat: Seq<u8>) -> (int, int) {
    let (start, end) = lcp_range(text, pat);
    if 0 <= start <= end <= text.len() && end - start <= pat.len() {
        (start, end - start)
    } else {
        (0, 0)
    }
}

/// `SuffixArray::new` sorts the suffixes of `s` and keeps `s` beside them. It panics on more
/// than `MAX_LENGTH` bytes.
pub assume_specification<'s>[ SuffixArray::<'s>::new ](s: &'s [u8]) -> (sa: SuffixArray<'s>)
    requires
        s@.len() <= MAX_LENGTH,
    ensures
        indexed_text(sa) == Some(s@),
;

/// `SuffixArray::search_lcp` looks the pattern up among the sorted suffixes of the indexed
/// text. The range it returns depends on the text and the pattern alone, lies in the text, and
/// holds the longest prefix of the pattern that stands anywhere in the text.
pub assume_specification<'s>[ SuffixArray::<'s>::search_lcp ](
    sa: &SuffixArray<'s>,
    pat: &[u8],
) -> (r: Range<usize>)
    requires
        indexed_text(*sa) is Some,
    ensures
        (r.start as int, r.end as int) == lcp_range(indexed_text(*sa)->0, pat@),
        r.start <= r.end,
        r.end - r.start <= pat@.len(),
        occurs_at(indexed_text(*sa)->0, pat@.take(r.end - r.start), r.start as int),
        forall|l: int|
            0 <= l <= pat@.len() && #[trigger] occurs(indexed_text(*sa)->0, pat@.take(l)) ==> l
                <= r.end - r.start,
;

/// Converts a range to its extent: where it starts and how long it is.
pub fn range_to_extent(range: Range<usize>) -> (ext: (usize, usize))
    ensures
        ext.0 == range.start,
        ext.1 == if range.start <= range.end {
            range.end - range.start
        } else {
            0
        },
{
    let Range { start, end } = range;
    (start, end.saturating_sub(start))
}

/// The longest prefix of `pat` that stands in the indexed text: its place and its length.
pub fn longest_match(sa: &SuffixArray, pat: &[u8]) -> (ext: (usize, usize))
    requires
        indexed_text(*sa) is Some,
    ensures
        (ext.0 as int, ext.1 as int) == extent(indexed_text(*sa)->0, pat@),
        ext.1 <= pat@.len(),
        occurs_at(indexed_text(*sa)->0, pat@.take(ext.1 as int), ext.0 as int),
        forall|l: int|
            0 <= l <= pat@.len() && #[trigger] occurs(indexed_text(*sa)->0, pat@.take(l)) ==> l
                <= ext.1,
{
    range_to_extent(sa.search_lcp(pat))
}

} // verus!
