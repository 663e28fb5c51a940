use vstd::prelude::*;

verus! {

/// An occurrence of `pattern` at position `i` of `content`.
pub open spec fn match_at<A>(content: Seq<A>, pattern: Seq<A>, i: int) -> bool {
    &&& 0 <= i
    &&& i + pattern.len() <= content.len()
    &&& content.subrange(i, i + pattern.len() as int) == pattern
}

/// The positions of the non-overlapping, leftmost-first occurrences of
/// `pattern` in `content`, found by a single scan that starts at position `i`
/// and advances past each occurrence by the pattern's length.
pub open spec fn match_positions_from<A>(content: Seq<A>, pattern: Seq<A>, i: int) -> Seq<int>
    decreases content.len() - i,
        when 0 < pattern.len() && 0 <= i
{
    if i + pattern.len() > content.len() {
        Seq::empty()
    } else if match_at(content, pattern, i) {
        seq![i] + match_positions_from(content, pattern, i + pattern.len() as int)
    } else {
        match_positions_from(content, pattern, i + 1)
    }
}

/// The positions replaced by a left-to-right scan of the whole content.
/// An empty pattern never matches.
pub open spec fn match_positions<A>(content: Seq<A>, pattern: Seq<A>) -> Seq<int> {
    if pattern.len() == 0 {
        Seq::empty()
    } else {
        match_positions_from(content, pattern, 0)
    }
}

/// How many non-overlapping, leftmost-first occurrences the scan finds.
pub open spec fn match_count<A>(content: Seq<A>, pattern: Seq<A>) -> nat {
    match_positions(content, pattern).len()
}

/// The content from position `i` on, with every occurrence found by the scan
/// replaced by `replacement`.
pub open spec fn replaced_from<A>(
    content: Seq<A>,
    pattern: Seq<A>,
    replacement: Seq<A>,
    i: int,
) -> Seq<A>
    decreases content.len() - i,
        when 0 < pattern.len() && 0 <= i
{
    if i >= content.len() {
        Seq::empty()
    } else if match_at(content, pattern, i) {
        replacement + replaced_from(content, pattern, replacement, i + pattern.len() as int)
    } else {
        seq![content[i]] + replaced_from(content, pattern, replacement, i + 1)
    }
}

/// The content with every occurrence of `pattern` replaced by `replacement`:
/// occurrences are non-overlapping and leftmost-first, and an empty pattern
/// leaves the content unchanged.
pub open spec fn replaced<A>(content: Seq<A>, pattern: Seq<A>, replacement: Seq<A>) -> Seq<A> {
    if pattern.len() == 0 {
        content
    } else {
        replaced_from(content, pattern, replacement, 0)
    }
}

/// The scan finds at most one occurrence per element of the content.
pub proof fn lemma_match_positions_from_len<A>(content: Seq<A>, pattern: Seq<A>, i: int)
    requires
        0 < pattern.len(),
        0 <= i <= content.len(),
    ensures
        match_positions_from(content, pattern, i).len() <= content.len() - i,
    decreases content.len() - i,
{
    if i + pattern.len() > content.len() {
    } else if match_at(content, pattern, i) {
        lemma_match_positions_from_len(content, pattern, i + pattern.len() as int);
    } else {
        lemma_match_positions_from_len(content, pattern, i + 1);
    }
}

/// The count never exceeds the content's length.
pub proof fn lemma_match_count_le_len<A>(content: Seq<A>, pattern: Seq<A>)
    ensures
        match_count(content, pattern) <= content.len(),
{
    if pattern.len() > 0 {
        lemma_match_positions_from_len(content, pattern, 0);
    }
}

} // verus!
