use vstd::prelude::*;
use vstd::slice::slice_subrange;
use vstd::string::StrSliceExecFns;
use vstd::string::StringSliceAdditionalSpecFns;
use vstd::utf8::*;

use crate::model::match_at;
use crate::model::match_count;
use crate::model::match_positions_from;
use crate::model::replaced;
use crate::model::replaced_from;
use crate::sequential::push_bytes;
use crate::unicode::lemma_embedded_valid_segment;
use crate::unicode::lemma_valid_prefix_boundary;
use crate::unicode::string_from_utf8;

verus! {

#[verifier::external_type_specification]
#[verifier::external_body]
pub struct ExAhoCorasick(aho_corasick::AhoCorasick);

/// The byte patterns the multi-pattern automaton was built over.
pub uninterp spec fn ac_patterns(ac: aho_corasick::AhoCorasick) -> Seq<Seq<u8>>;

/// Whether a multi-pattern automaton over these byte patterns can be built:
/// construction succeeds or fails on the patterns alone.
pub uninterp spec fn ac_build_ok(pats: Seq<Seq<u8>>) -> bool;

/// The matches, as (start, pattern index) pairs, that a leftmost-first
/// non-overlapping multi-pattern search for `pats` yields over `content`.
pub uninterp spec fn ac_matches(pats: Seq<Seq<u8>>, content: Seq<u8>) -> Seq<(int, int)>;

/// The match list as mathematical pairs.
pub open spec fn ms_view(ms: Seq<(usize, usize)>) -> Seq<(int, int)> {
    ms.map_values(|m: (usize, usize)| (m.0 as int, m.1 as int))
}

/// The byte sequences of a list of byte vectors.
pub open spec fn vecs_view(v: Seq<Vec<u8>>) -> Seq<Seq<u8>> {
    v.map_values(|p: Vec<u8>| p@)
}

/// The byte sequences of a list of string slices.
pub open spec fn strs_bytes(v: Seq<&str>) -> Seq<Seq<u8>> {
    v.map_values(|p: &str| p.spec_bytes())
}

/// No occurrence of any of the patterns begins at a position in `lo..hi`.
pub open spec fn no_occurrence_in(
    content: Seq<u8>,
    pats: Seq<Seq<u8>>,
    lo: int,
    hi: int,
) -> bool {
    forall|j: int, pos: int|
        0 <= j < pats.len() && lo <= pos < hi ==> !#[trigger] match_at(content, pats[j], pos)
}

/// Relies on aho_corasick's `AhoCorasickBuilder::build` with leftmost-first
/// match semantics: whether the build succeeds depends on the patterns alone,
/// and on success the automaton searches for exactly the given patterns.
#[verifier::external_body]
fn ac_new(patterns: &Vec<Vec<u8>>) -> (r: Option<aho_corasick::AhoCorasick>)
    ensures
        r is Some <==> ac_build_ok(vecs_view(patterns@)),
        r is Some ==> ac_patterns(r.unwrap()) == vecs_view(patterns@),
{
    aho_corasick::AhoCorasick::builder()
        .match_kind(aho_corasick::MatchKind::LeftmostFirst)
        .build(patterns)
        .ok()
}

/// Relies on aho_corasick's `find_iter` under the leftmost-first match
/// semantics every automaton of this library is built with (`ac_new` is the
/// only constructor): it yields the non-overlapping matches from left to
/// right; each match carries the index of its pattern and its span holds
/// exactly that pattern's bytes; each later match starts at or after the
/// previous match's end; and the matches are leftmost, so no occurrence of
/// any pattern begins between one match's end and the next match's start,
/// before the first match, or after the last.
#[verifier::external_body]
fn ac_find_matches(ac: &aho_corasick::AhoCorasick, content: &[u8]) -> (r: Vec<(usize, usize)>)
    requires
        forall|j: int|
            0 <= j < ac_patterns(*ac).len() ==> (#[trigger] ac_patterns(*ac)[j]).len() > 0,
    ensures
        ms_view(r@) == ac_matches(ac_patterns(*ac), content@),
        forall|i: int|
            0 <= i < r@.len() ==> {
                let m = #[trigger] r@[i];
                &&& (m.1 as int) < ac_patterns(*ac).len()
                &&& m.0 + ac_patterns(*ac)[m.1 as int].len() <= content@.len()
                &&& content@.subrange(m.0 as int, m.0 + ac_patterns(*ac)[m.1 as int].len())
                    == ac_patterns(*ac)[m.1 as int]
            },
        forall|i: int|
            0 <= i < r@.len() - 1 ==> (#[trigger] r@[i]).0 + ac_patterns(*ac)[r@[i].1 as int].len()
                <= r@[i + 1].0,
        r@.len() > 0 ==> no_occurrence_in(content@, ac_patterns(*ac), 0, r@[0].0 as int),
        forall|i: int|
            0 <= i < r@.len() - 1 ==> no_occurrence_in(
                content@,
                ac_patterns(*ac),
                (#[trigger] r@[i]).0 + ac_patterns(*ac)[r@[i].1 as int].len(),
                r@[i + 1].0 as int,
            ),
        r@.len() > 0 ==> no_occurrence_in(
            content@,
            ac_patterns(*ac),
            r@[r@.len() - 1].0 + ac_patterns(*ac)[r@[r@.len() - 1].1 as int].len(),
            content@.len() as int,
        ),
        r@.len() == 0 ==> no_occurrence_in(content@, ac_patterns(*ac), 0, content@.len() as int),
{
    ac.find_iter(content).map(|m| (m.start(), m.pattern().as_usize())).collect()
}

/// A well-formed match list over the content: every match carries a valid
/// pattern index, spans exactly its pattern's bytes within bounds, and the
/// matches do not overlap, running left to right.
pub open spec fn matches_wf(content: Seq<u8>, pats: Seq<Seq<u8>>, ms: Seq<(int, int)>) -> bool {
    &&& forall|i: int|
        0 <= i < ms.len() ==> {
            let m = #[trigger] ms[i];
            &&& 0 <= m.0
            &&& 0 <= m.1 < pats.len()
            &&& m.0 + pats[m.1].len() <= content.len()
            &&& content.subrange(m.0, m.0 + pats[m.1].len()) == pats[m.1]
        }
    &&& forall|i: int|
        0 <= i < ms.len() - 1 ==> (#[trigger] ms[i]).0 + pats[ms[i].1].len() <= ms[i + 1].0
}

/// The content with the listed matches substituted, continuing at match `k`
/// with the copy cursor at `cursor`: the bytes up to the next match, then the
/// replacement of that match's pattern, and so on; after the last match, the
/// remaining bytes.
pub open spec fn multi_assembled(
    content: Seq<u8>,
    pats: Seq<Seq<u8>>,
    reps: Seq<Seq<u8>>,
    ms: Seq<(int, int)>,
    k: int,
    cursor: int,
) -> Seq<u8>
    decreases ms.len() - k,
        when 0 <= k
{
    if k >= ms.len() {
        content.subrange(cursor, content.len() as int)
    } else {
        content.subrange(cursor, ms[k].0) + reps[ms[k].1] + multi_assembled(
            content,
            pats,
            reps,
            ms,
            k + 1,
            ms[k].0 + pats[ms[k].1].len(),
        )
    }
}

/// The assembled output of well-formed matches over valid UTF-8 content, with
/// valid UTF-8 patterns and replacements, is valid UTF-8.
proof fn lemma_assembled_valid(
    content: Seq<u8>,
    pats: Seq<Seq<u8>>,
    reps: Seq<Seq<u8>>,
    ms: Seq<(int, int)>,
    k: int,
    cursor: int,
)
    requires
        valid_utf8(content),
        matches_wf(content, pats, ms),
        pats.len() == reps.len(),
        forall|j: int| 0 <= j < pats.len() ==> (#[trigger] pats[j]).len() > 0,
        forall|j: int| 0 <= j < pats.len() ==> valid_utf8(#[trigger] pats[j]),
        forall|j: int| 0 <= j < reps.len() ==> valid_utf8(#[trigger] reps[j]),
        0 <= k <= ms.len(),
        0 <= cursor <= content.len(),
        valid_utf8(content.subrange(0, cursor)),
        k < ms.len() ==> cursor <= ms[k].0,
    ensures
        valid_utf8(multi_assembled(content, pats, reps, ms, k, cursor)),
    decreases ms.len() - k,
{
    if k >= ms.len() {
        lemma_valid_prefix_boundary(content, cursor);
        valid_utf8_split(content, cursor);
    } else {
        let s = ms[k].0;
        let idx = ms[k].1;
        let e = s + pats[idx].len();
        lemma_embedded_valid_segment(content, s, e);
        let pre_s = content.subrange(0, s);
        assert(pre_s.subrange(0, cursor) =~= content.subrange(0, cursor));
        lemma_valid_prefix_boundary(pre_s, cursor);
        valid_utf8_split(pre_s, cursor);
        assert(pre_s.subrange(cursor, s as int) =~= content.subrange(cursor, s));
        lemma_assembled_valid(content, pats, reps, ms, k + 1, e);
        let middle = content.subrange(cursor, s);
        let rest = multi_assembled(content, pats, reps, ms, k + 1, e);
        valid_utf8_concat(middle, reps[idx]);
        valid_utf8_concat(middle + reps[idx], rest);
        assert((middle + reps[idx]) + rest =~= middle + reps[idx] + rest);
    }
}


/// Scanning across a stretch with no occurrence copies it verbatim and finds
/// no position in it.
proof fn lemma_scan_gap(content: Seq<u8>, p: Seq<u8>, r: Seq<u8>, lo: int, hi: int)
    requires
        0 < p.len(),
        0 <= lo <= hi <= content.len(),
        forall|pos: int| lo <= pos < hi ==> !#[trigger] match_at(content, p, pos),
    ensures
        replaced_from(content, p, r, lo) == content.subrange(lo, hi) + replaced_from(
            content,
            p,
            r,
            hi,
        ),
        match_positions_from(content, p, lo) == match_positions_from(content, p, hi),
    decreases hi - lo,
{
    if lo == hi {
        assert(content.subrange(lo, hi) + replaced_from(content, p, r, hi) =~= replaced_from(
            content,
            p,
            r,
            hi,
        ));
    } else {
        assert(!match_at(content, p, lo));
        lemma_scan_gap(content, p, r, lo + 1, hi);
        assert(seq![content[lo]] + (content.subrange(lo + 1, hi) + replaced_from(
            content,
            p,
            r,
            hi,
        )) =~= content.subrange(lo, hi) + replaced_from(content, p, r, hi));
    }
}

/// From match `k` on, with the cursor in the gap before it, the assembly of
/// leftmost single-pattern matches is the sequential scan from the cursor,
/// and the matches left are exactly the positions the scan still finds.
proof fn lemma_single_from(
    content: Seq<u8>,
    p: Seq<u8>,
    r: Seq<u8>,
    ms: Seq<(int, int)>,
    k: int,
    cursor: int,
)
    requires
        0 < p.len(),
        matches_wf(content, seq![p], ms),
        forall|i: int|
            0 <= i < ms.len() - 1 ==> no_occurrence_in(
                content,
                seq![p],
                (#[trigger] ms[i]).0 + p.len(),
                ms[i + 1].0,
            ),
        ms.len() > 0 ==> no_occurrence_in(
            content,
            seq![p],
            ms[ms.len() - 1].0 + p.len(),
            content.len() as int,
        ),
        0 <= k <= ms.len(),
        0 <= cursor <= content.len(),
        k < ms.len() ==> cursor <= ms[k].0,
        no_occurrence_in(
            content,
            seq![p],
            cursor,
            if k < ms.len() {
                ms[k].0
            } else {
                content.len() as int
            },
        ),
    ensures
        multi_assembled(content, seq![p], seq![r], ms, k, cursor) == replaced_from(
            content,
            p,
            r,
            cursor,
        ),
        match_positions_from(content, p, cursor).len() == ms.len() - k,
    decreases ms.len() - k,
{
    assert(seq![p][0] == p);
    if k == ms.len() {
        assert forall|pos: int| cursor <= pos < content.len() implies !match_at(
            content,
            p,
            pos,
        ) by {
            assert(!match_at(content, seq![p][0], pos));
        }
        lemma_scan_gap(content, p, r, cursor, content.len() as int);
        assert(replaced_from(content, p, r, content.len() as int) =~= Seq::<u8>::empty());
        assert(content.subrange(cursor, content.len() as int) + Seq::<u8>::empty()
            =~= content.subrange(cursor, content.len() as int));
    } else {
        let s = ms[k].0;
        let idx = ms[k].1;
        assert(idx == 0);
        let e = s + p.len() as int;
        assert forall|pos: int| cursor <= pos < s implies !match_at(content, p, pos) by {
            assert(!match_at(content, seq![p][0], pos));
        }
        lemma_scan_gap(content, p, r, cursor, s);
        assert(match_at(content, p, s));
        lemma_single_from(content, p, r, ms, k + 1, e);
        assert(multi_assembled(content, seq![p], seq![r], ms, k, cursor) == content.subrange(
            cursor,
            s,
        ) + r + multi_assembled(content, seq![p], seq![r], ms, k + 1, e));
        assert(content.subrange(cursor, s) + (r + replaced_from(content, p, r, e))
            =~= content.subrange(cursor, s) + r + replaced_from(content, p, r, e));
    }
}

/// With a single pattern, the leftmost-first matcher and this assembly are
/// exactly the byte-oriented sequential engine: the assembled text is the
/// one-scan replacement and the match count is the scan's count.
pub proof fn lemma_multi_single_pattern(
    content: Seq<u8>,
    p: Seq<u8>,
    r: Seq<u8>,
    ms: Seq<(int, int)>,
)
    requires
        0 < p.len(),
        matches_wf(content, seq![p], ms),
        ms.len() > 0 ==> no_occurrence_in(content, seq![p], 0, ms[0].0),
        forall|i: int|
            0 <= i < ms.len() - 1 ==> no_occurrence_in(
                content,
                seq![p],
                (#[trigger] ms[i]).0 + p.len(),
                ms[i + 1].0,
            ),
        ms.len() > 0 ==> no_occurrence_in(
            content,
            seq![p],
            ms[ms.len() - 1].0 + p.len(),
            content.len() as int,
        ),
        ms.len() == 0 ==> no_occurrence_in(content, seq![p], 0, content.len() as int),
    ensures
        multi_assembled(content, seq![p], seq![r], ms, 0, 0) == replaced(content, p, r),
        ms.len() == match_count(content, p),
{
    lemma_single_from(content, p, r, ms, 0, 0);
}

/// Assembles the output for a list of matches: the bytes before each match,
/// then the replacement of the match's pattern, and after the last match the
/// remaining bytes; the count is the number of matches.
pub fn build_multi_output(
    content: &[u8],
    pats: &Vec<Vec<u8>>,
    reps: &Vec<Vec<u8>>,
    matches: &Vec<(usize, usize)>,
) -> (out: (Vec<u8>, usize))
    requires
        matches_wf(content@, vecs_view(pats@), ms_view(matches@)),
        vecs_view(pats@).len() == vecs_view(reps@).len(),
    ensures
        out.0@ == multi_assembled(content@, vecs_view(pats@), vecs_view(reps@), ms_view(matches@), 0, 0),
        out.1 == matches@.len(),
{
    let ghost patsv = vecs_view(pats@);
    let ghost repsv = vecs_view(reps@);
    let ghost msv = ms_view(matches@);
    let n = matches.len();
    let clen = content.len();
    let mut out: Vec<u8> = Vec::new();
    let mut cursor: usize = 0;
    let mut k: usize = 0;
    while k < n
        invariant
            n == msv.len() == matches@.len(),
            clen == content@.len(),
            patsv == vecs_view(pats@),
            repsv == vecs_view(reps@),
            msv == ms_view(matches@),
            matches_wf(content@, patsv, msv),
            patsv.len() == repsv.len(),
            0 <= k <= n,
            0 <= cursor <= clen,
            k < n ==> cursor <= msv[k as int].0,
            out@ + multi_assembled(content@, patsv, repsv, msv, k as int, cursor as int)
                == multi_assembled(content@, patsv, repsv, msv, 0, 0),
        decreases n - k,
    {
        let m = matches[k];
        let s = m.0;
        let idx = m.1;
        proof {
            assert(msv[k as int] == (s as int, idx as int));
        }
        let piece = slice_subrange(content, cursor, s);
        push_bytes(&mut out, piece);
        push_bytes(&mut out, reps[idx].as_slice());
        proof {
            assert(piece@ =~= content@.subrange(cursor as int, s as int));
            assert(repsv[idx as int] == reps@[idx as int]@);
        }
        cursor = s + pats[idx].len();
        k = k + 1;
        proof {
            assert(out@ + multi_assembled(content@, patsv, repsv, msv, k as int, cursor as int)
                =~= multi_assembled(content@, patsv, repsv, msv, 0, 0));
        }
    }
    let tail = slice_subrange(content, cursor, clen);
    push_bytes(&mut out, tail);
    proof {
        assert(tail@ =~= content@.subrange(cursor as int, clen as int));
        assert(out@ =~= multi_assembled(content@, patsv, repsv, msv, 0, 0));
    }
    (out, n)
}

/// A nonempty character sequence has a nonempty UTF-8 encoding.
pub proof fn lemma_encode_nonempty(c: Seq<char>)
    requires
        c.len() > 0,
    ensures
        encode_utf8(c).len() > 0,
{
    assert(encode_utf8(c) == encode_scalar(c[0] as u32) + encode_utf8(c.drop_first()));
}

/// Simultaneous replacement of several patterns in one pass over the content:
/// the matcher yields the leftmost-first non-overlapping matches of all
/// patterns at once, ordered by position, and each match is substituted by
/// the replacement with the match's pattern index. An empty pattern list,
/// mismatched list lengths, an empty pattern among the patterns, or a failure
/// to build the matcher return the content unchanged with a count of zero,
/// and the matcher builds or not on the patterns alone (`ac_build_ok`).
#[verifier::rlimit(80)]
pub fn perform_multi_pattern_replacement(
    content: &str,
    patterns: &[&str],
    replacements: &[&str],
) -> (r: (String, usize))
    ensures
        (patterns@.len() == 0 || patterns@.len() != replacements@.len() || (exists|j: int|
            0 <= j < patterns@.len() && (#[trigger] patterns@[j])@.len() == 0)) ==> (r.0@
            == content@ && r.1 == 0),
        (patterns@.len() > 0 && patterns@.len() == replacements@.len() && (forall|j: int|
            0 <= j < patterns@.len() ==> (#[trigger] patterns@[j])@.len() > 0) && !ac_build_ok(
            strs_bytes(patterns@),
        )) ==> (r.0@ == content@ && r.1 == 0),
        (patterns@.len() > 0 && patterns@.len() == replacements@.len() && (forall|j: int|
            0 <= j < patterns@.len() ==> (#[trigger] patterns@[j])@.len() > 0) && ac_build_ok(
            strs_bytes(patterns@),
        )) ==> {
            let ms = ac_matches(strs_bytes(patterns@), content.spec_bytes());
            &&& encode_utf8(r.0@) == multi_assembled(
                content.spec_bytes(),
                strs_bytes(patterns@),
                strs_bytes(replacements@),
                ms,
                0,
                0,
            )
            &&& r.1 as nat == ms.len()
        },
        (patterns@.len() == 1 && replacements@.len() == 1 && patterns@[0]@.len() > 0
            && ac_build_ok(strs_bytes(patterns@))) ==> (encode_utf8(r.0@) == replaced(
            content.spec_bytes(),
            patterns@[0].spec_bytes(),
            replacements@[0].spec_bytes(),
        ) && r.1 as nat == match_count(content.spec_bytes(), patterns@[0].spec_bytes())),
{
    let np = patterns.len();
    if np == 0 || np != replacements.len() {
        return (content.to_owned(), 0);
    }
    let mut j: usize = 0;
    while j < np
        invariant
            np == patterns@.len(),
            0 <= j <= np,
            forall|i: int| 0 <= i < j ==> (#[trigger] patterns@[i])@.len() > 0,
        decreases np - j,
    {
        if patterns[j].is_empty() {
            return (content.to_owned(), 0);
        }
        j = j + 1;
    }
    let mut pats: Vec<Vec<u8>> = Vec::new();
    let mut reps: Vec<Vec<u8>> = Vec::new();
    let mut i: usize = 0;
    while i < np
        invariant
            np == patterns@.len() == replacements@.len(),
            0 <= i <= np,
            pats@.len() == i,
            reps@.len() == i,
            forall|k: int| 0 <= k < i ==> (#[trigger] pats@[k])@ == patterns@[k].spec_bytes(),
            forall|k: int| 0 <= k < i ==> (#[trigger] reps@[k])@ == replacements@[k].spec_bytes(),
        decreases np - i,
    {
        pats.push(patterns[i].as_bytes_vec());
        reps.push(replacements[i].as_bytes_vec());
        i = i + 1;
    }
    proof {
        assert(vecs_view(pats@) =~= strs_bytes(patterns@));
        assert(vecs_view(reps@) =~= strs_bytes(replacements@));
    }
    let ac_opt = ac_new(&pats);
    let ac = match ac_opt {
        Some(ac) => ac,
        None => {
            return (content.to_owned(), 0);
        },
    };
    let ghost patsv = strs_bytes(patterns@);
    let ghost repsv = strs_bytes(replacements@);
    proof {
        assert forall|k: int| 0 <= k < patsv.len() implies (#[trigger] patsv[k]).len() > 0 by {
            lemma_encode_nonempty(patterns@[k]@);
        }
        assert forall|k: int| 0 <= k < patsv.len() implies valid_utf8(#[trigger] patsv[k]) by {
            encode_utf8_valid_utf8(patterns@[k]@);
        }
        assert forall|k: int| 0 <= k < repsv.len() implies valid_utf8(#[trigger] repsv[k]) by {
            encode_utf8_valid_utf8(replacements@[k]@);
        }
    }
    let content_b = content.as_bytes();
    let matches = ac_find_matches(&ac, content_b);
    proof {
        let msv = ms_view(matches@);
        assert forall|i: int| 0 <= i < msv.len() implies {
            let m = #[trigger] msv[i];
            &&& 0 <= m.0
            &&& 0 <= m.1 < patsv.len()
            &&& m.0 + patsv[m.1].len() <= content_b@.len()
            &&& content_b@.subrange(m.0, m.0 + patsv[m.1].len()) == patsv[m.1]
        } by {
            assert(msv[i] == (matches@[i].0 as int, matches@[i].1 as int));
        }
        assert forall|i: int| 0 <= i < msv.len() - 1 implies (#[trigger] msv[i]).0
            + patsv[msv[i].1].len() <= msv[i + 1].0 by {
            assert(msv[i] == (matches@[i].0 as int, matches@[i].1 as int));
            assert(msv[i + 1] == (matches@[i + 1].0 as int, matches@[i + 1].1 as int));
        }
        assert(matches_wf(content_b@, patsv, msv));
    }
    let (out, count) = build_multi_output(content_b, &pats, &reps, &matches);
    proof {
        encode_utf8_valid_utf8(content@);
        lemma_assembled_valid(content_b@, patsv, repsv, ms_view(matches@), 0, 0);
        assert(content_b@.subrange(0, 0) =~= Seq::<u8>::empty());
        if patterns@.len() == 1 {
            let pb = patterns@[0].spec_bytes();
            let rb = replacements@[0].spec_bytes();
            let msv = ms_view(matches@);
            assert(patsv =~= seq![pb]);
            assert(repsv =~= seq![rb]);
            if msv.len() > 0 {
                assert(msv[0] == (matches@[0].0 as int, matches@[0].1 as int));
                assert(msv[msv.len() - 1] == (
                    matches@[matches@.len() - 1].0 as int,
                    matches@[matches@.len() - 1].1 as int,
                ));
                assert(msv[msv.len() - 1].1 == 0);
                assert(patsv[0] == pb);
                assert(no_occurrence_in(content_b@, seq![pb], 0, msv[0].0));
                assert(no_occurrence_in(
                    content_b@,
                    seq![pb],
                    msv[msv.len() - 1].0 + pb.len(),
                    content_b@.len() as int,
                ));
            }
            assert forall|i: int| 0 <= i < msv.len() - 1 implies no_occurrence_in(
                content_b@,
                seq![pb],
                (#[trigger] msv[i]).0 + pb.len(),
                msv[i + 1].0,
            ) by {
                assert(msv[i] == (matches@[i].0 as int, matches@[i].1 as int));
                assert(msv[i + 1] == (matches@[i + 1].0 as int, matches@[i + 1].1 as int));
                assert(msv[i].1 == 0);
                assert(patsv[0] == pb);
                assert(no_occurrence_in(
                    content_b@,
                    patsv,
                    matches@[i].0 + patsv[matches@[i].1 as int].len(),
                    matches@[i + 1].0 as int,
                ));
            }
            lemma_multi_single_pattern(content_b@, pb, rb, msv);
            assert(multi_assembled(content_b@, patsv, repsv, msv, 0, 0) == multi_assembled(
                content_b@,
                seq![pb],
                seq![rb],
                msv,
                0,
                0,
            ));
        }
    }
    let text = string_from_utf8(out);
    (text, count)
}

} // verus!
