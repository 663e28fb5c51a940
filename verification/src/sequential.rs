use vstd::prelude::*;
use vstd::string::StrSliceExecFns;
use vstd::string::StringExecFns;

use crate::model::lemma_match_positions_from_len;
use crate::model::match_at;
use crate::model::match_count;
use crate::model::match_positions_from;
use crate::model::replaced;
use crate::model::replaced_from;

verus! {

/// Whether `pattern` occurs in `content` at character position `i`.
fn str_matches_at(content: &str, pattern: &str, plen: usize, i: usize) -> (b: bool)
    requires
        plen == pattern@.len(),
        i + plen <= content@.len(),
        content@.len() <= usize::MAX,
    ensures
        b == match_at(content@, pattern@, i as int),
{
    let mut j: usize = 0;
    while j < plen
        invariant
            plen == pattern@.len(),
            i + plen <= content@.len() <= usize::MAX,
            0 <= j <= plen,
            forall|k: int| 0 <= k < j ==> content@[i + k] == pattern@[k],
        decreases plen - j,
    {
        if content.get_char(i + j) != pattern.get_char(j) {
            proof {
                assert(content@.subrange(i as int, i + plen as int)[j as int] == content@[i + j]);
            }
            return false;
        }
        j = j + 1;
    }
    proof {
        assert(content@.subrange(i as int, i + plen as int) =~= pattern@);
    }
    true
}

/// Single left-to-right scan that replaces each non-overlapping, leftmost
/// occurrence of `pattern` by `replacement` and counts the occurrences.
/// An empty pattern leaves the content unchanged with a count of zero.
pub fn perform_replacement(content: &str, pattern: &str, replacement: &str) -> (r: (String, usize))
    ensures
        r.0@ == replaced(content@, pattern@, replacement@),
        r.1 as nat == match_count(content@, pattern@),
        pattern@.len() == 0 ==> r.0@ == content@ && r.1 == 0,
{
    let clen = content.unicode_len();
    let plen = pattern.unicode_len();
    if plen == 0 {
        return (content.to_owned(), 0);
    }
    let mut result = String::new();
    let mut count: usize = 0;
    let mut i: usize = 0;
    proof {
        lemma_match_positions_from_len(content@, pattern@, 0);
    }
    while i < clen
        invariant
            0 < plen == pattern@.len(),
            clen == content@.len(),
            0 <= i <= clen,
            result@ + replaced_from(content@, pattern@, replacement@, i as int) == replaced_from(
                content@,
                pattern@,
                replacement@,
                0,
            ),
            count + match_positions_from(content@, pattern@, i as int).len()
                == match_positions_from(content@, pattern@, 0).len(),
            match_positions_from(content@, pattern@, i as int).len() <= clen - i,
            match_positions_from(content@, pattern@, 0).len() <= clen,
        decreases clen - i,
    {
        let is_match = plen <= clen - i && str_matches_at(content, pattern, plen, i);
        if is_match {
            result.append(replacement);
            i = i + plen;
            count = count + 1;
        } else {
            let piece = content.substring_char(i, i + 1);
            result.append(piece);
            proof {
                assert(piece@ =~= seq![content@[i as int]]);
            }
            i = i + 1;
        }
        proof {
            lemma_match_positions_from_len(content@, pattern@, i as int);
        }
    }
    proof {
        assert(result@ + replaced_from(content@, pattern@, replacement@, i as int) =~= result@);
    }
    (result, count)
}

/// Whether `pattern` occurs in `content` at byte position `i`.
fn bytes_match_at(content: &[u8], pattern: &[u8], i: usize) -> (b: bool)
    requires
        i + pattern@.len() <= content@.len(),
    ensures
        b == match_at(content@, pattern@, i as int),
{
    let clen = content.len();
    let plen = pattern.len();
    let mut j: usize = 0;
    while j < plen
        invariant
            plen == pattern@.len(),
            clen == content@.len(),
            i + plen <= content@.len(),
            0 <= j <= plen,
            forall|k: int| 0 <= k < j ==> content@[i + k] == pattern@[k],
        decreases plen - j,
    {
        if content[i + j] != pattern[j] {
            proof {
                assert(content@.subrange(i as int, i + plen as int)[j as int] == content@[i + j]);
            }
            return false;
        }
        j = j + 1;
    }
    proof {
        assert(content@.subrange(i as int, i + plen as int) =~= pattern@);
    }
    true
}

/// Appends every byte of `piece` to `out`.
pub fn push_bytes(out: &mut Vec<u8>, piece: &[u8])
    ensures
        final(out)@ == old(out)@ + piece@,
{
    let n = piece.len();
    let mut j: usize = 0;
    while j < n
        invariant
            n == piece@.len(),
            0 <= j <= n,
            out@ == old(out)@ + piece@.subrange(0, j as int),
        decreases n - j,
    {
        out.push(piece[j]);
        proof {
            assert(old(out)@ + piece@.subrange(0, j as int) + seq![piece@[j as int]] =~= old(out)@
                + piece@.subrange(0, j + 1));
        }
        j = j + 1;
    }
    proof {
        assert(old(out)@ + piece@.subrange(0, n as int) =~= old(out)@ + piece@);
    }
}

/// The same scan over raw bytes. The behaviour is byte-for-byte the one of
/// `perform_replacement` whenever content, pattern and replacement are all
/// ASCII; the scan itself is exact for arbitrary byte sequences.
pub fn perform_replacement_ascii(content: &[u8], pattern: &[u8], replacement: &[u8]) -> (r: (
    Vec<u8>,
    usize,
))
    ensures
        r.0@ == replaced(content@, pattern@, replacement@),
        r.1 as nat == match_count(content@, pattern@),
        pattern@.len() == 0 ==> r.0@ == content@ && r.1 == 0,
{
    let clen = content.len();
    let plen = pattern.len();
    if plen == 0 {
        let mut copy: Vec<u8> = Vec::new();
        push_bytes(&mut copy, content);
        proof {
            assert(copy@ =~= content@);
        }
        return (copy, 0);
    }
    let mut result: Vec<u8> = Vec::new();
    let mut count: usize = 0;
    let mut i: usize = 0;
    proof {
        lemma_match_positions_from_len(content@, pattern@, 0);
    }
    while i < clen
        invariant
            0 < plen == pattern@.len(),
            clen == content@.len(),
            0 <= i <= clen,
            result@ + replaced_from(content@, pattern@, replacement@, i as int) == replaced_from(
                content@,
                pattern@,
                replacement@,
                0,
            ),
            count + match_positions_from(content@, pattern@, i as int).len()
                == match_positions_from(content@, pattern@, 0).len(),
            match_positions_from(content@, pattern@, i as int).len() <= clen - i,
            match_positions_from(content@, pattern@, 0).len() <= clen,
        decreases clen - i,
    {
        let is_match = plen <= clen - i && bytes_match_at(content, pattern, i);
        if is_match {
            push_bytes(&mut result, replacement);
            i = i + plen;
            count = count + 1;
        } else {
            result.push(content[i]);
            proof {
                assert(result@ == (result@.drop_last()) + seq![content@[i as int]]);
            }
            i = i + 1;
        }
        proof {
            lemma_match_positions_from_len(content@, pattern@, i as int);
        }
    }
    proof {
        assert(result@ + replaced_from(content@, pattern@, replacement@, i as int) =~= result@);
    }
    (result, count)
}

} // verus!
