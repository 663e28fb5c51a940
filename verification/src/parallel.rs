use rayon::iter::IntoParallelRefIterator;
use rayon::iter::ParallelIterator;
use vstd::prelude::*;
use vstd::seq_lib::*;
use vstd::slice::slice_subrange;
use vstd::string::StrSliceExecFns;
use vstd::string::StringExecFns;
use vstd::string::StringSliceAdditionalSpecFns;
use vstd::utf8::*;

use crate::laws::lemma_replaced_pieces;
use crate::laws::no_match_spans_pieces;
use crate::laws::pieces_count;
use crate::laws::pieces_replaced;
use crate::model::lemma_match_count_le_len;
use crate::model::match_count;
use crate::model::replaced;
use crate::sequential::perform_replacement;
use crate::sequential::perform_replacement_ascii;
use crate::unicode::all_ascii_bytes;

verus! {

/// Greedy end of the first chunk: from `k` characters, extend while the next
/// character still fits within `size` encoded bytes.
pub open spec fn first_chunk_end(c: Seq<char>, size: int, k: int) -> int
    decreases c.len() - k,
        when 0 <= k <= c.len()
{
    if k < c.len() && encode_utf8(c.take(k + 1)).len() <= size {
        first_chunk_end(c, size, k + 1)
    } else {
        k
    }
}

/// How many characters the first chunk takes: as many whole characters as fit
/// in `size` encoded bytes, but at least one, so that splitting progresses.
pub open spec fn first_chunk_len(c: Seq<char>, size: int) -> int {
    let g = first_chunk_end(c, size, 0);
    if g < 1 {
        1
    } else if g > c.len() {
        c.len() as int
    } else {
        g
    }
}

/// The content split at character boundaries into chunks of at most `size`
/// encoded bytes each (except that a chunk always takes at least one
/// character).
pub open spec fn spec_chunks(c: Seq<char>, size: int) -> Seq<Seq<char>>
    decreases c.len(),
{
    if c.len() == 0 {
        Seq::empty()
    } else {
        let n = first_chunk_len(c, size);
        seq![c.take(n)] + spec_chunks(c.skip(n), size)
    }
}

/// The bytes split into chunks of exactly `size` bytes (at least one), the
/// last chunk holding the remainder.
pub open spec fn spec_byte_chunks(c: Seq<u8>, size: int) -> Seq<Seq<u8>>
    decreases c.len(),
{
    if c.len() == 0 {
        Seq::empty()
    } else {
        let n = if size < 1 {
            1
        } else if size > c.len() {
            c.len() as int
        } else {
            size
        };
        seq![c.take(n)] + spec_byte_chunks(c.skip(n), size)
    }
}

/// The byte chunk size used on the ASCII path: the requested size, but at
/// least twice the pattern's byte length, capped at the machine's limit.
pub open spec fn ascii_chunk_size(chunk_size: int, plen: int) -> int {
    let doubled = if 2 * plen > usize::MAX {
        usize::MAX as int
    } else {
        2 * plen
    };
    if chunk_size > doubled {
        chunk_size
    } else {
        doubled
    }
}

/// The character chunks concatenate back to the content.
pub proof fn lemma_spec_chunks_flatten(c: Seq<char>, size: int)
    ensures
        spec_chunks(c, size).flatten() == c,
    decreases c.len(),
{
    if c.len() == 0 {
        assert(spec_chunks(c, size).flatten() =~= c);
    } else {
        let n = first_chunk_len(c, size);
        lemma_spec_chunks_flatten(c.skip(n), size);
        let chunks = spec_chunks(c, size);
        assert(chunks.first() == c.take(n));
        assert(chunks.drop_first() =~= spec_chunks(c.skip(n), size));
        assert(c.take(n) + c.skip(n) =~= c);
    }
}

/// The byte chunks concatenate back to the bytes.
pub proof fn lemma_spec_byte_chunks_flatten(c: Seq<u8>, size: int)
    ensures
        spec_byte_chunks(c, size).flatten() == c,
    decreases c.len(),
{
    if c.len() == 0 {
        assert(spec_byte_chunks(c, size).flatten() =~= c);
    } else {
        let n = if size < 1 {
            1
        } else if size > c.len() {
            c.len() as int
        } else {
            size
        };
        lemma_spec_byte_chunks_flatten(c.skip(n), size);
        let chunks = spec_byte_chunks(c, size);
        assert(chunks.first() == c.take(n));
        assert(chunks.drop_first() =~= spec_byte_chunks(c.skip(n), size));
        assert(c.take(n) + c.skip(n) =~= c);
    }
}

/// Adding one piece adds that piece's count.
pub proof fn lemma_pieces_count_push<A>(pieces: Seq<Seq<A>>, x: Seq<A>, p: Seq<A>)
    ensures
        pieces_count(pieces.push(x), p) == pieces_count(pieces, p) + match_count(x, p),
    decreases pieces.len(),
{
    if pieces.len() == 0 {
        assert(pieces.push(x).first() == x);
        assert(pieces.push(x).drop_first() =~= Seq::<Seq<A>>::empty());
        assert(pieces_count(Seq::<Seq<A>>::empty(), p) == 0);
        assert(pieces_count(pieces.push(x), p) == match_count(x, p) + pieces_count(
            pieces.push(x).drop_first(),
            p,
        ));
    } else {
        assert(pieces.push(x).first() == pieces.first());
        assert(pieces.push(x).drop_first() =~= pieces.drop_first().push(x));
        lemma_pieces_count_push(pieces.drop_first(), x, p);
    }
}

/// Parallel/sequential agreement on the character path: replacing the chunks
/// separately gives the one-scan text and count whenever no occurrence of the
/// pattern straddles a chunk junction.
pub proof fn lemma_chunked_matches_sequential(c: Seq<char>, p: Seq<char>, r: Seq<char>, size: int)
    requires
        0 < p.len(),
        no_match_spans_pieces(spec_chunks(c, size), p),
    ensures
        pieces_replaced(spec_chunks(c, size), p, r) == replaced(c, p, r),
        pieces_count(spec_chunks(c, size), p) == match_count(c, p),
{
    lemma_spec_chunks_flatten(c, size);
    lemma_replaced_pieces(spec_chunks(c, size), p, r);
}

/// Parallel/sequential agreement on the byte path, under the same condition
/// on the byte chunk junctions.
pub proof fn lemma_byte_chunked_matches_sequential(c: Seq<u8>, p: Seq<u8>, r: Seq<u8>, size: int)
    requires
        0 < p.len(),
        no_match_spans_pieces(spec_byte_chunks(c, size), p),
    ensures
        pieces_replaced(spec_byte_chunks(c, size), p, r) == replaced(c, p, r),
        pieces_count(spec_byte_chunks(c, size), p) == match_count(c, p),
{
    lemma_spec_byte_chunks_flatten(c, size);
    lemma_replaced_pieces(spec_byte_chunks(c, size), p, r);
}

/// How many bytes the character takes in UTF-8.
fn char_utf8_width(c: char) -> (w: usize)
    ensures
        w == encode_scalar(c as u32).len(),
        1 <= w <= 4,
{
    proof {
        char_is_scalar(c);
    }
    let v = c as u32;
    if v < 0x80 {
        1
    } else if v < 0x800 {
        2
    } else if v < 0x10000 {
        3
    } else {
        4
    }
}

/// One more character of the prefix adds that character's encoded bytes.
proof fn lemma_encode_take_succ(s: Seq<char>, k: int)
    requires
        0 <= k < s.len(),
    ensures
        encode_utf8(s.take(k + 1)) == encode_utf8(s.take(k)) + encode_scalar(s[k] as u32),
    decreases k,
{
    if k == 0 {
        assert(s.take(1)[0] == s[0]);
        assert(s.take(1).drop_first() =~= Seq::<char>::empty());
        assert(encode_utf8(Seq::<char>::empty()) == Seq::<u8>::empty());
        assert(encode_utf8(s.take(1)) =~= encode_scalar(s[0] as u32));
        assert(encode_utf8(s.take(0)) + encode_scalar(s[0] as u32) =~= encode_scalar(s[0] as u32));
    } else {
        lemma_encode_take_succ(s.drop_first(), k - 1);
        assert(s.take(k + 1).drop_first() =~= s.drop_first().take(k));
        assert(s.take(k).drop_first() =~= s.drop_first().take(k - 1));
        assert(s.take(k + 1)[0] == s[0]);
        assert(s.take(k)[0] == s[0]);
        assert(s.drop_first()[k - 1] == s[k]);
        assert(encode_scalar(s[0] as u32) + (encode_utf8(s.drop_first().take(k - 1))
            + encode_scalar(s[k] as u32)) =~= (encode_scalar(s[0] as u32) + encode_utf8(
            s.drop_first().take(k - 1),
        )) + encode_scalar(s[k] as u32));
    }
}

/// Whether one more character of the suffix at `pos` still fits in `size`
/// encoded bytes, `w` being the bytes of the first `k` characters.
fn next_char_fits(content: &str, pos: usize, k: usize, w: usize, size: usize) -> (b: bool)
    requires
        content@.len() <= usize::MAX,
        pos + k < content@.len(),
        w == encode_utf8(content@.skip(pos as int).take(k as int)).len(),
        w <= size,
    ensures
        b == (encode_utf8(content@.skip(pos as int).take(k + 1)).len() <= size),
{
    let c = content.get_char(pos + k);
    let cw = char_utf8_width(c);
    proof {
        lemma_encode_take_succ(content@.skip(pos as int), k as int);
        assert(content@.skip(pos as int)[k as int] == content@[pos + k]);
    }
    cw <= size - w
}

/// The number of characters of the first chunk of the suffix at `pos`.
fn first_chunk_exec(content: &str, clen: usize, pos: usize, size: usize) -> (n: usize)
    requires
        clen == content@.len(),
        content@.len() <= usize::MAX,
        pos < clen,
    ensures
        n == first_chunk_len(content@.skip(pos as int), size as int),
        1 <= n <= clen - pos,
{
    let ghost s = content@.skip(pos as int);
    let rem = clen - pos;
    let mut k: usize = 0;
    let mut w: usize = 0;
    proof {
        assert(s.take(0) =~= Seq::<char>::empty());
    }
    while k < rem && next_char_fits(content, pos, k, w, size)
        invariant
            clen == content@.len() <= usize::MAX,
            pos < clen,
            rem == clen - pos,
            s == content@.skip(pos as int),
            s.len() == rem,
            0 <= k <= rem,
            w == encode_utf8(s.take(k as int)).len(),
            w <= size,
            first_chunk_end(s, size as int, 0) == first_chunk_end(s, size as int, k as int),
        decreases rem - k,
    {
        let c = content.get_char(pos + k);
        let cw = char_utf8_width(c);
        proof {
            lemma_encode_take_succ(s, k as int);
            assert(s[k as int] == content@[pos + k]);
        }
        w = w + cw;
        k = k + 1;
    }
    proof {
        assert(first_chunk_end(s, size as int, k as int) == k);
    }
    if k < 1 {
        1
    } else {
        k
    }
}

/// The content split at character boundaries, each chunk holding at most
/// `chunk_size` encoded bytes (and always at least one character).
fn find_utf8_chunks<'a>(content: &'a str, chunk_size: usize) -> (chunks: Vec<&'a str>)
    ensures
        chunks@.map_values(|s: &str| s@) == spec_chunks(content@, chunk_size as int),
        content@.len() <= usize::MAX,
{
    let clen = content.unicode_len();
    let mut chunks: Vec<&str> = Vec::new();
    let mut pos: usize = 0;
    proof {
        assert(content@.skip(0) =~= content@);
        assert(chunks@.map_values(|s: &str| s@) + spec_chunks(content@, chunk_size as int)
            =~= spec_chunks(content@, chunk_size as int));
    }
    while pos < clen
        invariant
            clen == content@.len(),
            0 <= pos <= clen,
            chunks@.map_values(|s: &str| s@) + spec_chunks(
                content@.skip(pos as int),
                chunk_size as int,
            ) == spec_chunks(content@, chunk_size as int),
        decreases clen - pos,
    {
        let n = first_chunk_exec(content, clen, pos, chunk_size);
        let piece = content.substring_char(pos, pos + n);
        proof {
            let rest = content@.skip(pos as int);
            assert(piece@ =~= rest.take(n as int));
            assert(rest.skip(n as int) =~= content@.skip(pos + n));
            assert((chunks@.push(piece)).map_values(|s: &str| s@) =~= chunks@.map_values(
                |s: &str| s@,
            ).push(piece@));
            assert(chunks@.map_values(|s: &str| s@) + (seq![rest.take(n as int)] + spec_chunks(
                rest.skip(n as int),
                chunk_size as int,
            )) =~= chunks@.map_values(|s: &str| s@).push(piece@) + spec_chunks(
                content@.skip(pos + n),
                chunk_size as int,
            ));
        }
        chunks.push(piece);
        pos = pos + n;
    }
    proof {
        assert(content@.skip(pos as int) =~= Seq::<char>::empty());
        assert(chunks@.map_values(|s: &str| s@) + spec_chunks(
            content@.skip(pos as int),
            chunk_size as int,
        ) =~= chunks@.map_values(|s: &str| s@));
    }
    chunks
}

/// The bytes split into chunks of `size` bytes each, the last chunk holding
/// the remainder.
fn find_byte_chunks<'a>(content: &'a [u8], size: usize) -> (chunks: Vec<&'a [u8]>)
    ensures
        chunks@.map_values(|s: &[u8]| s@) == spec_byte_chunks(content@, size as int),
{
    let clen = content.len();
    let mut chunks: Vec<&[u8]> = Vec::new();
    let mut pos: usize = 0;
    proof {
        assert(content@.skip(0) =~= content@);
        assert(chunks@.map_values(|s: &[u8]| s@) + spec_byte_chunks(content@, size as int)
            =~= spec_byte_chunks(content@, size as int));
    }
    while pos < clen
        invariant
            clen == content@.len(),
            0 <= pos <= clen,
            chunks@.map_values(|s: &[u8]| s@) + spec_byte_chunks(
                content@.skip(pos as int),
                size as int,
            ) == spec_byte_chunks(content@, size as int),
        decreases clen - pos,
    {
        let n = if size < 1 {
            1
        } else if size > clen - pos {
            clen - pos
        } else {
            size
        };
        let piece = slice_subrange(content, pos, pos + n);
        proof {
            let rest = content@.skip(pos as int);
            assert(piece@ =~= rest.take(n as int));
            assert(rest.skip(n as int) =~= content@.skip(pos + n));
            assert((chunks@.push(piece)).map_values(|s: &[u8]| s@) =~= chunks@.map_values(
                |s: &[u8]| s@,
            ).push(piece@));
            assert(chunks@.map_values(|s: &[u8]| s@) + (seq![rest.take(n as int)]
                + spec_byte_chunks(rest.skip(n as int), size as int)) =~= chunks@.map_values(
                |s: &[u8]| s@,
            ).push(piece@) + spec_byte_chunks(content@.skip(pos + n), size as int));
        }
        chunks.push(piece);
        pos = pos + n;
    }
    proof {
        assert(content@.skip(pos as int) =~= Seq::<u8>::empty());
        assert(chunks@.map_values(|s: &[u8]| s@) + spec_byte_chunks(
            content@.skip(pos as int),
            size as int,
        ) =~= chunks@.map_values(|s: &[u8]| s@));
    }
    chunks
}

/// Relies on rayon's `par_iter`, `map` and `collect`: the closure, which only
/// calls this library's `perform_replacement`, runs on each chunk, and the
/// results are collected in the chunks' original order.
#[verifier::external_body]
fn par_replace_str_chunks(chunks: &Vec<&str>, pattern: &str, replacement: &str) -> (r: Vec<
    (String, usize),
>)
    ensures
        r@.len() == chunks@.len(),
        forall|i: int|
            0 <= i < r@.len() ==> (#[trigger] r@[i]).0@ == replaced(
                chunks@[i]@,
                pattern@,
                replacement@,
            ) && r@[i].1 as nat == match_count(chunks@[i]@, pattern@),
{
    chunks.par_iter().map(|chunk| perform_replacement(chunk, pattern, replacement)).collect()
}

/// Relies on rayon's `par_iter`, `map` and `collect`: the closure, which only
/// calls this library's `perform_replacement_ascii`, runs on each chunk, and
/// the results are collected in the chunks' original order.
#[verifier::external_body]
fn par_replace_byte_chunks(chunks: &Vec<&[u8]>, pattern: &[u8], replacement: &[u8]) -> (r: Vec<
    (Vec<u8>, usize),
>)
    ensures
        r@.len() == chunks@.len(),
        forall|i: int|
            0 <= i < r@.len() ==> (#[trigger] r@[i]).0@ == replaced(
                chunks@[i]@,
                pattern@,
                replacement@,
            ) && r@[i].1 as nat == match_count(chunks@[i]@, pattern@),
{
    chunks.par_iter().map(|chunk| perform_replacement_ascii(chunk, pattern, replacement)).collect()
}

/// Every byte chunk of an ASCII byte sequence is itself ASCII.
proof fn lemma_byte_chunks_ascii(c: Seq<u8>, size: int)
    requires
        all_ascii_bytes(c),
    ensures
        forall|i: int|
            0 <= i < spec_byte_chunks(c, size).len() ==> all_ascii_bytes(
                #[trigger] spec_byte_chunks(c, size)[i],
            ),
    decreases c.len(),
{
    if c.len() > 0 {
        let n = if size < 1 {
            1
        } else if size > c.len() {
            c.len() as int
        } else {
            size
        };
        assert(all_ascii_bytes(c.skip(n)));
        lemma_byte_chunks_ascii(c.skip(n), size);
        let chunks = spec_byte_chunks(c, size);
        assert forall|i: int| 0 <= i < chunks.len() implies all_ascii_bytes(
            #[trigger] chunks[i],
        ) by {
            if i == 0 {
                assert(chunks[0] == c.take(n));
            } else {
                assert(chunks[i] == spec_byte_chunks(c.skip(n), size)[i - 1]);
            }
        }
    }
}

/// Parallel replacement: for content below the chunk size a plain sequential
/// scan; otherwise the content is split into chunks, each chunk is replaced
/// independently (byte chunks when content, pattern and replacement are all
/// ASCII, character-boundary chunks otherwise), and the results are
/// concatenated in the original order with the counts added. An occurrence
/// straddling a chunk junction is not found on the chunked paths; the chunked
/// result equals the sequential one whenever no occurrence straddles a
/// junction (`lemma_chunked_matches_sequential`).
pub fn perform_replacement_parallel(
    content: &str,
    pattern: &str,
    replacement: &str,
    chunk_size: usize,
) -> (r: (String, usize))
    ensures
        pattern@.len() == 0 ==> r.0@ == content@ && r.1 == 0,
        pattern@.len() > 0 && content.spec_bytes().len() < chunk_size ==> r.0@ == replaced(
            content@,
            pattern@,
            replacement@,
        ) && r.1 as nat == match_count(content@, pattern@),
        ({
            let cb = content.spec_bytes();
            let pb = pattern.spec_bytes();
            let rb = replacement.spec_bytes();
            let size = ascii_chunk_size(chunk_size as int, pb.len() as int);
            (pattern@.len() > 0 && cb.len() >= chunk_size && content.is_ascii()
                && pattern.is_ascii() && replacement.is_ascii()) ==> (encode_utf8(r.0@)
                == pieces_replaced(spec_byte_chunks(cb, size), pb, rb) && r.1 as nat
                == pieces_count(spec_byte_chunks(cb, size), pb))
        }),
        (pattern@.len() > 0 && content.spec_bytes().len() >= chunk_size && !(content.is_ascii()
            && pattern.is_ascii() && replacement.is_ascii())) ==> (r.0@ == pieces_replaced(
            spec_chunks(content@, chunk_size as int),
            pattern@,
            replacement@,
        ) && r.1 as nat == pieces_count(spec_chunks(content@, chunk_size as int), pattern@)),
{
    if pattern.is_empty() {
        return (content.to_owned(), 0);
    }
    if content.as_bytes().len() < chunk_size {
        return perform_replacement(content, pattern, replacement);
    }
    if content.is_ascii() && pattern.is_ascii() && replacement.is_ascii() {
        let content_b = content.as_bytes();
        let pattern_b = pattern.as_bytes();
        let replacement_b = replacement.as_bytes();
        proof {
            is_ascii_chars_encode_utf8(content@);
            crate::unicode::lemma_ascii_chars_bytes_ascii(content@);
            crate::unicode::lemma_ascii_chars_bytes_ascii(replacement@);
        }
        let plen = pattern_b.len();
        let doubled = if plen > usize::MAX / 2 {
            usize::MAX
        } else {
            2 * plen
        };
        let safe = if chunk_size > doubled {
            chunk_size
        } else {
            doubled
        };
        proof {
            assert(safe == ascii_chunk_size(chunk_size as int, pattern.spec_bytes().len() as int));
        }
        let chunks = find_byte_chunks(content_b, safe);
        let ghost bviews = chunks@.map_values(|s: &[u8]| s@);
        let results = par_replace_byte_chunks(&chunks, pattern_b, replacement_b);
        let mut out: Vec<u8> = Vec::new();
        let mut count: usize = 0;
        let mut idx: usize = 0;
        let n = results.len();
        proof {
            lemma_spec_byte_chunks_flatten(content_b@, safe as int);
            lemma_byte_chunks_ascii(content_b@, safe as int);
            assert(bviews.take(0) =~= Seq::<Seq<u8>>::empty());
            assert(bviews.take(0).map_values(|piece: Seq<u8>| replaced(
                piece,
                pattern_b@,
                replacement_b@,
            )).flatten() =~= Seq::<u8>::empty());
        }
        while idx < n
            invariant
                n == results@.len() == chunks@.len(),
                bviews == chunks@.map_values(|s: &[u8]| s@),
                bviews == spec_byte_chunks(content_b@, safe as int),
                bviews.flatten() == content_b@,
                content_b@.len() <= usize::MAX,
                all_ascii_bytes(replacement_b@),
                forall|i: int|
                    0 <= i < bviews.len() ==> all_ascii_bytes(#[trigger] bviews[i]),
                forall|i: int|
                    0 <= i < n ==> (#[trigger] results@[i]).0@ == replaced(
                        bviews[i],
                        pattern_b@,
                        replacement_b@,
                    ) && results@[i].1 as nat == match_count(bviews[i], pattern_b@),
                0 <= idx <= n,
                out@ == pieces_replaced(bviews.take(idx as int), pattern_b@, replacement_b@),
                all_ascii_bytes(out@),
                count as nat == pieces_count(bviews.take(idx as int), pattern_b@),
                count <= bviews.take(idx as int).flatten().len(),
                bviews.take(idx as int).flatten().len() <= content_b@.len(),
            decreases n - idx,
        {
            let piece = &results[idx];
            proof {
                let taken = bviews.take(idx as int);
                let mapped = taken.map_values(
                    |piece: Seq<u8>| replaced(piece, pattern_b@, replacement_b@),
                );
                assert(bviews.take(idx + 1) =~= taken.push(bviews[idx as int]));
                assert(bviews.take(idx + 1).map_values(
                    |piece: Seq<u8>| replaced(piece, pattern_b@, replacement_b@),
                ) =~= mapped.push(replaced(bviews[idx as int], pattern_b@, replacement_b@)));
                mapped.lemma_flatten_push(
                    replaced(bviews[idx as int], pattern_b@, replacement_b@),
                );
                lemma_pieces_count_push(taken, bviews[idx as int], pattern_b@);
                lemma_match_count_le_len(bviews[idx as int], pattern_b@);
                taken.lemma_flatten_push(bviews[idx as int]);
                lemma_flatten_concat(bviews.take(idx + 1), bviews.skip(idx + 1));
                assert(bviews.take(idx + 1) + bviews.skip(idx + 1) =~= bviews);
                crate::unicode::lemma_replaced_ascii_bytes(
                    bviews[idx as int],
                    pattern_b@,
                    replacement_b@,
                );
            }
            push_bytes_vec(&mut out, &piece.0);
            count = count + piece.1;
            idx = idx + 1;
        }
        proof {
            assert(bviews.take(n as int) =~= bviews);
            crate::unicode::lemma_ascii_bytes_valid_utf8(out@);
        }
        let text = crate::unicode::string_from_utf8(out);
        (text, count)
    } else {
        let chunks = find_utf8_chunks(content, chunk_size);
        let ghost cviews = chunks@.map_values(|s: &str| s@);
        let results = par_replace_str_chunks(&chunks, pattern, replacement);
        let mut text = String::new();
        let mut count: usize = 0;
        let mut idx: usize = 0;
        let n = results.len();
        proof {
            lemma_spec_chunks_flatten(content@, chunk_size as int);
            assert(cviews.take(0) =~= Seq::<Seq<char>>::empty());
            assert(cviews.take(0).map_values(|piece: Seq<char>| replaced(
                piece,
                pattern@,
                replacement@,
            )).flatten() =~= Seq::<char>::empty());
        }
        while idx < n
            invariant
                n == results@.len() == chunks@.len(),
                cviews == chunks@.map_values(|s: &str| s@),
                cviews == spec_chunks(content@, chunk_size as int),
                cviews.flatten() == content@,
                content@.len() <= usize::MAX,
                forall|i: int|
                    0 <= i < n ==> (#[trigger] results@[i]).0@ == replaced(
                        cviews[i],
                        pattern@,
                        replacement@,
                    ) && results@[i].1 as nat == match_count(cviews[i], pattern@),
                0 <= idx <= n,
                text@ == pieces_replaced(cviews.take(idx as int), pattern@, replacement@),
                count as nat == pieces_count(cviews.take(idx as int), pattern@),
                count <= cviews.take(idx as int).flatten().len(),
                cviews.take(idx as int).flatten().len() <= content@.len(),
            decreases n - idx,
        {
            let piece = &results[idx];
            proof {
                let taken = cviews.take(idx as int);
                let mapped = taken.map_values(
                    |piece: Seq<char>| replaced(piece, pattern@, replacement@),
                );
                assert(cviews.take(idx + 1) =~= taken.push(cviews[idx as int]));
                assert(cviews.take(idx + 1).map_values(
                    |piece: Seq<char>| replaced(piece, pattern@, replacement@),
                ) =~= mapped.push(replaced(cviews[idx as int], pattern@, replacement@)));
                mapped.lemma_flatten_push(replaced(cviews[idx as int], pattern@, replacement@));
                lemma_pieces_count_push(taken, cviews[idx as int], pattern@);
                lemma_match_count_le_len(cviews[idx as int], pattern@);
                taken.lemma_flatten_push(cviews[idx as int]);
                lemma_flatten_concat(cviews.take(idx + 1), cviews.skip(idx + 1));
                assert(cviews.take(idx + 1) + cviews.skip(idx + 1) =~= cviews);
            }
            text.append(piece.0.as_str());
            count = count + piece.1;
            idx = idx + 1;
        }
        proof {
            assert(cviews.take(n as int) =~= cviews);
        }
        (text, count)
    }
}

/// Appends every byte of `piece` to `out`.
fn push_bytes_vec(out: &mut Vec<u8>, piece: &Vec<u8>)
    ensures
        final(out)@ == old(out)@ + piece@,
{
    let n = piece.len();
    let mut j: usize = 0;
    while j < n
        invariant
            n == piece@.len(),
            0 <= j <= n,
            out@ == old(out)@ + piece@.subrange(0, j as int),
        decreases n - j,
    {
        out.push(piece[j]);
        proof {
            assert(old(out)@ + piece@.subrange(0, j as int) + seq![piece@[j as int]] =~= old(out)@
                + piece@.subrange(0, j + 1));
        }
        j = j + 1;
    }
    proof {
        assert(old(out)@ + piece@.subrange(0, n as int) =~= old(out)@ + piece@);
    }
}

} // verus!
