use vstd::prelude::*;
use vstd::slice::slice_to_vec;
use vstd::string::StrSliceExecFns;
use vstd::string::StringSliceAdditionalSpecFns;
use vstd::utf8::*;

use vstd::seq_lib::lemma_flatten_concat;

use crate::laws::no_match_spans_pieces;
use crate::laws::pieces_count;
use crate::laws::pieces_replaced;
use crate::laws::lemma_replaced_pieces;
use crate::model::match_count;
use crate::model::replaced;
use crate::unicode::lemma_decode_utf8_concat;
use crate::unicode::lemma_encode_utf8_concat;
use crate::sequential::perform_replacement;
use crate::sequential::push_bytes;
use crate::unicode::try_decode_utf8;

verus! {

/// What one buffered piece contributes to the output: the replaced text when
/// the piece is valid UTF-8, the piece unchanged otherwise.
pub open spec fn processed_piece(piece: Seq<u8>, p: Seq<char>, r: Seq<char>) -> Seq<u8> {
    if valid_utf8(piece) {
        encode_utf8(replaced(decode_utf8(piece), p, r))
    } else {
        piece
    }
}

/// How many occurrences one buffered piece contributes.
pub open spec fn processed_count(piece: Seq<u8>, p: Seq<char>) -> nat {
    if valid_utf8(piece) {
        match_count(decode_utf8(piece), p)
    } else {
        0
    }
}

/// Where one feed cuts: the carried overlap and the arriving chunk together,
/// split into the head that is processed now and the tail of at most `w`
/// bytes that is carried forward; too little data is all carried forward.
pub open spec fn stream_split(ov: Seq<u8>, chunk: Seq<u8>, w: int) -> (Seq<u8>, Seq<u8>) {
    let t = ov + chunk;
    if t.len() <= w {
        (Seq::empty(), t)
    } else {
        (t.subrange(0, t.len() - w), t.subrange(t.len() - w, t.len() as int))
    }
}

/// One feed: the bytes written out, the new overlap, and the occurrences
/// counted.
pub open spec fn stream_step(ov: Seq<u8>, chunk: Seq<u8>, p: Seq<char>, r: Seq<char>, w: int) -> (
    Seq<u8>,
    Seq<u8>,
    nat,
) {
    let (head, tail) = stream_split(ov, chunk, w);
    (processed_piece(head, p, r), tail, processed_count(head, p))
}

/// An empty piece contributes nothing.
pub proof fn lemma_processed_piece_empty(p: Seq<char>, r: Seq<char>)
    ensures
        processed_piece(Seq::<u8>::empty(), p, r) == Seq::<u8>::empty(),
        processed_count(Seq::<u8>::empty(), p) == 0,
{
    assert(valid_utf8(Seq::<u8>::empty()));
    assert(decode_utf8(Seq::<u8>::empty()) =~= Seq::<char>::empty());
    if p.len() == 0 {
        assert(replaced(Seq::<char>::empty(), p, r) =~= Seq::<char>::empty());
    } else {
        assert(replaced(Seq::<char>::empty(), p, r) =~= Seq::<char>::empty());
    }
    assert(encode_utf8(Seq::<char>::empty()) =~= Seq::<u8>::empty());
}


/// The raw pieces one run processes, in order: each feed's head, and the
/// final overlap at the flush.
pub open spec fn stream_pieces(ov: Seq<u8>, chunks: Seq<Seq<u8>>, w: int) -> Seq<Seq<u8>>
    decreases chunks.len(),
{
    if chunks.len() == 0 {
        if ov.len() > 0 {
            seq![ov]
        } else {
            Seq::empty()
        }
    } else {
        let (head, ov2) = stream_split(ov, chunks.first(), w);
        (if head.len() > 0 {
            seq![head]
        } else {
            Seq::<Seq<u8>>::empty()
        }) + stream_pieces(ov2, chunks.drop_first(), w)
    }
}

/// Everything one run writes and counts: each feed in order, then the flush.
pub open spec fn stream_run(
    ov: Seq<u8>,
    chunks: Seq<Seq<u8>>,
    p: Seq<char>,
    r: Seq<char>,
    w: int,
) -> (Seq<u8>, nat)
    decreases chunks.len(),
{
    if chunks.len() == 0 {
        if ov.len() > 0 {
            (processed_piece(ov, p, r), processed_count(ov, p))
        } else {
            (Seq::empty(), 0)
        }
    } else {
        let (emit, ov2, cnt) = stream_step(ov, chunks.first(), p, r, w);
        let rest = stream_run(ov2, chunks.drop_first(), p, r, w);
        (emit + rest.0, (cnt + rest.1) as nat)
    }
}

/// The decoded characters of each piece.
pub open spec fn decoded_pieces(pieces: Seq<Seq<u8>>) -> Seq<Seq<char>> {
    pieces.map_values(|b: Seq<u8>| decode_utf8(b))
}

/// The pieces of a run partition the carried overlap followed by all the fed
/// bytes.
proof fn lemma_stream_pieces_flatten(ov: Seq<u8>, chunks: Seq<Seq<u8>>, w: int)
    requires
        0 <= w,
    ensures
        stream_pieces(ov, chunks, w).flatten() == ov + chunks.flatten(),
    decreases chunks.len(),
{
    if chunks.len() == 0 {
        if ov.len() > 0 {
            seq![ov].lemma_flatten_singleton();
            assert(seq![ov].flatten() =~= ov + chunks.flatten());
        } else {
            assert(stream_pieces(ov, chunks, w).flatten() =~= ov + chunks.flatten());
        }
    } else {
        let (head, ov2) = stream_split(ov, chunks.first(), w);
        let rest = stream_pieces(ov2, chunks.drop_first(), w);
        lemma_stream_pieces_flatten(ov2, chunks.drop_first(), w);
        assert(head + ov2 =~= ov + chunks.first());
        if head.len() > 0 {
            lemma_flatten_concat(seq![head], rest);
            assert(seq![head] + rest =~= stream_pieces(ov, chunks, w));
            seq![head].lemma_flatten_singleton();
            assert(seq![head].flatten() =~= head);
            assert(head + (ov2 + chunks.drop_first().flatten()) =~= ov + chunks.flatten());
        } else {
            assert(head =~= Seq::<u8>::empty());
            assert(Seq::<Seq<u8>>::empty() + rest =~= rest);
            assert(stream_pieces(ov, chunks, w) =~= rest);
            assert(ov2 + chunks.drop_first().flatten() =~= ov + chunks.flatten());
        }
    }
}

/// The per-piece counts of a concatenation add up.
proof fn lemma_pieces_count_concat(a: Seq<Seq<char>>, b: Seq<Seq<char>>, p: Seq<char>)
    ensures
        pieces_count(a + b, p) == pieces_count(a, p) + pieces_count(b, p),
    decreases a.len(),
{
    if a.len() == 0 {
        assert(a + b =~= b);
    } else {
        assert((a + b).first() == a.first());
        assert((a + b).drop_first() =~= a.drop_first() + b);
        lemma_pieces_count_concat(a.drop_first(), b, p);
    }
}

/// The replaced pieces of a concatenation concatenate.
proof fn lemma_pieces_replaced_concat(a: Seq<Seq<char>>, b: Seq<Seq<char>>, p: Seq<char>, r: Seq<char>)
    ensures
        pieces_replaced(a + b, p, r) == pieces_replaced(a, p, r) + pieces_replaced(b, p, r),
{
    let f = |piece: Seq<char>| replaced(piece, p, r);
    assert((a + b).map_values(f) =~= a.map_values(f) + b.map_values(f));
    lemma_flatten_concat(a.map_values(f), b.map_values(f));
}

/// When every piece a run processes is valid UTF-8, the run writes each
/// piece's replaced text in order, and counts each piece's occurrences.
proof fn lemma_stream_run_decoded(ov: Seq<u8>, chunks: Seq<Seq<u8>>, p: Seq<char>, r: Seq<char>, w: int)
    requires
        0 <= w,
        forall|i: int|
            0 <= i < stream_pieces(ov, chunks, w).len() ==> valid_utf8(
                #[trigger] stream_pieces(ov, chunks, w)[i],
            ),
    ensures
        stream_run(ov, chunks, p, r, w).0 == encode_utf8(
            pieces_replaced(decoded_pieces(stream_pieces(ov, chunks, w)), p, r),
        ),
        stream_run(ov, chunks, p, r, w).1 == pieces_count(
            decoded_pieces(stream_pieces(ov, chunks, w)),
            p,
        ),
    decreases chunks.len(),
{
    let pieces = stream_pieces(ov, chunks, w);
    let dec = decoded_pieces(pieces);
    if chunks.len() == 0 {
        if ov.len() > 0 {
            assert(pieces == seq![ov]);
            assert(valid_utf8(ov));
            assert(dec =~= seq![decode_utf8(ov)]);
            assert(dec.map_values(|piece: Seq<char>| replaced(piece, p, r)) =~= seq![
                replaced(decode_utf8(ov), p, r)]);
            seq![replaced(decode_utf8(ov), p, r)].lemma_flatten_singleton();
            assert(seq![replaced(decode_utf8(ov), p, r)].flatten() =~= replaced(
                decode_utf8(ov),
                p,
                r,
            ));
            assert(dec.first() == decode_utf8(ov));
            assert(dec.drop_first() =~= Seq::<Seq<char>>::empty());
            assert(pieces_count(Seq::<Seq<char>>::empty(), p) == 0);
            assert(pieces_count(dec, p) == match_count(decode_utf8(ov), p));
            assert(Seq::<Seq<char>>::empty().flatten() =~= Seq::<char>::empty());
            assert(pieces_replaced(dec, p, r) =~= replaced(decode_utf8(ov), p, r));
        } else {
            assert(dec =~= Seq::<Seq<char>>::empty());
            assert(dec.map_values(|piece: Seq<char>| replaced(piece, p, r)) =~= Seq::<
                Seq<char>,
            >::empty());
            assert(pieces_count(Seq::<Seq<char>>::empty(), p) == 0);
            assert(Seq::<Seq<char>>::empty().flatten() =~= Seq::<char>::empty());
            assert(encode_utf8(Seq::<char>::empty()) =~= Seq::<u8>::empty());
        }
    } else {
        let (head, ov2) = stream_split(ov, chunks.first(), w);
        let rest_pieces = stream_pieces(ov2, chunks.drop_first(), w);
        let prefix: Seq<Seq<u8>> = if head.len() > 0 {
            seq![head]
        } else {
            Seq::<Seq<u8>>::empty()
        };
        assert(pieces == prefix + rest_pieces);
        assert forall|i: int| 0 <= i < rest_pieces.len() implies valid_utf8(
            #[trigger] rest_pieces[i],
        ) by {
            assert(rest_pieces[i] == pieces[prefix.len() + i]);
        }
        lemma_stream_run_decoded(ov2, chunks.drop_first(), p, r, w);
        assert(decoded_pieces(prefix + rest_pieces) =~= decoded_pieces(prefix) + decoded_pieces(
            rest_pieces,
        ));
        lemma_pieces_replaced_concat(decoded_pieces(prefix), decoded_pieces(rest_pieces), p, r);
        lemma_pieces_count_concat(decoded_pieces(prefix), decoded_pieces(rest_pieces), p);
        lemma_encode_utf8_concat(
            pieces_replaced(decoded_pieces(prefix), p, r),
            pieces_replaced(decoded_pieces(rest_pieces), p, r),
        );
        if head.len() > 0 {
            assert(valid_utf8(head)) by {
                assert(head == pieces[0]);
            }
            assert(decoded_pieces(prefix) =~= seq![decode_utf8(head)]);
            assert(decoded_pieces(prefix).map_values(|piece: Seq<char>| replaced(piece, p, r))
                =~= seq![replaced(decode_utf8(head), p, r)]);
            seq![replaced(decode_utf8(head), p, r)].lemma_flatten_singleton();
            assert(seq![replaced(decode_utf8(head), p, r)].flatten() =~= replaced(
                decode_utf8(head),
                p,
                r,
            ));
            assert(decoded_pieces(prefix).first() == decode_utf8(head));
            assert(decoded_pieces(prefix).drop_first() =~= Seq::<Seq<char>>::empty());
            assert(pieces_count(Seq::<Seq<char>>::empty(), p) == 0);
            assert(Seq::<Seq<char>>::empty().flatten() =~= Seq::<char>::empty());
            assert(pieces_count(decoded_pieces(prefix), p) == processed_count(head, p));
            assert(pieces_replaced(decoded_pieces(prefix), p, r) == replaced(
                decode_utf8(head),
                p,
                r,
            ));
        } else {
            assert(head =~= Seq::<u8>::empty());
            lemma_processed_piece_empty(p, r);
            assert(decoded_pieces(prefix) =~= Seq::<Seq<char>>::empty());
            assert(decoded_pieces(prefix).map_values(|piece: Seq<char>| replaced(piece, p, r))
                =~= Seq::<Seq<char>>::empty());
            assert(pieces_replaced(decoded_pieces(prefix), p, r) =~= Seq::<char>::empty());
            assert(encode_utf8(Seq::<char>::empty()) =~= Seq::<u8>::empty());
            assert(prefix + rest_pieces =~= rest_pieces);
        }
    }
}

/// Every piece of valid pieces decodes, and the whole decodes piecewise.
proof fn lemma_decode_flatten(pieces: Seq<Seq<u8>>)
    requires
        forall|i: int| 0 <= i < pieces.len() ==> valid_utf8(#[trigger] pieces[i]),
    ensures
        valid_utf8(pieces.flatten()),
        decode_utf8(pieces.flatten()) == decoded_pieces(pieces).flatten(),
    decreases pieces.len(),
{
    if pieces.len() == 0 {
        assert(pieces.flatten() =~= Seq::<u8>::empty());
        assert(decoded_pieces(pieces) =~= Seq::<Seq<char>>::empty());
        assert(decode_utf8(Seq::<u8>::empty()) =~= Seq::<char>::empty());
    } else {
        let first = pieces.first();
        let rest = pieces.drop_first();
        assert forall|i: int| 0 <= i < rest.len() implies valid_utf8(#[trigger] rest[i]) by {
            assert(rest[i] == pieces[i + 1]);
        }
        lemma_decode_flatten(rest);
        assert(valid_utf8(first));
        lemma_decode_utf8_concat(first, rest.flatten());
        assert(decoded_pieces(pieces).first() == decode_utf8(first));
        assert(decoded_pieces(pieces).drop_first() =~= decoded_pieces(rest));
    }
}

/// Streaming equivalence: when every piece the run buffers is valid UTF-8 and
/// no occurrence of the pattern straddles a boundary between two processed
/// pieces, the run writes exactly the one-scan replacement of the whole
/// content and counts exactly its occurrences, whatever the chunk sizes were.
pub proof fn lemma_streaming_matches_sequential(
    chunks: Seq<Seq<u8>>,
    p: Seq<char>,
    r: Seq<char>,
    w: int,
)
    requires
        0 <= w,
        0 < p.len(),
        forall|i: int|
            0 <= i < stream_pieces(Seq::<u8>::empty(), chunks, w).len() ==> valid_utf8(
                #[trigger] stream_pieces(Seq::<u8>::empty(), chunks, w)[i],
            ),
        no_match_spans_pieces(decoded_pieces(stream_pieces(Seq::<u8>::empty(), chunks, w)), p),
    ensures
        valid_utf8(chunks.flatten()),
        stream_run(Seq::<u8>::empty(), chunks, p, r, w).0 == encode_utf8(
            replaced(decode_utf8(chunks.flatten()), p, r),
        ),
        stream_run(Seq::<u8>::empty(), chunks, p, r, w).1 == match_count(
            decode_utf8(chunks.flatten()),
            p,
        ),
{
    let pieces = stream_pieces(Seq::<u8>::empty(), chunks, w);
    let dec = decoded_pieces(pieces);
    lemma_stream_run_decoded(Seq::<u8>::empty(), chunks, p, r, w);
    lemma_replaced_pieces(dec, p, r);
    lemma_decode_flatten(pieces);
    lemma_stream_pieces_flatten(Seq::<u8>::empty(), chunks, w);
    assert(Seq::<u8>::empty() + chunks.flatten() =~= chunks.flatten());
}

/// Bounded-memory streaming replacement. Bytes arrive in chunks of any size;
/// an overlap window of one byte less than the pattern's encoded length is
/// carried from each feed to the next, so that an occurrence spanning a feed
/// boundary is still found as long as it fits the window. A buffered piece
/// that is not valid UTF-8 is passed through unchanged.
pub struct StreamReplacer {
    pattern: String,
    replacement: String,
    overlap: Vec<u8>,
}

impl StreamReplacer {
    /// The pattern being replaced.
    pub closed spec fn spec_pattern(self) -> Seq<char> {
        self.pattern@
    }

    /// The replacement text.
    pub closed spec fn spec_replacement(self) -> Seq<char> {
        self.replacement@
    }

    /// The bytes carried from the previous feed.
    pub closed spec fn spec_overlap(self) -> Seq<u8> {
        self.overlap@
    }

    /// The overlap window: one byte less than the pattern's encoded length.
    pub open spec fn window(self) -> int {
        if self.spec_pattern().len() == 0 {
            0
        } else {
            encode_utf8(self.spec_pattern()).len() - 1
        }
    }

    /// The carried overlap never exceeds the window.
    pub open spec fn wf(self) -> bool {
        self.spec_overlap().len() <= self.window()
    }

    pub fn new(pattern: &str, replacement: &str) -> (s: Self)
        ensures
            s.wf(),
            s.spec_pattern() == pattern@,
            s.spec_replacement() == replacement@,
            s.spec_overlap() == Seq::<u8>::empty(),
    {
        let s = StreamReplacer {
            pattern: pattern.to_owned(),
            replacement: replacement.to_owned(),
            overlap: Vec::new(),
        };
        proof {
            assert(s.overlap@ =~= Seq::<u8>::empty());
        }
        s
    }

    /// Feeds one chunk: returns the bytes to write out and the occurrences
    /// replaced in them, and carries the new overlap forward.
    pub fn feed(&mut self, chunk: &[u8]) -> (out: (Vec<u8>, usize))
        requires
            old(self).wf(),
        ensures
            final(self).wf(),
            final(self).spec_pattern() == old(self).spec_pattern(),
            final(self).spec_replacement() == old(self).spec_replacement(),
            ({
                let (emit, ov2, cnt) = stream_step(
                    old(self).spec_overlap(),
                    chunk@,
                    old(self).spec_pattern(),
                    old(self).spec_replacement(),
                    old(self).window(),
                );
                out.0@ == emit && final(self).spec_overlap() == ov2 && out.1 as nat == cnt
            }),
    {
        let w = if self.pattern.as_str().is_empty() {
            0
        } else {
            self.pattern.as_str().as_bytes().len() - 1
        };
        proof {
            if self.pattern@.len() > 0 {
                crate::multi::lemma_encode_nonempty(self.pattern@);
            }
            assert(w == self.window());
        }
        let mut t: Vec<u8> = Vec::new();
        push_bytes(&mut t, self.overlap.as_slice());
        push_bytes(&mut t, chunk);
        proof {
            assert(t@ == self.overlap@ + chunk@);
        }
        if t.len() <= w {
            self.overlap = t;
            proof {
                lemma_processed_piece_empty(self.spec_pattern(), self.spec_replacement());
            }
            return (Vec::new(), 0);
        }
        let split = t.len() - w;
        let head = slice_to_vec(vstd::slice::slice_subrange(t.as_slice(), 0, split));
        let tail = slice_to_vec(vstd::slice::slice_subrange(t.as_slice(), split, t.len()));
        self.overlap = tail;
        match try_decode_utf8(head.as_slice()) {
            Some(text) => {
                let (rep, cnt) = perform_replacement(
                    text.as_str(),
                    self.pattern.as_str(),
                    self.replacement.as_str(),
                );
                let out_bytes = rep.as_str().as_bytes_vec();
                proof {
                    encode_utf8_decode_utf8(text@);
                    assert(decode_utf8(head@) == text@);
                }
                (out_bytes, cnt)
            },
            None => (head, 0),
        }
    }

    /// Ends the stream: whatever overlap is still carried is processed as a
    /// final piece and returned with its count; the overlap is emptied.
    pub fn finish(&mut self) -> (out: (Vec<u8>, usize))
        requires
            old(self).wf(),
        ensures
            final(self).wf(),
            final(self).spec_pattern() == old(self).spec_pattern(),
            final(self).spec_replacement() == old(self).spec_replacement(),
            final(self).spec_overlap() == Seq::<u8>::empty(),
            old(self).spec_overlap().len() > 0 ==> out.0@ == processed_piece(
                old(self).spec_overlap(),
                old(self).spec_pattern(),
                old(self).spec_replacement(),
            ) && out.1 as nat == processed_count(old(self).spec_overlap(), old(self).spec_pattern()),
            old(self).spec_overlap().len() == 0 ==> out.0@ == Seq::<u8>::empty() && out.1 == 0,
    {
        let ov = slice_to_vec(self.overlap.as_slice());
        self.overlap = Vec::new();
        proof {
            assert(self.overlap@ =~= Seq::<u8>::empty());
        }
        if ov.len() == 0 {
            return (Vec::new(), 0);
        }
        match try_decode_utf8(ov.as_slice()) {
            Some(text) => {
                let (rep, cnt) = perform_replacement(
                    text.as_str(),
                    self.pattern.as_str(),
                    self.replacement.as_str(),
                );
                let out_bytes = rep.as_str().as_bytes_vec();
                proof {
                    encode_utf8_decode_utf8(text@);
                    assert(decode_utf8(ov@) == text@);
                }
                (out_bytes, cnt)
            },
            None => (ov, 0),
        }
    }
}

} // verus!
