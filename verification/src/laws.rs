use vstd::prelude::*;
use vstd::utf8::is_ascii_chars;

use crate::model::match_at;
use crate::model::match_count;
use crate::model::match_positions_from;
use crate::model::replaced;
use crate::model::replaced_from;

verus! {

/// The bytes of an ASCII character sequence, one byte per character.
pub open spec fn ascii_bytes(s: Seq<char>) -> Seq<u8> {
    s.map_values(|c: char| c as u8)
}

/// Two ASCII characters with the same byte are the same character.
proof fn lemma_ascii_char_eq(c: char, d: char)
    requires
        '\0' <= c <= '\u{7f}',
        '\0' <= d <= '\u{7f}',
        c as u8 == d as u8,
    ensures
        c == d,
{
    vstd::utf8::char_u32_cast(c, c as u32);
    vstd::utf8::char_u32_cast(d, d as u32);
    assert(c as u32 == d as u32);
}

/// A pattern occurs at a position of ASCII content exactly when its bytes
/// occur at the same position of the content's bytes.
proof fn lemma_ascii_match_at(c: Seq<char>, p: Seq<char>, i: int)
    requires
        is_ascii_chars(c),
        is_ascii_chars(p),
        0 <= i,
    ensures
        match_at(ascii_bytes(c), ascii_bytes(p), i) == match_at(c, p, i),
{
    let bc = ascii_bytes(c);
    let bp = ascii_bytes(p);
    if i + p.len() <= c.len() {
        if c.subrange(i, i + p.len() as int) == p {
            assert(bc.subrange(i, i + bp.len() as int) =~= bp);
        }
        if bc.subrange(i, i + bp.len() as int) == bp {
            assert forall|k: int| 0 <= k < p.len() implies c[i + k] == p[k] by {
                assert(bc.subrange(i, i + bp.len() as int)[k] == bp[k]);
                lemma_ascii_char_eq(c[i + k], p[k]);
            }
            assert(c.subrange(i, i + p.len() as int) =~= p);
        }
    }
}

/// The byte-oriented scan and the character-oriented scan agree on ASCII
/// input, position by position.
proof fn lemma_ascii_scan_equiv(c: Seq<char>, p: Seq<char>, r: Seq<char>, i: int)
    requires
        is_ascii_chars(c),
        is_ascii_chars(p),
        0 < p.len(),
        0 <= i <= c.len(),
    ensures
        replaced_from(ascii_bytes(c), ascii_bytes(p), ascii_bytes(r), i) == ascii_bytes(
            replaced_from(c, p, r, i),
        ),
        match_positions_from(ascii_bytes(c), ascii_bytes(p), i) == match_positions_from(c, p, i),
    decreases c.len() - i,
{
    let bc = ascii_bytes(c);
    let bp = ascii_bytes(p);
    let br = ascii_bytes(r);
    lemma_ascii_match_at(c, p, i);
    if i >= c.len() {
        assert(replaced_from(bc, bp, br, i) =~= ascii_bytes(replaced_from(c, p, r, i)));
    } else if match_at(c, p, i) {
        lemma_ascii_scan_equiv(c, p, r, i + p.len() as int);
        assert(br + ascii_bytes(replaced_from(c, p, r, i + p.len() as int)) =~= ascii_bytes(
            r + replaced_from(c, p, r, i + p.len() as int),
        ));
    } else {
        lemma_ascii_scan_equiv(c, p, r, i + 1);
        assert(seq![bc[i]] + ascii_bytes(replaced_from(c, p, r, i + 1)) =~= ascii_bytes(
            seq![c[i]] + replaced_from(c, p, r, i + 1),
        ));
    }
}

/// ASCII/Unicode equivalence: on ASCII content, pattern and replacement, the
/// byte-oriented path and the character-oriented path produce the same text
/// and the same count.
pub proof fn lemma_ascii_replace_equiv(c: Seq<char>, p: Seq<char>, r: Seq<char>)
    requires
        is_ascii_chars(c),
        is_ascii_chars(p),
        is_ascii_chars(r),
    ensures
        replaced(ascii_bytes(c), ascii_bytes(p), ascii_bytes(r)) == ascii_bytes(replaced(c, p, r)),
        match_count(ascii_bytes(c), ascii_bytes(p)) == match_count(c, p),
{
    if p.len() == 0 {
    } else {
        lemma_ascii_scan_equiv(c, p, r, 0);
    }
}

/// Replacing a pattern by itself changes nothing past the scan position.
proof fn lemma_replaced_from_self<A>(c: Seq<A>, p: Seq<A>, i: int)
    requires
        0 < p.len(),
        0 <= i <= c.len(),
    ensures
        replaced_from(c, p, p, i) == c.subrange(i, c.len() as int),
    decreases c.len() - i,
{
    if i >= c.len() {
        assert(replaced_from(c, p, p, i) =~= c.subrange(i, c.len() as int));
    } else if match_at(c, p, i) {
        lemma_replaced_from_self(c, p, i + p.len() as int);
        assert(p + c.subrange(i + p.len() as int, c.len() as int) =~= c.subrange(
            i,
            c.len() as int,
        ));
    } else {
        lemma_replaced_from_self(c, p, i + 1);
        assert(seq![c[i]] + c.subrange(i + 1, c.len() as int) =~= c.subrange(i, c.len() as int));
    }
}

/// Replacing a pattern by itself returns the content unchanged.
pub proof fn lemma_replace_self<A>(c: Seq<A>, p: Seq<A>)
    ensures
        replaced(c, p, p) == c,
{
    if p.len() > 0 {
        lemma_replaced_from_self(c, p, 0);
        assert(c.subrange(0, c.len() as int) =~= c);
    }
}

/// Idempotence: replacing and then replacing the replacement by itself leaves
/// the first result unchanged; a single pass never re-matches the text it has
/// substituted in.
pub proof fn lemma_replace_idempotent<A>(c: Seq<A>, p: Seq<A>, r: Seq<A>)
    ensures
        replaced(replaced(c, p, r), r, r) == replaced(c, p, r),
{
    lemma_replace_self(replaced(c, p, r), r);
}

/// No occurrence of `p` in `full` straddles position `b`: none starts before
/// `b` and ends after it.
pub open spec fn no_match_spans<A>(full: Seq<A>, p: Seq<A>, b: int) -> bool {
    forall|i: int| b - p.len() < i < b ==> !match_at(full, p, i)
}

/// An occurrence within the second part of a concatenation is an occurrence
/// of the whole, shifted by the first part's length.
proof fn lemma_match_at_shift<A>(c1: Seq<A>, c2: Seq<A>, p: Seq<A>, j: int)
    requires
        0 <= j,
    ensures
        match_at(c1 + c2, p, c1.len() + j) == match_at(c2, p, j),
{
    if j + p.len() <= c2.len() {
        assert((c1 + c2).subrange(c1.len() + j, c1.len() + j + p.len() as int) =~= c2.subrange(
            j,
            j + p.len() as int,
        ));
    }
}

/// Scanning a concatenation from inside the second part is scanning the
/// second part alone.
proof fn lemma_scan_shift<A>(c1: Seq<A>, c2: Seq<A>, p: Seq<A>, r: Seq<A>, j: int)
    requires
        0 < p.len(),
        0 <= j <= c2.len(),
    ensures
        replaced_from(c1 + c2, p, r, c1.len() + j) == replaced_from(c2, p, r, j),
        match_positions_from(c1 + c2, p, c1.len() + j).len() == match_positions_from(
            c2,
            p,
            j,
        ).len(),
    decreases c2.len() - j,
{
    let full = c1 + c2;
    lemma_match_at_shift(c1, c2, p, j);
    if j >= c2.len() {
    } else if match_at(c2, p, j) {
        lemma_scan_shift(c1, c2, p, r, j + p.len() as int);
    } else {
        lemma_scan_shift(c1, c2, p, r, j + 1);
        assert(full[c1.len() + j] == c2[j]);
    }
}

/// Scanning a concatenation whose junction no occurrence straddles is
/// scanning the parts separately.
proof fn lemma_scan_concat<A>(c1: Seq<A>, c2: Seq<A>, p: Seq<A>, r: Seq<A>, i: int)
    requires
        0 < p.len(),
        0 <= i <= c1.len(),
        no_match_spans(c1 + c2, p, c1.len() as int),
    ensures
        replaced_from(c1 + c2, p, r, i) == replaced_from(c1, p, r, i) + replaced_from(c2, p, r, 0),
        match_positions_from(c1 + c2, p, i).len() == match_positions_from(c1, p, i).len()
            + match_positions_from(c2, p, 0).len(),
    decreases c1.len() - i,
{
    let full = c1 + c2;
    if i == c1.len() {
        lemma_scan_shift(c1, c2, p, r, 0);
        assert(replaced_from(c1, p, r, i) + replaced_from(c2, p, r, 0) =~= replaced_from(
            c2,
            p,
            r,
            0,
        ));
    } else {
        if i + p.len() <= c1.len() {
            assert(full.subrange(i, i + p.len() as int) =~= c1.subrange(i, i + p.len() as int));
            assert(match_at(full, p, i) == match_at(c1, p, i));
            if match_at(c1, p, i) {
                lemma_scan_concat(c1, c2, p, r, i + p.len() as int);
                assert(r + (replaced_from(c1, p, r, i + p.len() as int) + replaced_from(
                    c2,
                    p,
                    r,
                    0,
                )) =~= (r + replaced_from(c1, p, r, i + p.len() as int)) + replaced_from(
                    c2,
                    p,
                    r,
                    0,
                ));
            } else {
                lemma_scan_concat(c1, c2, p, r, i + 1);
                assert(full[i] == c1[i]);
                assert(seq![c1[i]] + (replaced_from(c1, p, r, i + 1) + replaced_from(c2, p, r, 0))
                    =~= (seq![c1[i]] + replaced_from(c1, p, r, i + 1)) + replaced_from(
                    c2,
                    p,
                    r,
                    0,
                ));
            }
        } else {
            assert(!match_at(full, p, i));
            assert(!match_at(c1, p, i));
            lemma_scan_concat(c1, c2, p, r, i + 1);
            assert(full[i] == c1[i]);
            assert(seq![c1[i]] + (replaced_from(c1, p, r, i + 1) + replaced_from(c2, p, r, 0)) =~= (
            seq![c1[i]] + replaced_from(c1, p, r, i + 1)) + replaced_from(c2, p, r, 0));
        }
    }
}

/// Replacing over a concatenation equals concatenating the separate
/// replacements, and the counts add, whenever no occurrence of the pattern
/// straddles the junction.
pub proof fn lemma_replaced_concat<A>(c1: Seq<A>, c2: Seq<A>, p: Seq<A>, r: Seq<A>)
    requires
        0 < p.len(),
        no_match_spans(c1 + c2, p, c1.len() as int),
    ensures
        replaced(c1 + c2, p, r) == replaced(c1, p, r) + replaced(c2, p, r),
        match_count(c1 + c2, p) == match_count(c1, p) + match_count(c2, p),
{
    lemma_scan_concat(c1, c2, p, r, 0);
}

/// How many elements the first `k` pieces hold together.
pub open spec fn prefix_len<A>(pieces: Seq<Seq<A>>, k: int) -> int
    decreases pieces.len(),
{
    if k <= 0 || pieces.len() == 0 {
        0
    } else {
        pieces.first().len() + prefix_len(pieces.drop_first(), k - 1)
    }
}

/// The pieces each replaced on their own, in order.
pub open spec fn pieces_replaced<A>(pieces: Seq<Seq<A>>, p: Seq<A>, r: Seq<A>) -> Seq<A> {
    pieces.map_values(|piece: Seq<A>| replaced(piece, p, r)).flatten()
}

/// The per-piece counts, added up.
pub open spec fn pieces_count<A>(pieces: Seq<Seq<A>>, p: Seq<A>) -> nat
    decreases pieces.len(),
{
    if pieces.len() == 0 {
        0
    } else {
        match_count(pieces.first(), p) + pieces_count(pieces.drop_first(), p)
    }
}

/// No occurrence of `p` in the concatenation of the pieces straddles a
/// junction between two pieces.
pub open spec fn no_match_spans_pieces<A>(pieces: Seq<Seq<A>>, p: Seq<A>) -> bool {
    forall|k: int|
        0 < k < pieces.len() ==> no_match_spans(pieces.flatten(), p, #[trigger] prefix_len(
            pieces,
            k,
        ))
}

/// Replacing piece by piece equals replacing the concatenation in one scan,
/// and the per-piece counts add up to the one scan's count, whenever no
/// occurrence of the pattern straddles a junction between pieces.
pub proof fn lemma_replaced_pieces<A>(pieces: Seq<Seq<A>>, p: Seq<A>, r: Seq<A>)
    requires
        0 < p.len(),
        no_match_spans_pieces(pieces, p),
    ensures
        pieces_replaced(pieces, p, r) == replaced(pieces.flatten(), p, r),
        pieces_count(pieces, p) == match_count(pieces.flatten(), p),
    decreases pieces.len(),
{
    let mapped = pieces.map_values(|piece: Seq<A>| replaced(piece, p, r));
    if pieces.len() == 0 {
        assert(replaced(pieces.flatten(), p, r) =~= Seq::<A>::empty());
    } else {
        let c1 = pieces.first();
        let rest = pieces.drop_first();
        let full = pieces.flatten();
        assert(full == c1 + rest.flatten());
        // the junction after the first piece
        assert(no_match_spans(full, p, c1.len() as int)) by {
            if pieces.len() > 1 {
                assert(prefix_len(pieces, 1) == c1.len() + prefix_len(rest, 0));
            } else {
                assert(rest.flatten() =~= Seq::<A>::empty());
                assert(full =~= c1);
                assert forall|i: int|
                    c1.len() - p.len() < i < c1.len() implies !match_at(full, p, i) by {}
            }
        }
        lemma_replaced_concat(c1, rest.flatten(), p, r);
        // the junctions among the remaining pieces, shifted left by |c1|
        assert forall|k: int| 0 < k < rest.len() implies no_match_spans(
            rest.flatten(),
            p,
            #[trigger] prefix_len(rest, k),
        ) by {
            let b = prefix_len(rest, k);
            assert(prefix_len(pieces, k + 1) == c1.len() + b);
            assert(no_match_spans(full, p, c1.len() + b));
            assert forall|i: int| b - p.len() < i < b implies !match_at(rest.flatten(), p, i) by {
                if i >= 0 {
                    lemma_match_at_shift(c1, rest.flatten(), p, i);
                    assert(!match_at(full, p, c1.len() + i));
                }
            }
        }
        lemma_replaced_pieces(rest, p, r);
        assert(mapped.drop_first() =~= rest.map_values(|piece: Seq<A>| replaced(piece, p, r)));
        assert(mapped.flatten() == mapped.first() + mapped.drop_first().flatten());
        assert(mapped.first() == replaced(c1, p, r));
    }
}

} // verus!
