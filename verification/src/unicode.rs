use vstd::prelude::*;
use vstd::utf8::*;

use crate::model::match_at;
use crate::model::replaced;
use crate::model::replaced_from;

verus! {

/// Every byte of the sequence is a plain ASCII byte.
pub open spec fn all_ascii_bytes(s: Seq<u8>) -> bool {
    forall|i: int| 0 <= i < s.len() ==> #[trigger] s[i] < 0x80
}

/// The UTF-8 encoding of an ASCII character sequence consists of ASCII bytes.
pub proof fn lemma_ascii_chars_bytes_ascii(chars: Seq<char>)
    requires
        is_ascii_chars(chars),
    ensures
        all_ascii_bytes(encode_utf8(chars)),
    decreases chars.len(),
{
    if chars.len() > 0 {
        let c0 = chars[0] as u32;
        assert(has_width_1_encoding(c0));
        assert(((c0 & 0x7F) as u8) < 0x80) by (bit_vector);
        assert(is_ascii_chars(chars.drop_first()));
        lemma_ascii_chars_bytes_ascii(chars.drop_first());
        let whole = encode_utf8(chars);
        let rest = encode_utf8(chars.drop_first());
        assert(whole == encode_scalar(c0) + rest);
        assert forall|i: int| 0 <= i < whole.len() implies #[trigger] whole[i] < 0x80 by {
            if i == 0 {
                assert(whole[0] == leading_byte_width_1(c0));
            } else {
                assert(whole[i] == rest[i - 1]);
            }
        }
    }
}

/// Every element of a replacement's result comes from the content or from the
/// replacement text.
proof fn lemma_replaced_from_elements<A>(c: Seq<A>, p: Seq<A>, r: Seq<A>, i: int)
    requires
        0 < p.len(),
        0 <= i <= c.len(),
    ensures
        forall|x: A|
            #[trigger] replaced_from(c, p, r, i).contains(x) ==> c.contains(x) || r.contains(x),
    decreases c.len() - i,
{
    if i >= c.len() {
    } else if match_at(c, p, i) {
        lemma_replaced_from_elements(c, p, r, i + p.len() as int);
        assert forall|x: A| #[trigger]
            replaced_from(c, p, r, i).contains(x) implies c.contains(x) || r.contains(x) by {
            let j = choose|j: int|
                0 <= j < replaced_from(c, p, r, i).len() && replaced_from(c, p, r, i)[j] == x;
            if j < r.len() {
                assert(r[j] == x);
            } else {
                assert(replaced_from(c, p, r, i + p.len() as int).contains(x));
            }
        }
    } else {
        lemma_replaced_from_elements(c, p, r, i + 1);
        assert forall|x: A| #[trigger]
            replaced_from(c, p, r, i).contains(x) implies c.contains(x) || r.contains(x) by {
            let j = choose|j: int|
                0 <= j < replaced_from(c, p, r, i).len() && replaced_from(c, p, r, i)[j] == x;
            if j == 0 {
                assert(c[i] == x);
            } else {
                assert(replaced_from(c, p, r, i + 1).contains(x));
            }
        }
    }
}

/// Every element of the replaced content comes from the content or from the
/// replacement text.
pub proof fn lemma_replaced_elements<A>(c: Seq<A>, p: Seq<A>, r: Seq<A>)
    ensures
        forall|x: A| #[trigger] replaced(c, p, r).contains(x) ==> c.contains(x) || r.contains(x),
{
    if p.len() > 0 {
        lemma_replaced_from_elements(c, p, r, 0);
    }
}

/// Replacing within ASCII bytes, by ASCII bytes, yields ASCII bytes.
pub proof fn lemma_replaced_ascii_bytes(c: Seq<u8>, p: Seq<u8>, r: Seq<u8>)
    requires
        all_ascii_bytes(c),
        all_ascii_bytes(r),
    ensures
        all_ascii_bytes(replaced(c, p, r)),
{
    lemma_replaced_elements(c, p, r);
    let out = replaced(c, p, r);
    assert forall|i: int| 0 <= i < out.len() implies #[trigger] out[i] < 0x80 by {
        assert(out.contains(out[i]));
        if c.contains(out[i]) {
            let j = choose|j: int| 0 <= j < c.len() && c[j] == out[i];
            assert(c[j] < 0x80);
        } else {
            let j = choose|j: int| 0 <= j < r.len() && r[j] == out[i];
            assert(r[j] < 0x80);
        }
    }
}

/// Replacing within ASCII characters, by ASCII characters, yields ASCII
/// characters.
pub proof fn lemma_replaced_ascii_chars(c: Seq<char>, p: Seq<char>, r: Seq<char>)
    requires
        is_ascii_chars(c),
        is_ascii_chars(r),
    ensures
        is_ascii_chars(replaced(c, p, r)),
{
    lemma_replaced_elements(c, p, r);
    let out = replaced(c, p, r);
    assert forall|i: int| 0 <= i < out.len() implies '\0' <= #[trigger] out[i] <= '\u{7f}' by {
        assert(out.contains(out[i]));
        if c.contains(out[i]) {
            let j = choose|j: int| 0 <= j < c.len() && c[j] == out[i];
            assert('\0' <= c[j] <= '\u{7f}');
        } else {
            let j = choose|j: int| 0 <= j < r.len() && r[j] == out[i];
            assert('\0' <= r[j] <= '\u{7f}');
        }
    }
}

/// A sequence of ASCII bytes is valid UTF-8.
pub proof fn lemma_ascii_bytes_valid_utf8(s: Seq<u8>)
    requires
        all_ascii_bytes(s),
    ensures
        valid_utf8(s),
{
    assert(s.subrange(0, 0) =~= Seq::<u8>::empty());
    assert(partial_valid_utf8(s, 0));
    partial_valid_utf8_extend_ascii_block(s, 0, s.len() as int);
    assert(s.subrange(0, s.len() as int) =~= s);
}

/// Character sequences with the same UTF-8 encoding are the same.
pub proof fn lemma_encode_utf8_injective(a: Seq<char>, b: Seq<char>)
    requires
        encode_utf8(a) == encode_utf8(b),
    ensures
        a == b,
{
    encode_utf8_decode_utf8(a);
    encode_utf8_decode_utf8(b);
}

/// A valid UTF-8 prefix of a valid UTF-8 sequence ends on a character
/// boundary.
pub proof fn lemma_valid_prefix_boundary(x: Seq<u8>, k: int)
    requires
        valid_utf8(x),
        0 <= k <= x.len(),
        valid_utf8(x.subrange(0, k)),
    ensures
        is_char_boundary(x, k),
    decreases k,
{
    if k > 0 {
        let prefix = x.subrange(0, k);
        assert(valid_first_scalar(x));
        assert(valid_first_scalar(prefix));
        assert(prefix[0] == x[0]);
        let l = length_of_first_scalar(x);
        assert(length_of_first_scalar(prefix) == l);
        assert(l <= k);
        let xt = pop_first_scalar(x);
        let pt = pop_first_scalar(prefix);
        assert(pt =~= xt.subrange(0, k - l));
        assert(valid_utf8(xt));
        assert(valid_utf8(pt));
        lemma_valid_prefix_boundary(xt, k - l);
    }
}

/// A nonempty whole UTF-8 encoding occurring inside valid UTF-8 starts and
/// ends on character boundaries of the surrounding sequence.
pub proof fn lemma_embedded_valid_segment(x: Seq<u8>, s: int, e: int)
    requires
        valid_utf8(x),
        0 <= s < e <= x.len(),
        valid_utf8(x.subrange(s, e)),
    ensures
        is_char_boundary(x, s),
        is_char_boundary(x, e),
        valid_utf8(x.subrange(0, s)),
        valid_utf8(x.subrange(0, e)),
{
    let seg = x.subrange(s, e);
    assert(valid_first_scalar(seg));
    assert(!is_continuation_byte(seg[0]));
    assert(x[s] == seg[0]);
    is_char_boundary_iff_not_is_continuation_byte(x, s);
    valid_utf8_split(x, s);
    valid_utf8_concat(x.subrange(0, s), seg);
    assert(x.subrange(0, s) + seg =~= x.subrange(0, e));
    lemma_valid_prefix_boundary(x, e);
}


/// Encoding distributes over concatenation.
pub proof fn lemma_encode_utf8_concat(a: Seq<char>, b: Seq<char>)
    ensures
        encode_utf8(a + b) == encode_utf8(a) + encode_utf8(b),
    decreases a.len(),
{
    if a.len() == 0 {
        assert(a + b =~= b);
        assert(encode_utf8(a) =~= Seq::<u8>::empty());
        assert(encode_utf8(a) + encode_utf8(b) =~= encode_utf8(b));
    } else {
        lemma_encode_utf8_concat(a.drop_first(), b);
        assert((a + b).drop_first() =~= a.drop_first() + b);
        assert((a + b)[0] == a[0]);
        assert(encode_scalar(a[0] as u32) + (encode_utf8(a.drop_first()) + encode_utf8(b)) =~= (
        encode_scalar(a[0] as u32) + encode_utf8(a.drop_first())) + encode_utf8(b));
    }
}

/// Decoding distributes over concatenation of valid UTF-8 sequences.
pub proof fn lemma_decode_utf8_concat(a: Seq<u8>, b: Seq<u8>)
    requires
        valid_utf8(a),
        valid_utf8(b),
    ensures
        valid_utf8(a + b),
        decode_utf8(a + b) == decode_utf8(a) + decode_utf8(b),
{
    valid_utf8_concat(a, b);
    assert((a + b).subrange(0, a.len() as int) =~= a);
    lemma_valid_prefix_boundary(a + b, a.len() as int);
    decode_utf8_split(a + b, a.len() as int);
    assert((a + b).subrange(a.len() as int, (a + b).len() as int) =~= b);
}

/// Relies on std's `String::from_utf8`: turns UTF-8 bytes into the string
/// that encodes to exactly those bytes; it returns `Ok` on every valid UTF-8
/// input.
#[verifier::external_body]
pub fn string_from_utf8(v: Vec<u8>) -> (r: String)
    requires
        valid_utf8(v@),
    ensures
        encode_utf8(r@) == v@,
{
    match String::from_utf8(v) {
        Ok(s) => s,
        Err(_) => String::new(),
    }
}

/// Relies on std's `str::from_utf8`: returns the decoded string exactly when
/// the bytes are valid UTF-8, and `None` otherwise.
#[verifier::external_body]
pub fn try_decode_utf8(v: &[u8]) -> (r: Option<String>)
    ensures
        r is Some <==> valid_utf8(v@),
        r is Some ==> encode_utf8(r.unwrap()@) == v@,
{
    match std::str::from_utf8(v) {
        Ok(s) => Some(s.to_string()),
        Err(_) => None,
    }
}

} // verus!
