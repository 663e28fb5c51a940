use vstd::prelude::*;
use vstd::string::StrSliceExecFns;
use vstd::string::StringExecFns;
use vstd::string::StringSliceAdditionalSpecFns;
use vstd::utf8::encode_utf8_valid_utf8;
use vstd::utf8::is_ascii_chars;
use vstd::utf8::is_ascii_chars_encode_utf8;

use crate::config::ReplacementConfig;
use crate::laws::ascii_bytes;
use crate::laws::pieces_count;
use crate::laws::pieces_replaced;
use crate::parallel::ascii_chunk_size;
use crate::parallel::perform_replacement_parallel;
use crate::parallel::spec_byte_chunks;
use crate::parallel::spec_chunks;
use crate::laws::lemma_ascii_replace_equiv;
use crate::model::match_count;
use crate::model::replaced;
use crate::sequential::perform_replacement;
use crate::sequential::perform_replacement_ascii;
use crate::unicode::lemma_encode_utf8_injective;
use crate::unicode::lemma_replaced_ascii_chars;
use crate::unicode::string_from_utf8;

verus! {

/// Whether content, pattern and replacement are all ASCII, so that the
/// byte-oriented scan applies.
pub fn should_use_ascii_optimization(content: &str, pattern: &str, replacement: &str) -> (b: bool)
    ensures
        b == (is_ascii_chars(content@) && is_ascii_chars(pattern@) && is_ascii_chars(
            replacement@,
        )),
{
    content.is_ascii() && pattern.is_ascii() && replacement.is_ascii()
}

/// Whether two string slices hold the same characters.
fn str_eq(a: &str, b: &str) -> (r: bool)
    ensures
        r == (a@ == b@),
{
    let alen = a.unicode_len();
    let blen = b.unicode_len();
    if alen != blen {
        proof {
            assert(a@ != b@);
        }
        return false;
    }
    let mut i: usize = 0;
    while i < alen
        invariant
            alen == a@.len() == b@.len(),
            0 <= i <= alen,
            forall|k: int| 0 <= k < i ==> a@[k] == b@[k],
        decreases alen - i,
    {
        if a.get_char(i) != b.get_char(i) {
            return false;
        }
        i = i + 1;
    }
    proof {
        assert(a@ =~= b@);
    }
    true
}

/// The fingerprint under which a result is cached: the three texts that
/// determine the result.
pub struct CacheKey {
    pub content: String,
    pub pattern: String,
    pub replacement: String,
}

/// The fingerprint for one replacement request.
pub fn generate_cache_key(content: &str, pattern: &str, replacement: &str) -> (k: CacheKey)
    ensures
        k.content@ == content@,
        k.pattern@ == pattern@,
        k.replacement@ == replacement@,
{
    CacheKey {
        content: content.to_owned(),
        pattern: pattern.to_owned(),
        replacement: replacement.to_owned(),
    }
}

/// An owned memo of earlier replacements, held and passed by the caller. It
/// grows with each new request and never evicts.
pub struct ReplacementCache {
    entries: Vec<(CacheKey, (String, usize))>,
}

impl ReplacementCache {
    /// Every stored result is the replaced text and count of its key.
    pub closed spec fn wf(self) -> bool {
        forall|i: int|
            0 <= i < self.entries@.len() ==> {
                let e = #[trigger] self.entries@[i];
                e.1.0@ == replaced(e.0.content@, e.0.pattern@, e.0.replacement@) && e.1.1 as nat
                    == match_count(e.0.content@, e.0.pattern@)
            }
    }

    pub fn new() -> (c: Self)
        ensures
            c.wf(),
            c.spec_len() == 0,
    {
        ReplacementCache { entries: Vec::new() }
    }

    /// How many results the cache holds.
    pub closed spec fn spec_len(self) -> nat {
        self.entries@.len()
    }

    /// How many results the cache holds.
    pub fn len(&self) -> (n: usize)
        ensures
            n == self.spec_len(),
    {
        self.entries.len()
    }

    /// The stored result for the request, if any was stored.
    fn lookup(&self, content: &str, pattern: &str, replacement: &str) -> (r: Option<
        (String, usize),
    >)
        requires
            self.wf(),
        ensures
            r is Some ==> r.unwrap().0@ == replaced(content@, pattern@, replacement@)
                && r.unwrap().1 as nat == match_count(content@, pattern@),
    {
        let n = self.entries.len();
        let mut i: usize = 0;
        while i < n
            invariant
                self.wf(),
                n == self.entries@.len(),
                0 <= i <= n,
            decreases n - i,
        {
            let e = &self.entries[i];
            if str_eq(e.0.content.as_str(), content) && str_eq(e.0.pattern.as_str(), pattern)
                && str_eq(e.0.replacement.as_str(), replacement) {
                let text = e.1.0.clone();
                proof {
                    assert(text@ == replaced(content@, pattern@, replacement@));
                }
                return Some((text, e.1.1));
            }
            i = i + 1;
        }
        None
    }

    /// Stores a result under its fingerprint.
    fn insert(&mut self, key: CacheKey, result: (String, usize))
        requires
            old(self).wf(),
            result.0@ == replaced(key.content@, key.pattern@, key.replacement@),
            result.1 as nat == match_count(key.content@, key.pattern@),
        ensures
            final(self).wf(),
            final(self).spec_len() == old(self).spec_len() + 1,
    {
        self.entries.push((key, result));
    }
}

/// Replacement that chooses the byte-oriented scan when content, pattern and
/// replacement are all ASCII, and the character-oriented scan otherwise; the
/// two agree on ASCII input, so the result is the replaced text and the count
/// either way. The `use_cache` flag does not change the result; a cache that
/// outlives one call is an explicit object here, owned by the caller: see
/// `perform_replacement_cached`.
#[allow(unused_variables)]
pub fn perform_replacement_utf8_optimized(
    content: &str,
    pattern: &str,
    replacement: &str,
    use_cache: bool,
) -> (r: (String, usize))
    ensures
        r.0@ == replaced(content@, pattern@, replacement@),
        r.1 as nat == match_count(content@, pattern@),
{
    if should_use_ascii_optimization(content, pattern, replacement) {
        let (out, count) = perform_replacement_ascii(
            content.as_bytes(),
            pattern.as_bytes(),
            replacement.as_bytes(),
        );
        let ghost chars_out = replaced(content@, pattern@, replacement@);
        proof {
            is_ascii_chars_encode_utf8(content@);
            is_ascii_chars_encode_utf8(pattern@);
            is_ascii_chars_encode_utf8(replacement@);
            assert(content.spec_bytes() =~= ascii_bytes(content@));
            assert(pattern.spec_bytes() =~= ascii_bytes(pattern@));
            assert(replacement.spec_bytes() =~= ascii_bytes(replacement@));
            lemma_ascii_replace_equiv(content@, pattern@, replacement@);
            lemma_replaced_ascii_chars(content@, pattern@, replacement@);
            is_ascii_chars_encode_utf8(chars_out);
            assert(vstd::utf8::encode_utf8(chars_out) =~= ascii_bytes(chars_out));
            encode_utf8_valid_utf8(chars_out);
            assert(out@ == vstd::utf8::encode_utf8(chars_out));
        }
        let text = string_from_utf8(out);
        proof {
            lemma_encode_utf8_injective(text@, chars_out);
        }
        (text, count)
    } else {
        perform_replacement(content, pattern, replacement)
    }
}


/// Replacement under a configuration: content above the parallel threshold
/// goes to the chunked parallel engine with chunks of half the threshold,
/// smaller content to the adaptive scan, with the configuration's caching
/// flag handed through.
pub fn replace_with_config(
    content: &str,
    pattern: &str,
    replacement: &str,
    config: &ReplacementConfig,
) -> (r: (String, usize))
    ensures
        content.spec_bytes().len() <= config.parallel_threshold ==> r.0@ == replaced(
            content@,
            pattern@,
            replacement@,
        ) && r.1 as nat == match_count(content@, pattern@),
        ({
            let chunk = config.parallel_threshold as int / 2;
            let cb = content.spec_bytes();
            let pb = pattern.spec_bytes();
            let rb = replacement.spec_bytes();
            let size = ascii_chunk_size(chunk, pb.len() as int);
            &&& (cb.len() > config.parallel_threshold && pattern@.len() == 0) ==> r.0@ == content@
                && r.1 == 0
            &&& (cb.len() > config.parallel_threshold && pattern@.len() > 0 && cb.len() < chunk)
                ==> r.0@ == replaced(content@, pattern@, replacement@) && r.1 as nat
                == match_count(content@, pattern@)
            &&& (cb.len() > config.parallel_threshold && pattern@.len() > 0 && cb.len() >= chunk
                && content.is_ascii() && pattern.is_ascii() && replacement.is_ascii()) ==> (
            vstd::utf8::encode_utf8(r.0@) == pieces_replaced(spec_byte_chunks(cb, size), pb, rb)
                && r.1 as nat == pieces_count(spec_byte_chunks(cb, size), pb))
            &&& (cb.len() > config.parallel_threshold && pattern@.len() > 0 && cb.len() >= chunk
                && !(content.is_ascii() && pattern.is_ascii() && replacement.is_ascii())) ==> (r.0@
                == pieces_replaced(spec_chunks(content@, chunk), pattern@, replacement@) && r.1
                as nat == pieces_count(spec_chunks(content@, chunk), pattern@))
        }),
{
    if content.as_bytes().len() > config.parallel_threshold {
        perform_replacement_parallel(content, pattern, replacement, config.parallel_threshold / 2)
    } else {
        perform_replacement_utf8_optimized(content, pattern, replacement, config.enable_caching)
    }
}

/// The adaptive replacement, memoized in a caller-owned cache: a stored
/// result is returned as it was stored, a missing one is computed and stored.
/// Either way the result is the replaced text and count of the request, so
/// repeating a call cannot change what the first call returned.
pub fn perform_replacement_cached(
    content: &str,
    pattern: &str,
    replacement: &str,
    cache: &mut ReplacementCache,
) -> (r: (String, usize))
    requires
        old(cache).wf(),
    ensures
        final(cache).wf(),
        r.0@ == replaced(content@, pattern@, replacement@),
        r.1 as nat == match_count(content@, pattern@),
{
    match cache.lookup(content, pattern, replacement) {
        Some(hit) => hit,
        None => {
            let result = perform_replacement_utf8_optimized(content, pattern, replacement, false);
            let key = generate_cache_key(content, pattern, replacement);
            let stored = (result.0.clone(), result.1);
            cache.insert(key, stored);
            result
        },
    }
}

/// Caching changes nothing observable: any two results that meet the adaptive
/// replacement's contract for the same content, pattern and replacement are
/// equal, whether they were recomputed or served from a cache.
pub proof fn lemma_cached_result_deterministic(
    c: Seq<char>,
    p: Seq<char>,
    r: Seq<char>,
    out1: (Seq<char>, nat),
    out2: (Seq<char>, nat),
)
    requires
        out1.0 == replaced(c, p, r),
        out1.1 == match_count(c, p),
        out2.0 == replaced(c, p, r),
        out2.1 == match_count(c, p),
    ensures
        out1 == out2,
{
}

} // verus!
