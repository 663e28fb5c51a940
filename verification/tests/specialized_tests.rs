use replacer::generate_cache_key;
use replacer::perform_multi_pattern_replacement;
use replacer::perform_replacement;
use replacer::perform_replacement_cached;
use replacer::perform_replacement_utf8_optimized;
use replacer::should_use_ascii_optimization;
use replacer::ReplacementCache;

#[test]
fn test_utf8_optimized_ascii() {
    let content = "test test test";
    let pattern = "test";
    let replacement = "TEST";

    let (result_optimized, count_optimized) =
        perform_replacement_utf8_optimized(content, pattern, replacement, false);
    let (result_sequential, count_sequential) =
        perform_replacement(content, pattern, replacement);

    assert_eq!(result_optimized, result_sequential);
    assert_eq!(count_optimized, count_sequential);
    assert_eq!(count_optimized, 3);
}

#[test]
fn test_utf8_optimized_unicode() {
    let content = "héllo héllo héllo";
    let pattern = "héllo";
    let replacement = "hello";

    let (result_optimized, count_optimized) =
        perform_replacement_utf8_optimized(content, pattern, replacement, false);
    let (result_sequential, count_sequential) =
        perform_replacement(content, pattern, replacement);

    assert_eq!(result_optimized, result_sequential);
    assert_eq!(count_optimized, count_sequential);
    assert_eq!(count_optimized, 3);
}

#[test]
fn test_multi_pattern_replacement() {
    let content = "apple banana cherry apple";
    let patterns = &["apple", "banana"];
    let replacements = &["fruit", "yellow"];

    let (result, count) = perform_multi_pattern_replacement(content, patterns, replacements);

    assert_eq!(result, "fruit yellow cherry fruit");
    assert_eq!(count, 3);
}

#[test]
fn test_caching() {
    let content = "test test test";
    let pattern = "test";
    let replacement = "TEST";

    // First call (no cache)
    let (result1, count1) = perform_replacement_utf8_optimized(content, pattern, replacement, true);

    // Second call (should use cache)
    let (result2, count2) = perform_replacement_utf8_optimized(content, pattern, replacement, true);

    assert_eq!(result1, result2);
    assert_eq!(count1, count2);
    assert_eq!(count1, 3);
}

#[test]
fn test_explicit_cache_hits() {
    let mut cache = ReplacementCache::new();
    assert_eq!(cache.len(), 0);
    let (r1, c1) = perform_replacement_cached("test test test", "test", "TEST", &mut cache);
    assert_eq!(cache.len(), 1);
    let (r2, c2) = perform_replacement_cached("test test test", "test", "TEST", &mut cache);
    // the hit is served from the cache and the cache does not grow
    assert_eq!(cache.len(), 1);
    assert_eq!(r1, r2);
    assert_eq!(c1, c2);
    assert_eq!(r1, "TEST TEST TEST");
    assert_eq!(c1, 3);
}

#[test]
fn test_cache_key_fields() {
    let key = generate_cache_key("content", "pat", "rep");
    assert_eq!(key.content, "content");
    assert_eq!(key.pattern, "pat");
    assert_eq!(key.replacement, "rep");
}

#[test]
fn test_ascii_selection() {
    assert!(should_use_ascii_optimization("abc", "b", "x"));
    assert!(!should_use_ascii_optimization("héllo", "h", "x"));
    assert!(!should_use_ascii_optimization("hello", "é", "x"));
}

#[test]
fn test_multi_pattern_empty_list() {
    let empty: &[&str] = &[];
    let (result, count) = perform_multi_pattern_replacement("abc", empty, empty);
    assert_eq!(result, "abc");
    assert_eq!(count, 0);
}

#[test]
fn test_multi_pattern_mismatched_lengths() {
    let (result, count) = perform_multi_pattern_replacement("abc", &["a", "b"], &["x"]);
    assert_eq!(result, "abc");
    assert_eq!(count, 0);
}

#[test]
fn test_multi_pattern_with_empty_pattern() {
    let (result, count) = perform_multi_pattern_replacement("abc", &["a", ""], &["x", "y"]);
    assert_eq!(result, "abc");
    assert_eq!(count, 0);
}

#[test]
fn test_multi_pattern_unicode() {
    let (result, count) =
        perform_multi_pattern_replacement("héllo wörld", &["é", "ö"], &["e", "o"]);
    assert_eq!(result, "hello world");
    assert_eq!(count, 2);
}

#[test]
fn test_multi_pattern_leftmost_first() {
    // on overlapping pattern sets the leftmost match wins, with ties broken
    // toward the pattern listed first
    let (result, count) = perform_multi_pattern_replacement("abcd", &["abcd", "bc"], &["X", "Y"]);
    assert_eq!(result, "X");
    assert_eq!(count, 1);
    let (result2, count2) = perform_multi_pattern_replacement("zabcz", &["ab", "abc"], &["1", "2"]);
    assert_eq!(result2, "z1cz");
    assert_eq!(count2, 1);
}

#[test]
fn test_multi_pattern_single_agrees_with_sequential() {
    let content = "test test test";
    let (multi, multi_count) = perform_multi_pattern_replacement(content, &["test"], &["TEST"]);
    let (seq, seq_count) = perform_replacement(content, "test", "TEST");
    assert_eq!(multi, seq);
    assert_eq!(multi_count, seq_count);
}
