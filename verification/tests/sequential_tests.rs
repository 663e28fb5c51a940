use replacer::perform_replacement;
use replacer::perform_replacement_ascii;

#[test]
fn test_simple_replacement() {
    let content = "Hello world, world!";
    let pattern = "world";
    let replacement = "Rust";
    let (replaced_content, count) = perform_replacement(content, pattern, replacement);
    assert_eq!(replaced_content, "Hello Rust, Rust!");
    assert_eq!(count, 2);
}

#[test]
fn test_no_match() {
    let content = "Hello world!";
    let pattern = "galaxy";
    let replacement = "Rust";
    let (replaced_content, count) = perform_replacement(content, pattern, replacement);
    assert_eq!(replaced_content, "Hello world!");
    assert_eq!(count, 0);
}

#[test]
fn test_empty_pattern() {
    let content = "Hello world!";
    let pattern = "";
    let replacement = "test";
    let (replaced_content, count) = perform_replacement(content, pattern, replacement);
    assert_eq!(replaced_content, "Hello world!");
    assert_eq!(count, 0);
}

#[test]
fn test_ascii_optimization() {
    let content = b"test test test";
    let pattern = b"test";
    let replacement = b"TEST";
    let (result, count) = perform_replacement_ascii(content, pattern, replacement);
    assert_eq!(result, b"TEST TEST TEST");
    assert_eq!(count, 3);
}

#[test]
fn test_empty_content() {
    let (replaced_content, count) = perform_replacement("", "abc", "x");
    assert_eq!(replaced_content, "");
    assert_eq!(count, 0);
}

#[test]
fn test_no_overlapping_matches() {
    // the scan advances past each match, so "aaa" holds only one "aa"
    let (replaced_content, count) = perform_replacement("aaa", "aa", "b");
    assert_eq!(replaced_content, "ba");
    assert_eq!(count, 1);
}

#[test]
fn test_pattern_is_whole_content() {
    let (replaced_content, count) = perform_replacement("whole", "whole", "part");
    assert_eq!(replaced_content, "part");
    assert_eq!(count, 1);
}

#[test]
fn test_replacement_not_rematched() {
    // replacing and then replacing the replacement by itself changes nothing
    let (once, count_once) = perform_replacement("xyxy", "xy", "yx");
    assert_eq!(once, "yxyx");
    assert_eq!(count_once, 2);
    let (twice, _) = perform_replacement(&once, "yx", "yx");
    assert_eq!(twice, once);
}

#[test]
fn test_unicode_pattern() {
    let (replaced_content, count) = perform_replacement("héllo wörld", "ö", "o");
    assert_eq!(replaced_content, "héllo world");
    assert_eq!(count, 1);
}

#[test]
fn test_ascii_bytes_arbitrary() {
    let content = [0xFFu8, 0x01, 0xFF, 0x01];
    let pattern = [0xFFu8];
    let replacement = [0xAAu8, 0xBB];
    let (result, count) = perform_replacement_ascii(&content, &pattern, &replacement);
    assert_eq!(result, vec![0xAAu8, 0xBB, 0x01, 0xAA, 0xBB, 0x01]);
    assert_eq!(count, 2);
}
