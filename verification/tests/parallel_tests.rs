use replacer::perform_replacement;
use replacer::perform_replacement_parallel;

#[test]
fn test_parallel_ascii_replacement() {
    let content = "test ".repeat(100);
    let pattern = "test";
    let replacement = "TEST";

    let (result_parallel, count_parallel) =
        perform_replacement_parallel(&content, pattern, replacement, 1024);
    let (result_sequential, count_sequential) =
        perform_replacement(&content, pattern, replacement);

    println!("Parallel result length: {}", result_parallel.len());
    println!("Sequential result length: {}", result_sequential.len());
    println!("Parallel count: {}", count_parallel);
    println!("Sequential count: {}", count_sequential);

    assert_eq!(result_parallel, result_sequential);
    assert_eq!(count_parallel, count_sequential);
    assert_eq!(count_parallel, 100);
}

#[test]
fn test_parallel_small_content() {
    let content = "Hello world!";
    let pattern = "world";
    let replacement = "Rust";

    let (result_parallel, count_parallel) =
        perform_replacement_parallel(&content, pattern, replacement, 1024);
    let (result_sequential, count_sequential) =
        perform_replacement(&content, pattern, replacement);

    assert_eq!(result_parallel, result_sequential);
    assert_eq!(count_parallel, count_sequential);
}

#[test]
fn test_parallel_chunked_ascii() {
    // chunked byte path: single-byte pattern, so no match can straddle a
    // chunk junction and the chunked result equals the sequential one
    let content = "abcabc";
    let (text, count) = perform_replacement_parallel(content, "a", "X", 2);
    assert_eq!(text, "XbcXbc");
    assert_eq!(count, 2);
}

#[test]
fn test_parallel_chunked_unicode() {
    // chunked character path: non-ASCII content forces character chunking
    let content = "héllo héllo";
    let (text, count) = perform_replacement_parallel(content, "é", "e", 2);
    assert_eq!(text, "hello hello");
    assert_eq!(count, 2);
}

#[test]
fn test_parallel_empty_pattern() {
    let content = "anything at all";
    let (text, count) = perform_replacement_parallel(content, "", "x", 1);
    assert_eq!(text, content);
    assert_eq!(count, 0);
}

#[test]
fn test_parallel_chunk_size_one() {
    let (text, count) = perform_replacement_parallel("zzz", "z", "q", 1);
    assert_eq!(text, "qqq");
    assert_eq!(count, 3);
}
