use replacer::ReplacementConfig;

#[test]
fn test_config_defaults() {
    let config = ReplacementConfig::new();
    assert_eq!(config.parallel_threshold, 1024 * 1024);
    assert_eq!(config.buffer_size, 8 * 1024 * 1024);
    assert!(config.use_ascii_optimization);
    assert!(!config.enable_caching);
}

#[test]
fn test_config_builders() {
    let config = ReplacementConfig::new()
        .with_parallel_threshold(512)
        .with_buffer_size(4096)
        .with_ascii_optimization(false)
        .with_caching(true);
    assert_eq!(config.parallel_threshold, 512);
    assert_eq!(config.buffer_size, 4096);
    assert!(!config.use_ascii_optimization);
    assert!(config.enable_caching);
}
