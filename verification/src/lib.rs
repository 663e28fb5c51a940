pub mod config;
pub mod laws;
pub mod model;
pub mod multi;
pub mod parallel;
pub mod sequential;
pub mod specialized;
pub mod streaming;
pub mod unicode;

pub use config::ReplacementConfig;
pub use multi::perform_multi_pattern_replacement;
pub use parallel::perform_replacement_parallel;
pub use sequential::perform_replacement;
pub use sequential::perform_replacement_ascii;
pub use specialized::generate_cache_key;
pub use specialized::perform_replacement_cached;
pub use specialized::perform_replacement_utf8_optimized;
pub use specialized::replace_with_config;
pub use specialized::should_use_ascii_optimization;
pub use specialized::CacheKey;
pub use specialized::ReplacementCache;
pub use streaming::StreamReplacer;
