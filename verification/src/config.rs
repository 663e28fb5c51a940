use vstd::prelude::*;

verus! {

/// Tuning knobs for the replacement engines: when to go parallel, how much to
/// buffer when streaming, and whether the byte-oriented path and result
/// caching may be used.
#[derive(Debug, Clone)]
pub struct ReplacementConfig {
    pub parallel_threshold: usize,
    pub buffer_size: usize,
    pub use_ascii_optimization: bool,
    pub enable_caching: bool,
}

impl Default for ReplacementConfig {
    /// One mebibyte of content before going parallel, eight mebibytes of
    /// streaming buffer, the byte-oriented path on, caching off.
    fn default() -> (c: Self)
        ensures
            c.parallel_threshold == 1048576,
            c.buffer_size == 8388608,
            c.use_ascii_optimization == true,
            c.enable_caching == false,
    {
        Self {
            parallel_threshold: 1024 * 1024,
            buffer_size: 8 * 1024 * 1024,
            use_ascii_optimization: true,
            enable_caching: false,
        }
    }
}

impl ReplacementConfig {
    pub fn new() -> (c: Self)
        ensures
            c.parallel_threshold == 1048576,
            c.buffer_size == 8388608,
            c.use_ascii_optimization == true,
            c.enable_caching == false,
    {
        Self::default()
    }

    pub fn with_parallel_threshold(self, threshold: usize) -> (c: Self)
        ensures
            c == (Self { parallel_threshold: threshold, ..self }),
    {
        Self { parallel_threshold: threshold, ..self }
    }

    pub fn with_buffer_size(self, size: usize) -> (c: Self)
        ensures
            c == (Self { buffer_size: size, ..self }),
    {
        Self { buffer_size: size, ..self }
    }

    pub fn with_ascii_optimization(self, enabled: bool) -> (c: Self)
        ensures
            c == (Self { use_ascii_optimization: enabled, ..self }),
    {
        Self { use_ascii_optimization: enabled, ..self }
    }

    pub fn with_caching(self, enabled: bool) -> (c: Self)
        ensures
            c == (Self { enable_caching: enabled, ..self }),
    {
        Self { enable_caching: enabled, ..self }
    }
}

} // verus!
