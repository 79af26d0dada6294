//! Per-parser memory limits.

use vstd::prelude::*;

verus! {

/// The default ceiling for both limits: 512 MiB.
pub const DEFAULT_MAX: usize = 512 * 1024 * 1024;

/// Memory limits fixed at parser construction.
#[derive(Clone, Copy)]
pub struct RespConfig {
    /// The maximum size of an individual RESP value: the byte length of a
    /// simple line, the payload length of a bulk string, or the element
    /// count of an array.
    pub max_resp_size: usize,
    /// The maximum size of the parser's staging buffer.
    pub max_buffer_size: usize,
}

impl RespConfig {
    pub fn new(max_resp_size: usize, max_buffer_size: usize) -> (c: RespConfig)
        ensures
            c.max_resp_size == max_resp_size,
            c.max_buffer_size == max_buffer_size,
    {
        RespConfig { max_resp_size, max_buffer_size }
    }
}

impl Default for RespConfig {
    /// Both limits default to 512 MiB.
    fn default() -> (c: RespConfig)
        ensures
            c.max_resp_size == DEFAULT_MAX,
            c.max_buffer_size == DEFAULT_MAX,
    {
        RespConfig::new(DEFAULT_MAX, DEFAULT_MAX)
    }
}

} // verus!
