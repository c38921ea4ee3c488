//! Configuration of a publish/subscribe segment.

use vstd::prelude::*;

verus! {

/// Configuration of a pool-backed publish/subscribe segment.
#[derive(Clone, Copy, Debug, PartialEq, Eq, Structural)]
pub struct PubSubConfig {
    /// Maximum number of topics (default: 16).
    pub max_topics: u32,
    /// Number of blocks in the shared pool (default: 256).
    pub block_count: u32,
    /// Size of each block in bytes (default: 65536 = 64 KiB).
    /// Usable data capacity is `block_size - 8`.
    pub block_size: u32,
    /// Ring depth per topic: how many published samples the ring remembers
    /// before overwriting (default: 8). Must be a power of 2.
    pub ring_depth: u32,
    /// Heartbeat write interval in microseconds (default: 100 ms).
    pub heartbeat_interval_us: u64,
    /// The publisher counts as dead after this many microseconds without a
    /// heartbeat (default: 5 s).
    pub stale_timeout_us: u64,
}

/// The name that new code uses for [`PubSubConfig`].
pub type Config = PubSubConfig;

/// The configuration that applies where nothing else is said.
pub open spec fn default_config() -> PubSubConfig {
    PubSubConfig {
        max_topics: 16,
        block_count: 256,
        block_size: 65536,
        ring_depth: 8,
        heartbeat_interval_us: 100_000,
        stale_timeout_us: 5_000_000,
    }
}

impl Default for PubSubConfig {
    fn default() -> (r: PubSubConfig)
        ensures
            r == default_config(),
    {
        PubSubConfig {
            max_topics: 16,
            block_count: 256,
            block_size: 65536,
            ring_depth: 8,
            heartbeat_interval_us: 100_000,
            stale_timeout_us: 5_000_000,
        }
    }
}

} // verus!
