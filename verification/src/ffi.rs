//! Plain types for callers from other languages.

use crate::error::Error;
use crate::memory::SharedMemory;
use crate::platform::loan::Topic;
use crate::platform::subscription::SampleGuard;
use crate::protocol::config::{self, PubSubConfig};
use crate::protocol::region::{self, release_block, Region};
use vstd::prelude::*;
use vstd::std_specs::convert::FromSpecImpl;

verus! {

/// A configuration with its times in milliseconds.
#[derive(Clone, Copy, Debug, PartialEq, Eq, Structural)]
pub struct CrossbarConfig {
    /// Maximum number of topics (default: 16).
    pub max_topics: u32,
    /// Number of blocks in the shared pool (default: 256).
    pub block_count: u32,
    /// Size of each block in bytes (default: 65536).
    pub block_size: u32,
    /// Ring depth per topic (default: 8).
    pub ring_depth: u32,
    /// Heartbeat interval in milliseconds (default: 100).
    pub heartbeat_ms: u64,
    /// Publisher stale timeout in milliseconds (default: 5000).
    pub stale_timeout_ms: u64,
}

/// Milliseconds as microseconds, as far as 64 bits go.
pub open spec fn micros(ms: u64) -> u64 {
    ((ms * 1000) % 0x1_0000_0000_0000_0000) as u64
}

/// The configuration with its times in microseconds.
pub open spec fn config_of(c: CrossbarConfig) -> PubSubConfig {
    PubSubConfig {
        max_topics: c.max_topics,
        block_count: c.block_count,
        block_size: c.block_size,
        ring_depth: c.ring_depth,
        heartbeat_interval_us: micros(c.heartbeat_ms),
        stale_timeout_us: micros(c.stale_timeout_ms),
    }
}

fn to_micros(ms: u64) -> (r: u64)
    ensures
        r == micros(ms),
{
    ((ms as u128 * 1000) % 0x1_0000_0000_0000_0000) as u64
}

impl From<CrossbarConfig> for PubSubConfig {
    fn from(c: CrossbarConfig) -> (r: PubSubConfig) {
        PubSubConfig {
            max_topics: c.max_topics,
            block_count: c.block_count,
            block_size: c.block_size,
            ring_depth: c.ring_depth,
            heartbeat_interval_us: to_micros(c.heartbeat_ms),
            stale_timeout_us: to_micros(c.stale_timeout_ms),
        }
    }
}

impl FromSpecImpl<CrossbarConfig> for PubSubConfig {
    open spec fn obeys_from_spec() -> bool {
        true
    }

    open spec fn from_spec(c: CrossbarConfig) -> PubSubConfig {
        config_of(c)
    }
}

/// The default configuration.
pub fn crossbar_config_default() -> (r: CrossbarConfig)
    ensures
        r == (CrossbarConfig {
            max_topics: 16,
            block_count: 256,
            block_size: 65536,
            ring_depth: 8,
            heartbeat_ms: 100,
            stale_timeout_ms: 5000,
        }),
        config_of(r) == config::default_config(),
{
    let d: PubSubConfig = PubSubConfig::default();
    CrossbarConfig {
        max_topics: d.max_topics,
        block_count: d.block_count,
        block_size: d.block_size,
        ring_depth: d.ring_depth,
        heartbeat_ms: d.heartbeat_interval_us / 1000,
        stale_timeout_ms: d.stale_timeout_us / 1000,
    }
}

/// The given configuration, or the default one.
pub fn config_or_default(c: Option<CrossbarConfig>) -> (r: PubSubConfig)
    ensures
        r == match c {
            Some(c) => config_of(c),
            None => config::default_config(),
        },
{
    match c {
        Some(c) => PubSubConfig::from(c),
        None => PubSubConfig::default(),
    }
}

/// A registered topic. An index of `u32::MAX` stands for none.
#[derive(Clone, Copy, Debug, PartialEq, Eq, Structural)]
pub struct CrossbarTopic {
    /// Topic index within the region.
    pub topic_idx: u32,
    /// Publisher identity.
    pub publisher_id: u64,
}

/// What a registration gives to the caller.
pub fn topic_or_none(r: Result<Topic, Error>) -> (t: CrossbarTopic)
    ensures
        t == match r {
            Ok(h) => CrossbarTopic { topic_idx: h.topic_idx, publisher_id: h.publisher_id },
            Err(_) => CrossbarTopic { topic_idx: u32::MAX, publisher_id: 0 },
        },
{
    match r {
        Ok(h) => CrossbarTopic { topic_idx: h.topic_idx, publisher_id: h.publisher_id },
        Err(_) => CrossbarTopic { topic_idx: 0xFFFF_FFFF, publisher_id: 0 },
    }
}

/// The topic that a caller names.
pub fn topic_handle(t: CrossbarTopic) -> (r: Topic)
    ensures
        r == (Topic { topic_idx: t.topic_idx, publisher_id: t.publisher_id }),
{
    Topic { topic_idx: t.topic_idx, publisher_id: t.publisher_id }
}

/// A received sample that the caller owns.
#[derive(Debug)]
pub struct CrossbarSample {
    /// The block.
    pub block_idx: u32,
    /// Length of the data.
    pub len: usize,
}

/// Hands a sample over to the caller, reference and all.
pub fn guard_to_sample(guard: SampleGuard) -> (r: CrossbarSample)
    ensures
        r.block_idx == guard.block_idx,
        r.len == guard.len,
{
    CrossbarSample { block_idx: guard.block_idx, len: guard.len }
}

impl CrossbarSample {
    /// Length of the data.
    pub fn data_len(&self) -> (r: usize)
        ensures
            r == self.len,
    {
        self.len
    }

    /// Lets the block go. The last reference gives it back to the pool.
    pub fn free<M: SharedMemory>(self, region: &mut Region<M>)
        requires
            old(region).wf(),
        ensures
            final(region).wf(),
            old(region).same_segment(final(region)),
            final(region).last_freed == old(region).last_freed,
            region::released(*old(region), *final(region), self.block_idx),
            old(region).mem.exclusive() ==> final(region).mem.image() == region::after_release(
                old(region).config,
                old(region).mem.image(),
                self.block_idx,
            ),
    {
        release_block(region, self.block_idx);
    }
}

} // verus!
