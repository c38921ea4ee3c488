//! Topics whose samples are blocks of a pool.
//!
//! A sample lies in a block of its own; the ring of its topic holds the index of
//! the block and the length of the data. A block counts its references: one of
//! the ring, and one of each subscriber that holds it.

use crate::error::{self, CrossbarError};
use crate::memory::{self, Access, Accesses, SharedMemory};
use crate::protocol::layout::{self, uri_hash};
use crate::protocol::pool::{self, PoolLayout, NO_BLOCK};
use crate::protocol::reading::{self, EntryLook, EntryPlace};
use crate::text::{self, add_number, add_text, bytes_of};
use crate::transport::shm::cells::{self, cell_off, table_end};
use crate::transport::shm::rings::{
    self, clear_entries, write_entry, RE_BLOCK_IDX, RE_DATA_LEN, RE_SEQ, RING_ENTRY_SIZE,
};
use vstd::prelude::*;

verus! {

broadcast use crate::memory::group_memory;

/// The version of the layout.
pub const VERSION: u32 = 1;

/// Size of the header.
pub const HEADER_SIZE: usize = 128;

/// Size of a topic entry.
pub const TOPIC_ENTRY_SIZE: usize = 128;

/// Offset of the data in a block.
pub const BLOCK_DATA_OFFSET: usize = 8;

/// Offset of the reference count in a block.
pub const BK_REFCOUNT: usize = 4;

/// Offset of the version.
pub const GH_VERSION: usize = 8;

/// Offset of the number of topics.
pub const GH_MAX_TOPICS: usize = 0x0C;

/// Offset of the number of blocks.
pub const GH_BLOCK_COUNT: usize = 0x10;

/// Offset of the size of a block.
pub const GH_BLOCK_SIZE: usize = 0x14;

/// Offset of the ring depth.
pub const GH_RING_DEPTH: usize = 0x18;

/// Offset of the head of the free list.
pub const GH_POOL_HEAD: usize = 0x20;

/// Offset of the heartbeat of the publisher.
pub const GH_HEARTBEAT: usize = 0x28;

/// Offset of the process id of the publisher.
pub const GH_PID: usize = 0x30;

/// Offset of the stale timeout, in microseconds.
pub const GH_STALE_TIMEOUT_US: usize = 0x38;

/// Offset of the mark of a registered topic.
pub const TE_ACTIVE: usize = 0;

/// Offset of the word that changes when a sample is published.
pub const TE_NOTIFY: usize = 4;

/// Offset of the sequence number of the newest sample.
pub const TE_WRITE_SEQ: usize = 8;

/// Offset of the hash of the URI.
pub const TE_URI_HASH: usize = 0x10;

/// Offset of the length of the URI.
pub const TE_URI_LEN: usize = 0x18;

/// Offset of the URI.
pub const TE_URI: usize = 0x1C;

/// Longest URI in bytes.
pub const TE_URI_MAX: usize = 64;

/// Offset of the number of sleeping subscribers.
pub const TE_WAITERS: usize = 0x5C;

/// The bytes at the start of a segment: `XBAR_ZC` and a zero.
pub open spec fn magic() -> Seq<u8> {
    seq![88u8, 66, 65, 82, 95, 90, 67, 0]
}

fn magic_bytes() -> (r: Vec<u8>)
    ensures
        r@ == magic(),
{
    let r: Vec<u8> = vec![88u8, 66, 65, 82, 95, 90, 67, 0];
    assert(r@ =~= magic());
    r
}

/// The parameters of a segment.
#[derive(Debug, Clone, Copy, PartialEq, Eq, Structural)]
pub struct PoolPubSubConfig {
    /// Most topics.
    pub max_topics: u32,
    /// Number of blocks.
    pub block_count: u32,
    /// Size of a block in bytes. Eight of them are not for data.
    pub block_size: u32,
    /// Samples that the ring of a topic remembers.
    pub ring_depth: u32,
    /// Microseconds between two heartbeats of the publisher.
    pub heartbeat_interval_us: u64,
    /// Microseconds after which a publisher without heartbeat counts as dead.
    pub stale_timeout_us: u64,
}

/// The parameters that are used where none are given.
pub open spec fn default_config() -> PoolPubSubConfig {
    PoolPubSubConfig {
        max_topics: 16,
        block_count: 256,
        block_size: 65536,
        ring_depth: 8,
        heartbeat_interval_us: 100000,
        stale_timeout_us: 5000000,
    }
}

impl Default for PoolPubSubConfig {
    fn default() -> (r: PoolPubSubConfig)
        ensures
            r == default_config(),
    {
        PoolPubSubConfig {
            max_topics: 16,
            block_count: 256,
            block_size: 65536,
            ring_depth: 8,
            heartbeat_interval_us: 100000,
            stale_timeout_us: 5000000,
        }
    }
}

/// The path of the file of a segment.
pub fn shm_path(name: &str, linux: bool) -> (r: String)
    ensures
        r@ == (if linux {
            "/dev/shm/crossbar-pool-"@ + name@
        } else {
            "/tmp/crossbar-pool-shm-"@ + name@
        }),
{
    if linux {
        add_text(text::text("/dev/shm/crossbar-pool-"), name)
    } else {
        add_text(text::text("/tmp/crossbar-pool-shm-"), name)
    }
}

/// Offset of a topic entry.
pub open spec fn topic_off(topic: int) -> int {
    HEADER_SIZE + topic * TOPIC_ENTRY_SIZE
}

/// Offset of the rings.
pub open spec fn ring_base(c: PoolPubSubConfig) -> int {
    HEADER_SIZE + c.max_topics * TOPIC_ENTRY_SIZE
}

/// Offset of a ring entry.
pub open spec fn ring_off(c: PoolPubSubConfig, topic: int, slot: int) -> int {
    ring_base(c) + cells::cell(c.ring_depth as int, RING_ENTRY_SIZE as int, topic, slot)
}

/// Offset of the pool.
pub open spec fn pool_off(c: PoolPubSubConfig) -> int {
    ring_base(c) + cells::table_size(
        c.max_topics as int,
        c.ring_depth as int,
        RING_ENTRY_SIZE as int,
    )
}

/// Size of a segment.
pub open spec fn region_size(c: PoolPubSubConfig) -> int {
    pool_off(c) + cells::table_size(c.block_count as int, 1, c.block_size as int)
}

/// The pool of a segment.
pub open spec fn pool_of(c: PoolPubSubConfig) -> PoolLayout {
    PoolLayout {
        head: GH_POOL_HEAD,
        base: pool_off(c) as usize,
        block_size: c.block_size,
        block_count: c.block_count,
        checks_links: false,
    }
}

/// The slot of a sequence number.
pub open spec fn slot_of(c: PoolPubSubConfig, seq: u64) -> int {
    (seq % (c.ring_depth as u64)) as int
}

/// Blocks have room for their links, there are ring entries, and the segment
/// fits in the address space.
pub open spec fn sound(c: PoolPubSubConfig) -> bool {
    &&& c.block_size >= BLOCK_DATA_OFFSET
    &&& c.ring_depth > 0
    &&& region_size(c) <= usize::MAX
}

/// Bytes of data that a block can hold.
pub open spec fn capacity_of(c: PoolPubSubConfig) -> int {
    c.block_size - BLOCK_DATA_OFFSET
}

/// Offset of the reference count of a block.
pub open spec fn refcount_off(c: PoolPubSubConfig, block: int) -> int {
    pool_of(c).block(block) + BK_REFCOUNT
}

/// Offset of the data of a block.
pub open spec fn data_off(c: PoolPubSubConfig, block: int) -> int {
    pool_of(c).block(block) + BLOCK_DATA_OFFSET
}

/// Reference count of a block.
pub open spec fn refcount(c: PoolPubSubConfig, m: Seq<u8>, block: int) -> u32 {
    memory::u32_at(m, refcount_off(c, block))
}

/// Sequence number of the newest sample of a topic.
pub open spec fn write_seq(m: Seq<u8>, topic: int) -> u64 {
    memory::u64_at(m, topic_off(topic) + TE_WRITE_SEQ)
}

/// Number of sleeping subscribers of a topic.
pub open spec fn waiters(m: Seq<u8>, topic: int) -> u32 {
    memory::u32_at(m, topic_off(topic) + TE_WAITERS)
}

/// The parts of a segment follow each other.
pub proof fn lemma_parts(c: PoolPubSubConfig)
    ensures
        HEADER_SIZE <= ring_base(c) <= pool_off(c) <= region_size(c),
        region_size(c) == pool_off(c) + c.block_count * c.block_size,
{
    cells::lemma_table(c.max_topics as int, c.ring_depth as int, RING_ENTRY_SIZE as int);
    cells::lemma_table(c.block_count as int, 1, c.block_size as int);
    assert(c.block_count as int * 1 == c.block_count);
}

/// The pool lies in the segment.
pub proof fn lemma_pool(c: PoolPubSubConfig, len: nat)
    requires
        sound(c),
        region_size(c) <= len <= usize::MAX,
    ensures
        pool_of(c).fits(len),
        pool_of(c).base == pool_off(c),
{
    lemma_parts(c);
}

/// A topic entry lies between the header and the rings.
pub proof fn lemma_topic(c: PoolPubSubConfig, topic: int)
    requires
        0 <= topic < c.max_topics,
    ensures
        HEADER_SIZE <= topic_off(topic),
        topic_off(topic) + TOPIC_ENTRY_SIZE <= ring_base(c) <= region_size(c),
{
    lemma_parts(c);
}

/// A ring entry lies between the topic entries and the pool.
pub proof fn lemma_ring(c: PoolPubSubConfig, topic: int, slot: int)
    requires
        0 <= topic < c.max_topics,
        0 <= slot < c.ring_depth,
    ensures
        ring_base(c) <= ring_off(c, topic, slot),
        ring_off(c, topic, slot) + RING_ENTRY_SIZE <= pool_off(c) <= region_size(c),
{
    lemma_parts(c);
    cells::lemma_cell(
        c.max_topics as int,
        c.ring_depth as int,
        RING_ENTRY_SIZE as int,
        topic,
        slot,
    );
}

/// The parts of a block lie in the segment.
pub proof fn lemma_block(c: PoolPubSubConfig, block: int)
    requires
        sound(c),
        0 <= block < c.block_count,
    ensures
        pool_off(c) <= pool_of(c).block(block),
        refcount_off(c, block) + 4 == data_off(c, block),
        data_off(c, block) + capacity_of(c) == pool_of(c).block(block) + c.block_size,
        data_off(c, block) + capacity_of(c) <= region_size(c),
{
    lemma_pool(c, region_size(c) as nat);
    lemma_parts(c);
    pool::lemma_block(pool_of(c), block, region_size(c) as nat);
}

/// What is wrong with the parameters of a segment.
pub open spec fn config_fault(c: PoolPubSubConfig) -> Option<error::CrossbarErrorView> {
    if c.block_size < 9 {
        Some(
            error::CrossbarErrorView::ShmInvalidRegion(
                "block_size must be at least 9 (got "@ + text::decimal(c.block_size as nat)
                    + ")"@,
            ),
        )
    } else if c.ring_depth == 0 {
        Some(error::CrossbarErrorView::ShmInvalidRegion("ring_depth must be at least 1"@))
    } else if c.block_count == 0 {
        Some(error::CrossbarErrorView::ShmInvalidRegion("block_count must be at least 1"@))
    } else if c.max_topics == 0 {
        Some(error::CrossbarErrorView::ShmInvalidRegion("max_topics must be at least 1"@))
    } else if region_size(c) > usize::MAX {
        Some(error::CrossbarErrorView::ShmInvalidRegion("layout size overflows"@))
    } else {
        None
    }
}

fn invalid(m: &str) -> (r: CrossbarError)
    ensures
        r@ == error::CrossbarErrorView::ShmInvalidRegion(m@),
{
    CrossbarError::ShmInvalidRegion(text::text(m))
}

/// Size of the segment that the parameters ask for, or what is wrong with them.
pub fn check_config(config: &PoolPubSubConfig) -> (r: Result<usize, CrossbarError>)
    ensures
        match config_fault(*config) {
            None => r matches Ok(n) && n == region_size(*config) && sound(*config),
            Some(f) => r matches Err(e) && e@ == f,
        },
{
    if config.block_size < 9 {
        let s: String = add_number(
            text::text("block_size must be at least 9 (got "),
            config.block_size as u64,
        );
        return Err(CrossbarError::ShmInvalidRegion(add_text(s, ")")));
    }
    if config.ring_depth == 0 {
        return Err(invalid("ring_depth must be at least 1"));
    }
    if config.block_count == 0 {
        return Err(invalid("block_count must be at least 1"));
    }
    if config.max_topics == 0 {
        return Err(invalid("max_topics must be at least 1"));
    }
    match checked_region_size(config) {
        Some(n) => Ok(n),
        None => Err(invalid("layout size overflows")),
    }
}

fn checked_region_size(config: &PoolPubSubConfig) -> (r: Option<usize>)
    ensures
        match r {
            Some(n) => n == region_size(*config),
            None => region_size(*config) > usize::MAX,
        },
{
    proof {
        lemma_parts(*config);
        cells::lemma_many_cells(
            config.max_topics as int,
            config.ring_depth as int,
            RING_ENTRY_SIZE as int,
        );
        cells::lemma_table(config.max_topics as int, config.ring_depth as int, 16);
    }
    let table: usize = match (config.max_topics as usize).checked_mul(TOPIC_ENTRY_SIZE) {
        Some(n) => n,
        None => {
            return None;
        },
    };
    let base: usize = match table.checked_add(HEADER_SIZE) {
        Some(n) => n,
        None => {
            return None;
        },
    };
    match table_end(base, config.max_topics, config.ring_depth, RING_ENTRY_SIZE) {
        Some(pool_at) => table_end(pool_at, config.block_count, 1, config.block_size as usize),
        None => None,
    }
}

/// The segment with its header written.
pub open spec fn with_header(c: PoolPubSubConfig, m: Seq<u8>, pid: u32) -> Seq<u8> {
    let m = memory::put(m, 0, magic());
    let m = memory::put32(m, GH_VERSION as int, VERSION);
    let m = memory::put32(m, GH_MAX_TOPICS as int, c.max_topics);
    let m = memory::put32(m, GH_BLOCK_COUNT as int, c.block_count);
    let m = memory::put32(m, GH_BLOCK_SIZE as int, c.block_size);
    let m = memory::put32(m, GH_RING_DEPTH as int, c.ring_depth);
    let m = memory::put64(m, GH_PID as int, pid as u64);
    memory::put64(m, GH_STALE_TIMEOUT_US as int, c.stale_timeout_us)
}

/// A new segment.
pub open spec fn created(c: PoolPubSubConfig, m: Seq<u8>, pid: u32, now: u64) -> Seq<u8> {
    let m = pool_of(c).after_init(with_header(c, m, pid));
    let m = memory::put64(m, GH_HEARTBEAT as int, now);
    rings::with_empty_entries(m, ring_base(c), (c.max_topics * c.ring_depth) as nat)
}

/// The parameters in a header. The heartbeat interval is not part of it.
pub open spec fn header_config(m: Seq<u8>) -> PoolPubSubConfig {
    PoolPubSubConfig {
        max_topics: memory::u32_at(m, GH_MAX_TOPICS as int),
        block_count: memory::u32_at(m, GH_BLOCK_COUNT as int),
        block_size: memory::u32_at(m, GH_BLOCK_SIZE as int),
        ring_depth: memory::u32_at(m, GH_RING_DEPTH as int),
        heartbeat_interval_us: default_config().heartbeat_interval_us,
        stale_timeout_us: memory::u64_at(m, GH_STALE_TIMEOUT_US as int),
    }
}

/// Why a subscriber cannot connect to a segment.
pub open spec fn connect_fault(m: Seq<u8>, now: u64) -> Option<error::CrossbarErrorView> {
    let c = header_config(m);
    let version = memory::u32_at(m, GH_VERSION as int);
    if m.len() < HEADER_SIZE {
        Some(error::CrossbarErrorView::ShmInvalidRegion("region too small for header"@))
    } else if memory::bytes_at(m, 0, 8) != magic() {
        Some(error::CrossbarErrorView::ShmInvalidRegion("invalid magic (expected XBAR_ZC)"@))
    } else if version != VERSION {
        Some(
            error::CrossbarErrorView::ShmInvalidRegion(
                "unsupported version "@ + text::decimal(version as nat) + ", expected 1"@,
            ),
        )
    } else if region_size(c) > usize::MAX {
        Some(error::CrossbarErrorView::ShmInvalidRegion("layout size overflows"@))
    } else if m.len() < region_size(c) {
        Some(
            error::CrossbarErrorView::ShmInvalidRegion(
                "region size "@ + text::decimal(m.len()) + " < expected "@ + text::decimal(
                    region_size(c) as nat,
                ),
            ),
        )
    } else if now - memory::u64_at(m, GH_HEARTBEAT as int) > c.stale_timeout_us {
        Some(error::CrossbarErrorView::ShmServerDead)
    } else {
        None
    }
}

/// A topic entry holds a URI.
pub open spec fn holds_uri(m: Seq<u8>, topic: int, uri: Seq<u8>) -> bool {
    &&& uri.len() <= TE_URI_MAX
    &&& memory::u64_at(m, topic_off(topic) + TE_URI_HASH) == layout::fnv(uri)
    &&& memory::u32_at(m, topic_off(topic) + TE_URI_LEN) == uri.len()
    &&& memory::bytes_at(m, topic_off(topic) + TE_URI, uri.len() as int) == uri
}

/// Whether a topic is registered.
pub open spec fn is_registered(m: Seq<u8>, topic: int) -> bool {
    memory::u32_at(m, topic_off(topic) + TE_ACTIVE) == 1
}

/// The first topic that has a URI or is not registered, from `topic` on.
pub open spec fn place_for(c: PoolPubSubConfig, m: Seq<u8>, uri: Seq<u8>, topic: int) -> Option<u32>
    decreases c.max_topics - topic,
{
    if topic < 0 || topic >= c.max_topics {
        None
    } else if !is_registered(m, topic) || holds_uri(m, topic, uri) {
        Some(topic as u32)
    } else {
        place_for(c, m, uri, topic + 1)
    }
}

/// The first registered topic that has a URI, from `topic` on.
pub open spec fn topic_named(c: PoolPubSubConfig, m: Seq<u8>, uri: Seq<u8>, topic: int) -> Option<
    u32,
>
    decreases c.max_topics - topic,
{
    if topic < 0 || topic >= c.max_topics {
        None
    } else if is_registered(m, topic) && holds_uri(m, topic, uri) {
        Some(topic as u32)
    } else {
        topic_named(c, m, uri, topic + 1)
    }
}

/// The segment after a topic was registered.
pub open spec fn with_topic(m: Seq<u8>, topic: int, uri: Seq<u8>) -> Seq<u8> {
    let t = topic_off(topic);
    let m = memory::put64(m, t + TE_URI_HASH, layout::fnv(uri));
    let m = memory::put32(m, t + TE_URI_LEN, uri.len() as u32);
    let m = memory::put(m, t + TE_URI, uri);
    let m = memory::put64(m, t + TE_WRITE_SEQ, 0);
    memory::put32(m, t + TE_ACTIVE, 1)
}

/// What looking whether a topic entry is the one of a URI does, and what it tells: the
/// state is looked at, and if the entry is registered the hash, the length, and the URI
/// itself.
pub open spec fn tries_entry(
    ops: Accesses,
    topic: int,
    uri: Seq<u8>,
    state: u32,
    found: bool,
) -> bool {
    exists|rest: Accesses|
        {
            &&& ops == seq![
                Access::Look32 { off: topic_off(topic) + TE_ACTIVE, found: state },
            ] + rest
            &&& #[trigger] tries_state(rest, topic, uri, state, found)
        }
}

/// What is looked at after the state of a topic entry was seen.
pub open spec fn tries_state(
    ops: Accesses,
    topic: int,
    uri: Seq<u8>,
    state: u32,
    found: bool,
) -> bool {
    if state != 1 || uri.len() > TE_URI_MAX {
        ops.len() == 0 && !found
    } else {
        exists|hash: u64, rest: Accesses|
            {
                &&& ops == seq![reading::look(topic_off(topic) + TE_URI_HASH, hash)] + rest
                &&& #[trigger] tries_hash(rest, topic, uri, hash, found)
            }
    }
}

/// What is looked at after the hash in a topic entry was seen.
pub open spec fn tries_hash(
    ops: Accesses,
    topic: int,
    uri: Seq<u8>,
    hash: u64,
    found: bool,
) -> bool {
    if hash != layout::fnv(uri) {
        ops.len() == 0 && !found
    } else {
        exists|len: u32, rest: Accesses|
            {
                &&& ops == seq![
                    Access::Look32 { off: topic_off(topic) + TE_URI_LEN, found: len },
                ] + rest
                &&& #[trigger] tries_text(rest, topic, uri, len, found)
            }
    }
}

/// What is looked at after the length of the URI in a topic entry was seen.
pub open spec fn tries_text(
    ops: Accesses,
    topic: int,
    uri: Seq<u8>,
    len: u32,
    found: bool,
) -> bool {
    if len != uri.len() {
        ops.len() == 0 && !found
    } else {
        &&& ops.len() == 1
        &&& ops[0] matches Access::Copied { off, found: text } && {
            &&& off == topic_off(topic) + TE_URI
            &&& found == (text == uri)
        }
    }
}

/// A look at a topic entry that is not the one of a URI.
pub open spec fn passes_entry(ops: Accesses, topic: int, uri: Seq<u8>) -> bool {
    exists|state: u32| #[trigger] tries_entry(ops, topic, uri, state, false)
}

/// A look at a topic entry in which another URI is registered.
pub open spec fn finds_other(ops: Accesses, topic: int, uri: Seq<u8>) -> bool {
    tries_entry(ops, topic, uri, 1, false)
}

/// A look at the topic entry of a URI.
pub open spec fn finds_entry(ops: Accesses, topic: int, uri: Seq<u8>) -> bool {
    tries_entry(ops, topic, uri, 1, true)
}

/// Taking a topic entry that was seen to be free.
pub open spec fn takes_entry(ops: Accesses, topic: int, uri: Seq<u8>) -> bool {
    exists|state: u32|
        {
            &&& state != 1
            &&& ops == seq![#[trigger] state_look(topic, state)] + topic_stores(topic, uri)
        }
}

/// A look at the state of a topic entry.
pub open spec fn state_look(topic: int, state: u32) -> Access {
    Access::Look32 { off: topic_off(topic) + TE_ACTIVE, found: state }
}

/// Each of these is a look at the entry of its number in which another URI is
/// registered.
pub open spec fn finds_others(parts: Seq<Accesses>, uri: Seq<u8>) -> bool {
    forall|k: int| 0 <= k < parts.len() ==> #[trigger] finds_other(parts[k], k, uri)
}

/// Each of these is a look at the entry of its number, which is not the one of a URI.
pub open spec fn passes_entries(parts: Seq<Accesses>, uri: Seq<u8>) -> bool {
    forall|k: int| 0 <= k < parts.len() ==> #[trigger] passes_entry(parts[k], k, uri)
}

/// What registering does: the entries are looked at in turn, up to the one of the URI,
/// or the first free one, which is taken.
pub open spec fn registers(
    parts: Seq<Accesses>,
    last: Accesses,
    count: int,
    uri: Seq<u8>,
    r: Option<u32>,
) -> bool {
    &&& finds_others(parts, uri)
    &&& match r {
        Some(i) => {
            &&& parts.len() == i
            &&& finds_entry(last, i as int, uri) || takes_entry(last, i as int, uri)
        },
        None => parts.len() == count && last.len() == 0,
    }
}

/// Between two records a URI was registered.
pub open spec fn registered(
    before: Accesses,
    after: Accesses,
    count: int,
    uri: Seq<u8>,
    r: Option<u32>,
) -> bool {
    exists|parts: Seq<Accesses>, last: Accesses|
        {
            &&& after == before + reading::joined(parts) + last
            &&& #[trigger] registers(parts, last, count, uri, r)
        }
}

/// Between two records the topic of a URI was searched, and the number of its newest
/// sample was seen.
pub open spec fn joined_topic(
    before: Accesses,
    after: Accesses,
    uri: Seq<u8>,
    topic: u32,
    last_seq: u64,
) -> bool {
    exists|parts: Seq<Accesses>, last: Accesses|
        {
            &&& after == before + reading::joined(parts) + last + seq![
                reading::look(topic_off(topic as int) + TE_WRITE_SEQ, last_seq),
            ]
            &&& parts.len() == topic
            &&& #[trigger] passes_entries(parts, uri)
            &&& #[trigger] finds_entry(last, topic as int, uri)
        }
}

/// The topic of a handle, if there is one.
pub open spec fn topic_of(r: Result<PoolTopicHandle, CrossbarError>) -> Option<u32> {
    match r {
        Ok(h) => Some(h.topic_idx),
        Err(_) => None,
    }
}

/// What registering a topic in a free entry stores, in this order: the entry counts
/// only when all else is in it.
pub open spec fn topic_stores(topic: int, uri: Seq<u8>) -> Accesses {
    let t = topic_off(topic);
    seq![
        Access::Word64 { off: t + TE_URI_HASH, v: layout::fnv(uri) },
        Access::Word32 { off: t + TE_URI_LEN, v: uri.len() as u32 },
        Access::Bytes { off: t + TE_URI, data: uri },
        Access::Word64 { off: t + TE_WRITE_SEQ, v: 0 },
        Access::Word32 { off: t + TE_ACTIVE, v: 1 },
    ]
}

/// The segment after a block was taken from the pool.
pub open spec fn after_loan(c: PoolPubSubConfig, m: Seq<u8>) -> Seq<u8> {
    match pool_of(c).alloc_choice(m) {
        Some(block) => memory::put32(
            pool_of(c).after_alloc(m),
            refcount_off(c, block as int),
            0,
        ),
        None => m,
    }
}

/// The segment after one reference to a block is let go: with the last one the
/// block goes back to the pool. A block outside of the pool is ignored.
pub open spec fn after_release(c: PoolPubSubConfig, m: Seq<u8>, block: u32) -> Seq<u8> {
    if block >= c.block_count {
        m
    } else {
        let count = refcount(c, m, block as int);
        let n = memory::put32(
            m,
            refcount_off(c, block as int),
            memory::wrapping_difference_u32(count, 1),
        );
        if count == 1 {
            pool_of(c).after_free(n, block)
        } else {
            n
        }
    }
}

/// The segment after a sample was published, and before the one that it
/// replaces in the ring is let go.
pub open spec fn with_sample(
    c: PoolPubSubConfig,
    m: Seq<u8>,
    topic: int,
    block: u32,
    len: u32,
    seq: u64,
) -> Seq<u8> {
    let m = memory::put32(m, refcount_off(c, block as int), 1);
    let m = rings::with_entry(m, ring_off(c, topic, slot_of(c, seq)), block, len, seq);
    memory::put64(m, topic_off(topic) + TE_WRITE_SEQ, seq)
}

/// The segment after a sample was published.
pub open spec fn after_commit(
    c: PoolPubSubConfig,
    m: Seq<u8>,
    topic: int,
    block: u32,
    len: u32,
    seq: u64,
) -> Seq<u8> {
    let replaced = rings::entry_block(m, ring_off(c, topic, slot_of(c, seq)));
    after_release(c, with_sample(c, m, topic, block, len, seq), replaced)
}

/// The segment with subscribers told of a sample.
pub open spec fn with_notice(m: Seq<u8>, topic: int) -> Seq<u8> {
    let t = topic_off(topic) + TE_NOTIFY;
    memory::put32(m, t, memory::wrapping_sum_u32(memory::u32_at(m, t), 1))
}

/// A sample can be received: it is in the ring, its block exists and is in use,
/// and its length makes sense.
pub open spec fn readable(c: PoolPubSubConfig, m: Seq<u8>, topic: int, seq: u64) -> bool {
    let e = ring_off(c, topic, slot_of(c, seq));
    let block = rings::entry_block(m, e);
    &&& rings::entry_seq(m, e) == seq
    &&& block < c.block_count
    &&& rings::entry_len(m, e) <= capacity_of(c)
    &&& 0 < refcount(c, m, block as int) < u32::MAX
}

/// The sample that a subscriber receives, if there is one: the next one, or the
/// newest one if it has fallen too far behind or the next one is gone.
pub open spec fn received_seq(c: PoolPubSubConfig, m: Seq<u8>, topic: int, last: u64) -> Option<
    u64,
> {
    let newest = write_seq(m, topic);
    if newest <= last {
        None
    } else {
        let target = if newest - last > c.ring_depth {
            newest
        } else {
            (last + 1) as u64
        };
        if readable(c, m, topic, target) {
            Some(target)
        } else if newest != target && readable(c, m, topic, newest) {
            Some(newest)
        } else {
            None
        }
    }
}

/// The segment with one reference more to a block.
pub open spec fn with_reference(c: PoolPubSubConfig, m: Seq<u8>, block: u32) -> Seq<u8> {
    memory::put32(
        m,
        refcount_off(c, block as int),
        memory::wrapping_sum_u32(refcount(c, m, block as int), 1),
    )
}

/// The data of a sample.
pub open spec fn sample_data(c: PoolPubSubConfig, m: Seq<u8>, topic: int, seq: u64) -> Seq<u8> {
    let e = ring_off(c, topic, slot_of(c, seq));
    memory::bytes_at(
        m,
        data_off(c, rings::entry_block(m, e) as int),
        rings::entry_len(m, e) as int,
    )
}

/// A segment as one party sees it.
pub struct PoolRegion<M: SharedMemory> {
    /// The segment.
    pub mem: M,
    /// Its parameters.
    pub config: PoolPubSubConfig,
}

impl<M: SharedMemory> PoolRegion<M> {
    /// The segment has room for its parts.
    pub open spec fn fits(&self) -> bool {
        region_size(self.config) <= self.mem.image().len() <= usize::MAX
    }

    /// The segment has room for its parts, and its rings and blocks can be used.
    pub open spec fn wf(&self) -> bool {
        sound(self.config) && self.fits()
    }

    /// Whether rings and blocks can be used: those of a segment that was created
    /// can, those that a foreign header announces perhaps not.
    pub fn is_usable(&self) -> (r: bool)
        requires
            self.fits(),
        ensures
            r == self.wf(),
    {
        self.config.block_size as usize >= BLOCK_DATA_OFFSET && self.config.ring_depth > 0
    }

    /// `other` is the same segment at a later moment.
    pub open spec fn same_segment(&self, other: &Self) -> bool {
        &&& other.config == self.config
        &&& other.mem.image().len() == self.mem.image().len()
        &&& other.mem.exclusive() == self.mem.exclusive()
        &&& other.mem.contention() <= self.mem.contention()
    }

    /// Offset of a topic entry.
    pub fn topic_at(&self, topic: u32) -> (r: usize)
        requires
            self.fits(),
            topic < self.config.max_topics,
        ensures
            r == topic_off(topic as int),
            r + TOPIC_ENTRY_SIZE <= self.mem.image().len() <= usize::MAX,
    {
        proof {
            lemma_topic(self.config, topic as int);
        }
        HEADER_SIZE + topic as usize * TOPIC_ENTRY_SIZE
    }

    fn entry_at(&self, topic: u32, seq: u64) -> (r: usize)
        requires
            self.wf(),
            topic < self.config.max_topics,
        ensures
            r == ring_off(self.config, topic as int, slot_of(self.config, seq)),
            r + RING_ENTRY_SIZE <= self.mem.image().len() <= usize::MAX,
    {
        let slot: u32 = (seq % self.config.ring_depth as u64) as u32;
        proof {
            lemma_ring(self.config, topic as int, slot as int);
            lemma_parts(self.config);
        }
        let base: usize = HEADER_SIZE + self.config.max_topics as usize * TOPIC_ENTRY_SIZE;
        cell_off(
            base,
            self.config.max_topics,
            self.config.ring_depth,
            RING_ENTRY_SIZE,
            topic,
            slot,
        )
    }

    fn pool(&self) -> (r: PoolLayout)
        requires
            self.wf(),
        ensures
            r == pool_of(self.config),
            r.fits(self.mem.image().len()),
    {
        proof {
            lemma_parts(self.config);
            lemma_pool(self.config, self.mem.image().len());
            cells::lemma_many_cells(
                self.config.max_topics as int,
                self.config.ring_depth as int,
                RING_ENTRY_SIZE as int,
            );
            cells::lemma_table(
                self.config.max_topics as int,
                self.config.ring_depth as int,
                RING_ENTRY_SIZE as int,
            );
        }
        let base: usize = HEADER_SIZE + self.config.max_topics as usize * TOPIC_ENTRY_SIZE;
        let entries: usize = self.config.max_topics as usize * self.config.ring_depth as usize;
        PoolLayout {
            head: GH_POOL_HEAD,
            base: base + entries * RING_ENTRY_SIZE,
            block_size: self.config.block_size,
            block_count: self.config.block_count,
            checks_links: false,
        }
    }

    /// Offset of a block.
    pub fn block_at(&self, block: u32) -> (r: usize)
        requires
            self.wf(),
            block < self.config.block_count,
        ensures
            r == pool_of(self.config).block(block as int),
            r + self.config.block_size <= self.mem.image().len() <= usize::MAX,
    {
        proof {
            lemma_block(self.config, block as int);
        }
        let p: PoolLayout = self.pool();
        p.block_off(block)
    }

    /// Takes a block from the pool, with no references.
    pub fn alloc_block(&mut self) -> (r: Option<u32>)
        requires
            old(self).wf(),
        ensures
            final(self).wf(),
            old(self).same_segment(final(self)),
            r matches Some(block) ==> block < old(self).config.block_count,
            match r {
                Some(block) => exists|ops: memory::Accesses|
                    {
                        &&& final(self).mem.accesses() == (old(self).mem.accesses() + ops).push(
                            (Access::Word32 {
                                off: pool_of(old(self).config).block(block as int) + BK_REFCOUNT,
                                v: 0,
                            }),
                        )
                        &&& #[trigger] pool_of(old(self).config).takes(ops, r)
                    },
                None => pool_of(old(self).config).took(old(self).mem, final(self).mem, r),
            },
            old(self).mem.exclusive() ==> {
                &&& r == pool_of(old(self).config).alloc_choice(old(self).mem.image())
                &&& final(self).mem.image() == after_loan(
                    old(self).config,
                    old(self).mem.image(),
                )
            },
    {
        let p: PoolLayout = self.pool();
        match p.alloc_block(&mut self.mem) {
            Some(block) => {
                let at: usize = self.block_at(block);
                self.mem.store_u32(at + BK_REFCOUNT, 0);
                Some(block)
            },
            None => None,
        }
    }

    /// Gives a block back to the pool. An index outside of the pool is ignored.
    pub fn free_block(&mut self, block: u32)
        requires
            old(self).wf(),
        ensures
            final(self).wf(),
            old(self).same_segment(final(self)),
            pool_of(old(self).config).gave(old(self).mem, final(self).mem, block),
            old(self).mem.exclusive() ==> final(self).mem.image() == pool_of(
                old(self).config,
            ).after_free(old(self).mem.image(), block),
    {
        let p: PoolLayout = self.pool();
        p.free_block(&mut self.mem, block);
    }

    /// Lets go of one reference to a block. With the last one the block goes
    /// back to the pool.
    pub fn release_block(&mut self, block: u32)
        requires
            old(self).wf(),
        ensures
            final(self).wf(),
            old(self).same_segment(final(self)),
            exists|ops: Accesses|
                {
                    &&& final(self).mem.accesses() == old(self).mem.accesses() + ops
                    &&& #[trigger] reading::releases(
                        pool_of(old(self).config),
                        ops,
                        refcount_off(old(self).config, block as int),
                        block,
                    )
                },
            old(self).mem.exclusive() ==> final(self).mem.image() == after_release(
                old(self).config,
                old(self).mem.image(),
                block,
            ),
    {
        let ghost p = pool_of(self.config);
        let ghost count = refcount_off(self.config, block as int);
        let ghost first = self.mem.accesses();
        if block >= self.config.block_count {
            proof {
                let none = Seq::<Access>::empty();
                assert(first + none =~= first);
                assert(reading::releases(p, none, count, block));
            }
            return ;
        }
        let at: usize = self.block_at(block);
        let before: u32 = self.mem.fetch_sub_u32(at + BK_REFCOUNT, 1);
        let ghost mid = self.mem.accesses();
        let ghost mut rest: Accesses = Seq::empty();
        if before == 1 {
            self.free_block(block);
            proof {
                rest = choose|ops: Accesses|
                    self.mem.accesses() == mid + ops && #[trigger] p.gives(ops, block);
            }
        }
        proof {
            let down = Access::Subtract32 { off: count, v: 1, was: before };
            let ops = seq![down] + rest;
            assert(reading::released_last(p, rest, before, block));
            assert(reading::releases(p, ops, count, block));
            assert(self.mem.accesses() =~= first + ops);
        }
    }

    /// Most bytes of data in a block.
    pub fn data_capacity(&self) -> (r: usize)
        requires
            self.wf(),
        ensures
            r == capacity_of(self.config),
    {
        self.config.block_size as usize - BLOCK_DATA_OFFSET
    }

    /// Sets the heartbeat.
    pub fn update_heartbeat(&mut self, now: u64)
        requires
            old(self).wf(),
        ensures
            final(self).wf(),
            old(self).same_segment(final(self)),
            final(self).mem.accesses() == old(self).mem.accesses().push(
                (Access::Word64 { off: GH_HEARTBEAT as int, v: now }),
            ),
            old(self).mem.exclusive() ==> final(self).mem.image() == memory::put64(
                old(self).mem.image(),
                GH_HEARTBEAT as int,
                now,
            ),
    {
        proof {
            lemma_parts(self.config);
        }
        self.mem.store_u64(GH_HEARTBEAT, now);
    }

    /// Checks that the publisher is alive.
    pub fn check_heartbeat(&self, now: u64) -> (r: Result<(), CrossbarError>)
        requires
            self.fits(),
        ensures
            r matches Err(e) ==> e is ShmServerDead,
            self.mem.exclusive() ==> (r is Err <==> now - memory::u64_at(
                self.mem.image(),
                GH_HEARTBEAT as int,
            ) > self.config.stale_timeout_us),
    {
        proof {
            lemma_parts(self.config);
        }
        let beat: u64 = self.mem.load_u64(GH_HEARTBEAT);
        if now > beat && now - beat > self.config.stale_timeout_us {
            return Err(CrossbarError::ShmServerDead);
        }
        Ok(())
    }

    /// Looks whether a topic entry is the one of a URI, and tells its state too.
    fn try_entry(&mut self, topic: u32, uri: &[u8], hash: u64) -> (r: (u32, bool))
        requires
            old(self).fits(),
            topic < old(self).config.max_topics,
            hash == layout::fnv(uri@),
        ensures
            final(self).fits(),
            old(self).same_segment(final(self)),
            exists|ops: Accesses|
                {
                    &&& final(self).mem.accesses() == old(self).mem.accesses() + ops
                    &&& #[trigger] tries_entry(ops, topic as int, uri@, r.0, r.1)
                },
            r.1 ==> r.0 == 1,
            old(self).mem.exclusive() ==> {
                &&& final(self).mem.image() == old(self).mem.image()
                &&& r.0 == memory::u32_at(
                    old(self).mem.image(),
                    topic_off(topic as int) + TE_ACTIVE,
                )
                &&& r.1 == (r.0 == 1 && holds_uri(old(self).mem.image(), topic as int, uri@))
            },
    {
        let ghost first = self.mem.accesses();
        let ghost none = Seq::<Access>::empty();
        let ghost t = topic as int;
        let ghost mut rest = none;
        let mut found: bool = false;
        let off: usize = self.topic_at(topic);
        let state: u32 = self.mem.look_u32(off + TE_ACTIVE);
        if state == 1 && uri.len() <= TE_URI_MAX {
            let seen: u64 = self.mem.look_u64(off + TE_URI_HASH);
            let ghost mut hash_rest = none;
            if seen == hash {
                let len: u32 = self.mem.look_u32(off + TE_URI_LEN);
                let ghost mut text = none;
                if len as usize == uri.len() {
                    let stored: Vec<u8> = self.mem.copy(off + TE_URI, uri.len());
                    found = memory::same_bytes(stored.as_slice(), uri);
                    proof {
                        text = seq![Access::Copied { off: topic_off(t) + TE_URI, found: stored@ }];
                    }
                }
                proof {
                    assert(tries_text(text, t, uri@, len, found));
                    hash_rest = seq![
                        Access::Look32 { off: topic_off(t) + TE_URI_LEN, found: len },
                    ] + text;
                }
            }
            proof {
                assert(tries_hash(hash_rest, t, uri@, seen, found));
                rest = seq![reading::look(topic_off(t) + TE_URI_HASH, seen)] + hash_rest;
            }
        }
        let r: (u32, bool) = (state, found);
        proof {
            let ops = seq![
                Access::Look32 { off: topic_off(t) + TE_ACTIVE, found: state },
            ] + rest;
            assert(tries_state(rest, t, uri@, state, found));
            assert(tries_entry(ops, t, uri@, r.0, r.1));
            assert(self.mem.accesses() =~= first + ops);
        }
        r
    }
}

/// A registered topic, for use with the publisher that registered it.
#[derive(Debug, Clone, Copy, PartialEq, Eq, Structural)]
pub struct PoolTopicHandle {
    /// The topic.
    pub topic_idx: u32,
    /// The publisher that registered it.
    pub publisher_id: u64,
}

/// Publishes samples to the topics of a segment.
pub struct ShmPoolPublisher<M: SharedMemory> {
    /// The segment.
    pub region: PoolRegion<M>,
    /// What tells this publisher's handles from those of others.
    pub id: u64,
    /// When the heartbeat was last set, by the monotonic clock.
    pub last_heartbeat: u64,
    /// Number of loans, going around.
    pub loan_count: u32,
}

impl<M: SharedMemory> ShmPoolPublisher<M> {
    /// The segment is sound.
    pub open spec fn wf(&self) -> bool {
        self.region.wf()
    }

    /// Makes a new segment of some memory: a header, free blocks, and empty
    /// rings.
    pub fn create(
        config: &PoolPubSubConfig,
        mem: M,
        id: u64,
        pid: u32,
        now: u64,
        clock: u64,
    ) -> (r: ShmPoolPublisher<M>)
        requires
            config_fault(*config) is None,
            mem.image().len() >= region_size(*config),
        ensures
            r.wf(),
            r.region.config == *config,
            r.id == id,
            r.last_heartbeat == clock,
            r.loan_count == 0,
            r.region.mem.image().len() == mem.image().len(),
            r.region.mem.exclusive() == mem.exclusive(),
            mem.exclusive() ==> r.region.mem.image() == created(*config, mem.image(), pid, now),
    {
        proof {
            lemma_parts(*config);
            cells::lemma_table(config.max_topics as int, config.ring_depth as int, 16);
            cells::lemma_many_cells(config.max_topics as int, config.ring_depth as int, 16);
        }
        let size: usize = mem.size();
        let mut region: PoolRegion<M> = PoolRegion { mem, config: *config };
        let start: Vec<u8> = magic_bytes();
        region.mem.write(0, start.as_slice());
        region.mem.store_u32(GH_VERSION, VERSION);
        region.mem.store_u32(GH_MAX_TOPICS, config.max_topics);
        region.mem.store_u32(GH_BLOCK_COUNT, config.block_count);
        region.mem.store_u32(GH_BLOCK_SIZE, config.block_size);
        region.mem.store_u32(GH_RING_DEPTH, config.ring_depth);
        region.mem.store_u64(GH_PID, pid as u64);
        region.mem.store_u64(GH_STALE_TIMEOUT_US, config.stale_timeout_us);
        let p: PoolLayout = region.pool();
        p.init_free_list(&mut region.mem);
        region.update_heartbeat(now);
        let base: usize = HEADER_SIZE + config.max_topics as usize * TOPIC_ENTRY_SIZE;
        let entries: usize = config.max_topics as usize * config.ring_depth as usize;
        clear_entries(&mut region.mem, base, entries);
        ShmPoolPublisher { region, id, last_heartbeat: clock, loan_count: 0 }
    }

    /// Registers a topic: the first one that has the URI already or is free.
    /// Fails where the URI is too long or there is none.
    pub fn register(&mut self, uri: &str) -> (r: Result<PoolTopicHandle, CrossbarError>)
        requires
            old(self).wf(),
        ensures
            final(self).wf(),
            old(self).region.same_segment(&final(self).region),
            final(self).id == old(self).id,
            final(self).last_heartbeat == old(self).last_heartbeat,
            final(self).loan_count == old(self).loan_count,
            r matches Ok(h) ==> h.publisher_id == old(self).id && h.topic_idx
                < old(self).region.config.max_topics,
            vstd::utf8::encode_utf8(uri@).len() <= TE_URI_MAX ==> registered(
                old(self).region.mem.accesses(),
                final(self).region.mem.accesses(),
                old(self).region.config.max_topics as int,
                vstd::utf8::encode_utf8(uri@),
                topic_of(r),
            ),
            ({
                let b = vstd::utf8::encode_utf8(uri@);
                let m = old(self).region.mem.image();
                if b.len() > TE_URI_MAX {
                    &&& r matches Err(e) && e@ == error::CrossbarErrorView::ShmInvalidRegion(
                        "topic URI too long ("@ + text::decimal(b.len()) + " > 64)"@,
                    )
                    &&& *final(self) == *old(self)
                } else {
                    old(self).region.mem.exclusive() ==> match place_for(
                        old(self).region.config,
                        m,
                        b,
                        0,
                    ) {
                        Some(t) => {
                            &&& r matches Ok(h) && h.topic_idx == t
                            &&& final(self).region.mem.image() == if is_registered(m, t as int) {
                                m
                            } else {
                                with_topic(m, t as int, b)
                            }
                        },
                        None => {
                            &&& r matches Err(e) && e@
                                == error::CrossbarErrorView::ShmInvalidRegion(
                                "maximum topics reached"@,
                            )
                            &&& final(self).region.mem.image() == m
                        },
                    }
                }
            }),
    {
        let b: &[u8] = bytes_of(uri);
        let len: usize = b.len();
        if len > TE_URI_MAX {
            let s: String = add_number(text::text("topic URI too long ("), len as u64);
            return Err(CrossbarError::ShmInvalidRegion(add_text(s, " > 64)")));
        }
        let hash: u64 = uri_hash(uri);
        let mut i: u32 = 0;
        let ghost mut parts: Seq<Accesses> = Seq::empty();
        let ghost first = self.region.mem.accesses();
        let ghost n = self.region.config.max_topics as int;
        assert(first + reading::joined(parts) =~= first);
        while i < self.region.config.max_topics
            invariant
                i <= self.region.config.max_topics,
                self.wf(),
                old(self).region.same_segment(&self.region),
                self.id == old(self).id,
                self.last_heartbeat == old(self).last_heartbeat,
                self.loan_count == old(self).loan_count,
                len == b@.len(),
                len <= TE_URI_MAX,
                b@ == vstd::utf8::encode_utf8(uri@),
                hash == layout::fnv(b@),
                n == self.region.config.max_topics,
                first == old(self).region.mem.accesses(),
                parts.len() == i,
                self.region.mem.accesses() == first + reading::joined(parts),
                finds_others(parts, b@),
                self.region.mem.exclusive() ==> {
                    &&& self.region.mem.image() == old(self).region.mem.image()
                    &&& place_for(self.region.config, self.region.mem.image(), b@, 0)
                        == place_for(self.region.config, self.region.mem.image(), b@, i as int)
                },
            decreases self.region.config.max_topics - i,
        {
            let off: usize = self.region.topic_at(i);
            let ghost mid = self.region.mem.accesses();
            let (state, here) = self.region.try_entry(i, b, hash);
            let ghost ops = choose|ops: Accesses|
                self.region.mem.accesses() == mid + ops && #[trigger] tries_entry(
                    ops,
                    i as int,
                    b@,
                    state,
                    here,
                );
            if here {
                proof {
                    assert(finds_entry(ops, i as int, b@));
                    assert(registers(parts, ops, n, b@, Some(i)));
                    assert(self.region.mem.accesses() =~= first + reading::joined(parts) + ops);
                }
                return Ok(PoolTopicHandle { topic_idx: i, publisher_id: self.id });
            }
            if state != 1 {
                assert(ops =~= seq![state_look(i as int, state)]);
                self.region.mem.store_u64(off + TE_URI_HASH, hash);
                self.region.mem.store_u32(off + TE_URI_LEN, len as u32);
                self.region.mem.write(off + TE_URI, b);
                self.region.mem.store_u64(off + TE_WRITE_SEQ, 0);
                self.region.mem.store_u32(off + TE_ACTIVE, 1);
                proof {
                    let last = ops + topic_stores(i as int, b@);
                    assert(takes_entry(last, i as int, b@));
                    assert(registers(parts, last, n, b@, Some(i)));
                    assert(self.region.mem.accesses() =~= first + reading::joined(parts) + last);
                }
                return Ok(PoolTopicHandle { topic_idx: i, publisher_id: self.id });
            }
            proof {
                let longer = parts.push(ops);
                assert(finds_other(ops, i as int, b@));
                assert forall|k: int| 0 <= k < longer.len() implies #[trigger] finds_other(
                    longer[k],
                    k,
                    b@,
                ) by {
                    if k < parts.len() {
                        assert(finds_other(parts[k], k, b@));
                    }
                }
                reading::lemma_joined_push(parts, ops);
                assert(self.region.mem.accesses() =~= first + reading::joined(longer));
                parts = longer;
            }
            i = i + 1;
        }
        proof {
            let none = Seq::<Access>::empty();
            assert(registers(parts, none, n, b@, None));
            assert(self.region.mem.accesses() =~= first + reading::joined(parts) + none);
        }
        Err(invalid("maximum topics reached"))
    }

    /// Sets the heartbeat.
    pub fn heartbeat(&mut self, now: u64, clock: u64)
        requires
            old(self).wf(),
        ensures
            final(self).wf(),
            old(self).region.same_segment(&final(self).region),
            final(self).id == old(self).id,
            final(self).loan_count == old(self).loan_count,
            final(self).last_heartbeat == clock,
            final(self).region.mem.accesses() == old(self).region.mem.accesses().push(
                (Access::Word64 { off: GH_HEARTBEAT as int, v: now }),
            ),
            old(self).region.mem.exclusive() ==> final(self).region.mem.image() == memory::put64(
                old(self).region.mem.image(),
                GH_HEARTBEAT as int,
                now,
            ),
    {
        self.region.update_heartbeat(now);
        self.last_heartbeat = clock;
    }

    /// The heartbeat is set with the next loan: one loan in 1024 looks at the
    /// clock, and sets it if an interval has passed.
    pub open spec fn beat_due(&self, clock: u64) -> bool {
        &&& memory::wrapping_sum_u32(self.loan_count, 1) % 1024 == 0
        &&& clock - self.last_heartbeat >= self.region.config.heartbeat_interval_us
    }

    /// The record of the publisher, after a heartbeat that is due.
    pub open spec fn beaten(&self, now: u64, clock: u64) -> Accesses {
        if self.beat_due(clock) {
            self.region.mem.accesses().push(Access::Word64 { off: GH_HEARTBEAT as int, v: now })
        } else {
            self.region.mem.accesses()
        }
    }

    /// Lends a block for a sample of a topic. `None` if all blocks are in use.
    pub fn loan(&mut self, handle: &PoolTopicHandle, now: u64, clock: u64) -> (r: Option<
        ShmPoolLoan<'_, M>,
    >)
        requires
            old(self).wf(),
            handle.publisher_id == old(self).id,
            handle.topic_idx < old(self).region.config.max_topics,
        ensures
            final(self).id == old(self).id,
            final(self).loan_count == memory::wrapping_sum_u32(old(self).loan_count, 1),
            final(self).last_heartbeat == if old(self).beat_due(clock) {
                clock
            } else {
                old(self).last_heartbeat
            },
            match r {
                Some(l) => {
                    &&& l.wf()
                    &&& l.len == 0
                    &&& l.topic_idx == handle.topic_idx
                    &&& old(self).region.same_segment(&*l.region)
                    &&& final(self).region == *final(l.region)
                    &&& lent(
                        old(self).region.config,
                        old(self).beaten(now, clock),
                        l.region.mem.accesses(),
                        l.topic_idx as int,
                        l.block_idx,
                        l.seq,
                    )
                },
                None => {
                    &&& final(self).wf()
                    &&& old(self).region.same_segment(&final(self).region)
                    &&& exists|ops: Accesses|
                        {
                            &&& final(self).region.mem.accesses() == old(self).beaten(now, clock)
                                + ops
                            &&& #[trigger] pool_of(old(self).region.config).takes(ops, None)
                        }
                },
            },
            old(self).region.mem.exclusive() ==> {
                let c = old(self).region.config;
                let m = if old(self).beat_due(clock) {
                    memory::put64(old(self).region.mem.image(), GH_HEARTBEAT as int, now)
                } else {
                    old(self).region.mem.image()
                };
                match pool_of(c).alloc_choice(m) {
                    Some(block) => {
                        &&& r matches Some(l)
                        &&& l.block_idx == block
                        &&& l.region.mem.image() == after_loan(c, m)
                        &&& l.seq == memory::wrapping_sum_u64(
                            write_seq(after_loan(c, m), handle.topic_idx as int),
                            1,
                        )
                    },
                    None => r is None && final(self).region.mem.image() == m,
                }
            },
    {
        self.loan_count = self.loan_count.wrapping_add(1);
        if self.loan_count % 1024 == 0 && clock >= self.last_heartbeat && clock
            - self.last_heartbeat >= self.region.config.heartbeat_interval_us {
            self.region.update_heartbeat(now);
            self.last_heartbeat = clock;
        }
        let ghost first = self.region.mem.accesses();
        let ghost c = self.region.config;
        match self.region.alloc_block() {
            Some(block_idx) => {
                let ghost taken = choose|ops: Accesses|
                    {
                        &&& self.region.mem.accesses() == (first + ops).push(
                            (Access::Word32 {
                                off: pool_of(c).block(block_idx as int) + BK_REFCOUNT,
                                v: 0,
                            }),
                        )
                        &&& #[trigger] pool_of(c).takes(ops, Some(block_idx))
                    };
                let off: usize = self.region.topic_at(handle.topic_idx);
                let newest: u64 = self.region.mem.look_u64(off + TE_WRITE_SEQ);
                let seq: u64 = newest.wrapping_add(1);
                assert(lent(
                    c,
                    first,
                    self.region.mem.accesses(),
                    handle.topic_idx as int,
                    block_idx,
                    seq,
                )) by {
                    assert(self.region.mem.accesses() =~= first + taken + loan_looks(
                        c,
                        handle.topic_idx as int,
                        block_idx,
                        newest,
                    ));
                }
                Some(
                    ShmPoolLoan {
                        region: &mut self.region,
                        len: 0,
                        block_idx,
                        topic_idx: handle.topic_idx,
                        seq,
                    },
                )
            },
            None => None,
        }
    }
}

/// A block to be written and published.
pub struct ShmPoolLoan<'a, M: SharedMemory> {
    /// The segment.
    pub region: &'a mut PoolRegion<M>,
    /// Bytes written so far.
    pub len: usize,
    /// The block.
    pub block_idx: u32,
    /// The topic.
    pub topic_idx: u32,
    /// The sequence number that the sample gets.
    pub seq: u64,
}

impl<'a, M: SharedMemory> ShmPoolLoan<'a, M> {
    /// The loan is of a block and a topic that exist, and no more is written
    /// than fits.
    pub open spec fn wf(&self) -> bool {
        &&& self.region.wf()
        &&& self.block_idx < self.region.config.block_count
        &&& self.topic_idx < self.region.config.max_topics
        &&& self.len <= capacity_of(self.region.config)
    }

    /// The data so far.
    pub open spec fn data(&self) -> Seq<u8> {
        memory::bytes_at(
            self.region.mem.image(),
            data_off(self.region.config, self.block_idx as int),
            self.len as int,
        )
    }

    /// `other` is the same loan at a later moment.
    pub open spec fn same_loan(&self, other: &Self) -> bool {
        &&& self.region.same_segment(&*other.region)
        &&& other.block_idx == self.block_idx
        &&& other.topic_idx == self.topic_idx
        &&& other.seq == self.seq
    }

    /// Writes bytes at an offset of the data, without changing its length.
    pub fn write_at(&mut self, off: usize, data: &[u8])
        requires
            old(self).wf(),
            off + data@.len() <= capacity_of(old(self).region.config),
        ensures
            final(self).wf(),
            old(self).same_loan(final(self)),
            final(self).len == old(self).len,
            *final(final(self).region) == *final(old(self).region),
            final(self).region.mem.accesses() == old(self).region.mem.accesses().push(
                (Access::Bytes {
                    off: data_off(old(self).region.config, old(self).block_idx as int) + off,
                    data: data@,
                }),
            ),
            old(self).region.mem.exclusive() ==> final(self).region.mem.image() == memory::put(
                old(self).region.mem.image(),
                data_off(old(self).region.config, old(self).block_idx as int) + off,
                data@,
            ),
    {
        let at: usize = self.region.block_at(self.block_idx);
        self.region.mem.write(at + BLOCK_DATA_OFFSET + off, data);
    }

    /// Makes `data` the data of the sample.
    pub fn set_data(&mut self, data: &[u8])
        requires
            old(self).wf(),
            data@.len() <= capacity_of(old(self).region.config),
        ensures
            final(self).wf(),
            old(self).same_loan(final(self)),
            final(self).len == data@.len(),
            *final(final(self).region) == *final(old(self).region),
            final(self).region.mem.accesses() == old(self).region.mem.accesses().push(
                (Access::Bytes {
                    off: data_off(old(self).region.config, old(self).block_idx as int),
                    data: data@,
                }),
            ),
            old(self).region.mem.exclusive() ==> {
                &&& final(self).data() == data@
                &&& final(self).region.mem.image() == memory::put(
                    old(self).region.mem.image(),
                    data_off(old(self).region.config, old(self).block_idx as int),
                    data@,
                )
            },
    {
        proof {
            lemma_block(self.region.config, self.block_idx as int);
        }
        self.write_at(0, data);
        self.len = data.len();
        assert(self.region.mem.exclusive() ==> self.data() =~= data@);
    }

    /// Sets the length of the data, for use after `write_at`.
    pub fn set_len(&mut self, len: usize)
        requires
            old(self).wf(),
            len <= capacity_of(old(self).region.config),
        ensures
            final(self).wf(),
            old(self).same_loan(final(self)),
            final(self).region == old(self).region,
            final(self).len == len,
    {
        self.len = len;
    }

    /// Most bytes that the block can hold.
    pub fn capacity(&self) -> (r: usize)
        requires
            self.wf(),
        ensures
            r == capacity_of(old(self.region).config),
    {
        self.region.data_capacity()
    }

    /// Appends as much of `buf` as there is room for, and says how much that
    /// was. A full block accepts nothing but an empty buffer.
    pub fn write(&mut self, buf: &[u8]) -> (r: Result<usize, CrossbarError>)
        requires
            old(self).wf(),
        ensures
            final(self).wf(),
            old(self).same_loan(final(self)),
            *final(final(self).region) == *final(old(self).region),
            ({
                let room = capacity_of(old(self).region.config) - old(self).len;
                if room == 0 && buf@.len() > 0 {
                    &&& r matches Err(e) && e@ == error::CrossbarErrorView::Io("block full"@)
                    &&& final(self).len == old(self).len
                    &&& final(self).region == old(self).region
                } else {
                    &&& r matches Ok(n)
                    &&& n == if buf@.len() < room {
                        buf@.len() as int
                    } else {
                        room
                    }
                    &&& final(self).len == old(self).len + n
                    &&& final(self).region.mem.accesses()
                        == old(self).region.mem.accesses().push(
                        Access::Bytes {
                            off: data_off(
                                old(self).region.config,
                                old(self).block_idx as int,
                            ) + old(self).len,
                            data: buf@.subrange(0, n as int),
                        },
                    )
                    &&& old(self).region.mem.exclusive() ==> final(self).data()
                        == old(self).data() + buf@.subrange(0, n as int)
                }
            }),
    {
        let room: usize = self.region.data_capacity() - self.len;
        if room == 0 && buf.len() != 0 {
            return Err(CrossbarError::Io(text::text("block full")));
        }
        let n: usize = if buf.len() < room {
            buf.len()
        } else {
            room
        };
        let part: Vec<u8> = memory::copy_range(buf, 0, n);
        proof {
            lemma_block(self.region.config, self.block_idx as int);
        }
        let at: usize = self.region.block_at(self.block_idx);
        self.region.mem.write(at + BLOCK_DATA_OFFSET + self.len, part.as_slice());
        self.len = self.len + n;
        assert(self.region.mem.exclusive() ==> self.data() =~= old(self).data() + part@);
        Ok(n)
    }

    /// What publishing the sample does, in this order: the block gets its
    /// reference, the ring entry is written, the sample becomes the newest one, the
    /// sample that was in the entry is let go, and the subscribers are told.
    pub open spec fn commits(&self, ops: Accesses, wake: bool) -> bool {
        exists|replaced: u32, rest: Accesses, told: Accesses|
            {
                &&& ops == self.sample_stores() + rest + told
                &&& #[trigger] self.lets_go(rest, replaced)
                &&& #[trigger] self.tells(told, wake)
            }
    }

    /// What makes the sample the newest one of its topic.
    pub open spec fn sample_stores(&self) -> Accesses {
        sample_stores(
            self.region.config,
            self.topic_idx as int,
            self.block_idx,
            self.len as u32,
            self.seq,
        )
    }

    /// The reference of the ring entry to the block that was in it goes.
    pub open spec fn lets_go(&self, rest: Accesses, replaced: u32) -> bool {
        let c = self.region.config;
        if replaced == NO_BLOCK {
            rest.len() == 0
        } else {
            reading::releases(pool_of(c), rest, refcount_off(c, replaced as int), replaced)
        }
    }

    /// The word changes that sleeping subscribers watch.
    pub open spec fn tells(&self, told: Accesses, wake: bool) -> bool {
        if wake {
            exists|was: u32|
                told == seq![
                    #[trigger] noticed(self.topic_idx as int, was),
                ]
        } else {
            told.len() == 0
        }
    }

    fn commit(self, wake: bool) -> (r: bool)
        requires
            self.wf(),
        ensures
            final(self.region).wf(),
            old(self.region).same_segment(final(self.region)),
            exists|ops: Accesses|
                {
                    &&& final(self.region).mem.accesses() == old(self.region).mem.accesses() + ops
                    &&& #[trigger] self.commits(ops, wake)
                },
            old(self.region).mem.exclusive() ==> {
                let c = old(self.region).config;
                let n = after_commit(
                    c,
                    old(self.region).mem.image(),
                    self.topic_idx as int,
                    self.block_idx,
                    self.len as u32,
                    self.seq,
                );
                &&& final(self.region).mem.image() == if wake {
                    with_notice(n, self.topic_idx as int)
                } else {
                    n
                }
                &&& r == (wake && waiters(
                    final(self.region).mem.image(),
                    self.topic_idx as int,
                ) > 0)
            },
    {
        let ghost loan = self;
        let ghost first = self.region.mem.accesses();
        let ghost stores = self.sample_stores();
        let e: usize = self.region.entry_at(self.topic_idx, self.seq);
        let off: usize = self.region.topic_at(self.topic_idx);
        let replaced: u32 = self.region.mem.load_u32(e + RE_BLOCK_IDX);
        let at: usize = self.region.block_at(self.block_idx);
        self.region.mem.store_u32(at + BK_REFCOUNT, 1);
        write_entry(&mut self.region.mem, e, self.block_idx, self.len as u32, self.seq);
        self.region.mem.store_u64(off + TE_WRITE_SEQ, self.seq);
        assert(self.region.mem.accesses() =~= first + stores);
        let ghost mid = self.region.mem.accesses();
        let ghost mut rest: Accesses = Seq::empty();
        if replaced != NO_BLOCK {
            self.region.release_block(replaced);
            proof {
                rest = choose|ops: Accesses|
                    self.region.mem.accesses() == mid + ops && #[trigger] reading::releases(
                        pool_of(self.region.config),
                        ops,
                        refcount_off(self.region.config, replaced as int),
                        replaced,
                    );
            }
        }
        assert(self.region.mem.accesses() =~= first + stores + rest);
        let ghost mut told: Accesses = Seq::empty();
        let mut woken: bool = false;
        if wake {
            let before: u32 = self.region.mem.fetch_add_u32(off + TE_NOTIFY, 1);
            proof {
                told = seq![noticed(self.topic_idx as int, before)];
            }
            woken = self.region.mem.load_u32(off + TE_WAITERS) > 0;
        }
        proof {
            let ops = stores + rest + told;
            assert(self.region.mem.accesses() =~= first + ops);
            assert(loan.lets_go(rest, replaced));
            assert(loan.tells(told, wake));
            assert(loan.commits(ops, wake));
        }
        woken
    }

    /// Publishes the sample. Says whether a sleeping subscriber is to be woken.
    pub fn publish(self) -> (wake: bool)
        requires
            self.wf(),
        ensures
            final(self.region).wf(),
            old(self.region).same_segment(final(self.region)),
            exists|ops: Accesses|
                {
                    &&& final(self.region).mem.accesses() == old(self.region).mem.accesses() + ops
                    &&& #[trigger] self.commits(ops, true)
                },
            old(self.region).mem.exclusive() ==> {
                &&& final(self.region).mem.image() == with_notice(
                    after_commit(
                        old(self.region).config,
                        old(self.region).mem.image(),
                        self.topic_idx as int,
                        self.block_idx,
                        self.len as u32,
                        self.seq,
                    ),
                    self.topic_idx as int,
                )
                &&& wake == (waiters(final(self.region).mem.image(), self.topic_idx as int) > 0)
            },
    {
        self.commit(true)
    }

    /// Publishes the sample without telling anybody.
    pub fn publish_silent(self)
        requires
            self.wf(),
        ensures
            final(self.region).wf(),
            old(self.region).same_segment(final(self.region)),
            exists|ops: Accesses|
                {
                    &&& final(self.region).mem.accesses() == old(self.region).mem.accesses() + ops
                    &&& #[trigger] self.commits(ops, false)
                },
            old(self.region).mem.exclusive() ==> final(self.region).mem.image() == after_commit(
                old(self.region).config,
                old(self.region).mem.image(),
                self.topic_idx as int,
                self.block_idx,
                self.len as u32,
                self.seq,
            ),
    {
        let wake: bool = self.commit(false);
    }

    /// Gives the block back to the pool unpublished.
    pub fn discard(self)
        requires
            self.wf(),
        ensures
            final(self.region).wf(),
            old(self.region).same_segment(final(self.region)),
            pool_of(old(self.region).config).gave(
                old(self.region).mem,
                final(self.region).mem,
                self.block_idx,
            ),
            old(self.region).mem.exclusive() ==> final(self.region).mem.image() == pool_of(
                old(self.region).config,
            ).after_free(old(self.region).mem.image(), self.block_idx),
    {
        self.region.free_block(self.block_idx);
    }
}

/// What follows the taking of a block for a sample: it gets no reference, and the number
/// of the newest sample of the topic is looked at.
pub open spec fn loan_looks(
    c: PoolPubSubConfig,
    topic: int,
    block: u32,
    newest: u64,
) -> Accesses {
    seq![
        Access::Word32 { off: pool_of(c).block(block as int) + BK_REFCOUNT, v: 0 },
        reading::look(topic_off(topic) + TE_WRITE_SEQ, newest),
    ]
}

/// Between two records a block was taken for the sample with the number `seq` of a topic:
/// the one behind the newest that was seen.
pub open spec fn lent(
    c: PoolPubSubConfig,
    before: Accesses,
    after: Accesses,
    topic: int,
    block: u32,
    seq: u64,
) -> bool {
    exists|ops: Accesses, newest: u64|
        {
            &&& after == before + ops + #[trigger] loan_looks(c, topic, block, newest)
            &&& #[trigger] pool_of(c).takes(ops, Some(block))
            &&& seq == memory::wrapping_sum_u64(newest, 1)
        }
}

/// What makes a block the newest sample of a topic, in this order: the block gets
/// its reference, the ring entry is written, and the number of the newest sample.
pub open spec fn sample_stores(
    c: PoolPubSubConfig,
    topic: int,
    block: u32,
    len: u32,
    seq: u64,
) -> Accesses {
    seq![Access::Word32 { off: refcount_off(c, block as int), v: 1 }] + rings::entry_stores(
        ring_off(c, topic, slot_of(c, seq)),
        block,
        len,
        seq,
    ) + seq![Access::Word64 { off: topic_off(topic) + TE_WRITE_SEQ, v: seq }]
}

/// The word of a topic changes that sleeping subscribers watch.
pub open spec fn noticed(topic: int, was: u32) -> Access {
    Access::Add32 { off: topic_off(topic) + TE_NOTIFY, v: 1, was }
}

/// Reads the topics of a segment.
pub struct ShmPoolSubscriber<M: SharedMemory> {
    /// The segment.
    pub region: PoolRegion<M>,
}

impl<M: SharedMemory> ShmPoolSubscriber<M> {
    /// Connects to the segment of a live publisher. Whatever the segment holds,
    /// what is accepted has room for its parts.
    pub fn connect(mem: M, now: u64) -> (r: Result<ShmPoolSubscriber<M>, CrossbarError>)
        ensures
            r matches Ok(s) ==> s.region.fits() && s.region.mem == mem,
            mem.exclusive() ==> match connect_fault(mem.image(), now) {
                None => r matches Ok(s) && s.region.config == header_config(mem.image()),
                Some(f) => r matches Err(e) && e@ == f,
            },
    {
        let len: usize = mem.size();
        if len < HEADER_SIZE {
            return Err(invalid("region too small for header"));
        }
        let found: Vec<u8> = mem.read(0, 8);
        let expected: Vec<u8> = magic_bytes();
        if !memory::same_bytes(found.as_slice(), expected.as_slice()) {
            return Err(invalid("invalid magic (expected XBAR_ZC)"));
        }
        let version: u32 = mem.load_u32(GH_VERSION);
        if version != VERSION {
            let s: String = add_number(text::text("unsupported version "), version as u64);
            return Err(CrossbarError::ShmInvalidRegion(add_text(s, ", expected 1")));
        }
        let defaults: PoolPubSubConfig = PoolPubSubConfig::default();
        let config: PoolPubSubConfig = PoolPubSubConfig {
            max_topics: mem.load_u32(GH_MAX_TOPICS),
            block_count: mem.load_u32(GH_BLOCK_COUNT),
            block_size: mem.load_u32(GH_BLOCK_SIZE),
            ring_depth: mem.load_u32(GH_RING_DEPTH),
            heartbeat_interval_us: defaults.heartbeat_interval_us,
            stale_timeout_us: mem.load_u64(GH_STALE_TIMEOUT_US),
        };
        let size: usize = match checked_region_size(&config) {
            Some(n) => n,
            None => {
                return Err(invalid("layout size overflows"));
            },
        };
        if len < size {
            let s: String = add_number(text::text("region size "), len as u64);
            let s: String = add_number(add_text(s, " < expected "), size as u64);
            return Err(CrossbarError::ShmInvalidRegion(s));
        }
        let region: PoolRegion<M> = PoolRegion { mem, config };
        if let Err(e) = region.check_heartbeat(now) {
            return Err(e);
        }
        Ok(ShmPoolSubscriber { region })
    }

    /// Subscribes to a topic, from its next sample on. The subscription looks
    /// at the segment through `mem`, another handle on it.
    pub fn subscribe(&self, mem: M, uri: &str) -> (r: Result<ShmPoolSubscription<M>, CrossbarError>)
        requires
            self.region.fits(),
            region_size(self.region.config) <= mem.image().len(),
        ensures
            r matches Ok(s) ==> {
                &&& s.fits()
                &&& s.region.config == self.region.config
                &&& s.region.mem.image().len() == mem.image().len()
                &&& s.region.mem.exclusive() == mem.exclusive()
                &&& mem.exclusive() ==> s.region.mem.image() == mem.image()
                &&& joined_topic(
                    mem.accesses(),
                    s.region.mem.accesses(),
                    vstd::utf8::encode_utf8(uri@),
                    s.topic_idx,
                    s.last_seq,
                )
            },
            mem.exclusive() ==> match topic_named(
                self.region.config,
                mem.image(),
                vstd::utf8::encode_utf8(uri@),
                0,
            ) {
                Some(t) => r matches Ok(s) && s.topic_idx == t && s.last_seq == write_seq(
                    mem.image(),
                    t as int,
                ),
                None => r matches Err(e) && e@ == error::CrossbarErrorView::ShmInvalidRegion(
                    "topic '"@ + uri@ + "' not found"@,
                ),
            },
    {
        let size: usize = mem.size();
        let mut region: PoolRegion<M> = PoolRegion { mem, config: self.region.config };
        let hash: u64 = uri_hash(uri);
        let b: &[u8] = bytes_of(uri);
        let mut i: u32 = 0;
        let ghost mut parts: Seq<Accesses> = Seq::empty();
        let ghost first = mem.accesses();
        assert(first + reading::joined(parts) =~= first);
        while i < region.config.max_topics
            invariant
                i <= region.config.max_topics,
                region.fits(),
                region.config == self.region.config,
                region.mem.image().len() == mem.image().len(),
                region.mem.exclusive() == mem.exclusive(),
                b@ == vstd::utf8::encode_utf8(uri@),
                hash == layout::fnv(b@),
                first == mem.accesses(),
                parts.len() == i,
                region.mem.accesses() == first + reading::joined(parts),
                passes_entries(parts, b@),
                mem.exclusive() ==> {
                    &&& region.mem.image() == mem.image()
                    &&& topic_named(region.config, mem.image(), b@, 0) == topic_named(
                        region.config,
                        mem.image(),
                        b@,
                        i as int,
                    )
                },
            decreases region.config.max_topics - i,
        {
            let off: usize = region.topic_at(i);
            let ghost mid = region.mem.accesses();
            let (state, here) = region.try_entry(i, b, hash);
            let ghost ops = choose|ops: Accesses|
                region.mem.accesses() == mid + ops && #[trigger] tries_entry(
                    ops,
                    i as int,
                    b@,
                    state,
                    here,
                );
            if here {
                let last_seq: u64 = region.mem.look_u64(off + TE_WRITE_SEQ);
                proof {
                    assert(finds_entry(ops, i as int, b@));
                    assert(region.mem.accesses() =~= first + reading::joined(parts) + ops + seq![
                        reading::look(topic_off(i as int) + TE_WRITE_SEQ, last_seq),
                    ]);
                }
                return Ok(ShmPoolSubscription { region, topic_idx: i, last_seq });
            }
            proof {
                let longer = parts.push(ops);
                assert(passes_entry(ops, i as int, b@));
                assert forall|k: int| 0 <= k < longer.len() implies #[trigger] passes_entry(
                    longer[k],
                    k,
                    b@,
                ) by {
                    if k < parts.len() {
                        assert(passes_entry(parts[k], k, b@));
                    }
                }
                reading::lemma_joined_push(parts, ops);
                assert(region.mem.accesses() =~= first + reading::joined(longer));
                parts = longer;
            }
            i = i + 1;
        }
        let s: String = add_text(text::text("topic '"), uri);
        Err(CrossbarError::ShmInvalidRegion(add_text(s, "' not found")))
    }
}

/// A sample that a subscriber holds on to, until it is released.
#[derive(Debug)]
pub struct ShmPoolSampleGuard {
    /// The block.
    pub block_idx: u32,
    /// Length of the data.
    pub len: usize,
}

impl ShmPoolSampleGuard {
    /// The guard is of a block that exists.
    pub open spec fn fits(&self, c: PoolPubSubConfig) -> bool {
        self.block_idx < c.block_count && self.len <= capacity_of(c)
    }

    /// The data of the sample.
    pub open spec fn data(&self, c: PoolPubSubConfig, m: Seq<u8>) -> Seq<u8> {
        memory::bytes_at(m, data_off(c, self.block_idx as int), self.len as int)
    }

    /// Number of bytes.
    pub fn len(&self) -> (r: usize)
        ensures
            r == self.len,
    {
        self.len
    }

    /// Whether there are no bytes.
    pub fn is_empty(&self) -> (r: bool)
        ensures
            r == (self.len == 0),
    {
        self.len == 0
    }

    /// Copies the data.
    pub fn to_vec<M: SharedMemory>(&self, region: &PoolRegion<M>) -> (r: Vec<u8>)
        requires
            region.wf(),
            self.fits(region.config),
        ensures
            r@.len() == self.len,
            region.mem.exclusive() ==> r@ == self.data(region.config, region.mem.image()),
    {
        let at: usize = region.block_at(self.block_idx);
        region.mem.read(at + BLOCK_DATA_OFFSET, self.len)
    }

    /// Lets go of the sample.
    pub fn release<M: SharedMemory>(self, region: &mut PoolRegion<M>)
        requires
            old(region).wf(),
        ensures
            final(region).wf(),
            old(region).same_segment(final(region)),
            exists|ops: Accesses|
                {
                    &&& final(region).mem.accesses() == old(region).mem.accesses() + ops
                    &&& #[trigger] reading::releases(
                        pool_of(old(region).config),
                        ops,
                        refcount_off(old(region).config, self.block_idx as int),
                        self.block_idx,
                    )
                },
            old(region).mem.exclusive() ==> final(region).mem.image() == after_release(
                old(region).config,
                old(region).mem.image(),
                self.block_idx,
            ),
    {
        region.release_block(self.block_idx);
    }
}

/// What is received, as block and length.
pub open spec fn block_and_len(r: Option<ShmPoolSampleGuard>) -> Option<(u32, u32)> {
    match r {
        Some(g) => Some((g.block_idx, g.len as u32)),
        None => None,
    }
}

/// Where the ring entry of a sequence number lies.
pub open spec fn entry_place(c: PoolPubSubConfig, topic: int, seq: u64) -> EntryPlace {
    let e = ring_off(c, topic, slot_of(c, seq));
    EntryPlace {
        seq: e + RE_SEQ,
        block: e + RE_BLOCK_IDX,
        len: e + RE_DATA_LEN,
        pool: pool_of(c),
        refcount: BK_REFCOUNT as int,
    }
}

/// A subscription to one topic.
pub struct ShmPoolSubscription<M: SharedMemory> {
    /// The segment.
    pub region: PoolRegion<M>,
    /// The topic.
    pub topic_idx: u32,
    /// Sequence number of the sample received last.
    pub last_seq: u64,
}

impl<M: SharedMemory> ShmPoolSubscription<M> {
    /// The segment has room for its parts, and the topic exists.
    pub open spec fn fits(&self) -> bool {
        self.region.fits() && self.topic_idx < self.region.config.max_topics
    }

    /// The segment is sound, and the topic exists.
    pub open spec fn wf(&self) -> bool {
        self.region.wf() && self.topic_idx < self.region.config.max_topics
    }

    /// What receiving does: `r` is the sample that comes next, which then has
    /// one reference more; without one nothing changes.
    pub open spec fn received(&self, after: &Self, r: Option<ShmPoolSampleGuard>) -> bool {
        let c = self.region.config;
        let m = self.region.mem.image();
        let t = self.topic_idx as int;
        match received_seq(c, m, t, self.last_seq) {
            Some(seq) => {
                let e = ring_off(c, t, slot_of(c, seq));
                &&& r matches Some(g)
                &&& g.block_idx == rings::entry_block(m, e)
                &&& g.len == rings::entry_len(m, e)
                &&& after.last_seq == seq
                &&& after.region.mem.image() == with_reference(c, m, g.block_idx)
            },
            None => {
                &&& r is None
                &&& after.last_seq == self.last_seq
                &&& after.region.mem.image() == m
            },
        }
    }

    fn newest(&self) -> (r: u64)
        requires
            self.wf(),
        ensures
            self.region.mem.exclusive() ==> r == write_seq(
                self.region.mem.image(),
                self.topic_idx as int,
            ),
    {
        let off: usize = self.region.topic_at(self.topic_idx);
        self.region.mem.load_u64(off + TE_WRITE_SEQ)
    }

    /// Takes a reference to a block that is in use.
    fn acquire(&mut self, block: u32) -> (r: bool)
        requires
            old(self).wf(),
            block < old(self).region.config.block_count,
        ensures
            final(self).wf(),
            old(self).region.same_segment(&final(self).region),
            final(self).topic_idx == old(self).topic_idx,
            final(self).last_seq == old(self).last_seq,
            exists|tries: Accesses|
                {
                    &&& final(self).region.mem.accesses() == old(self).region.mem.accesses()
                        + tries
                    &&& #[trigger] reading::takes_reference(
                        tries,
                        refcount_off(old(self).region.config, block as int),
                        r,
                    )
                },
            old(self).region.mem.exclusive() ==> {
                let c = old(self).region.config;
                let m = old(self).region.mem.image();
                &&& r == (0 < refcount(c, m, block as int) < u32::MAX)
                &&& final(self).region.mem.image() == if r {
                    with_reference(c, m, block)
                } else {
                    m
                }
            },
    {
        let at: usize = self.region.block_at(block) + BK_REFCOUNT;
        let mut count: u32 = self.region.mem.load_u32(at);
        let ghost mut tries: Accesses = Seq::empty();
        assert(old(self).region.mem.accesses() + tries =~= old(self).region.mem.accesses());
        loop
            invariant
                self.wf(),
                old(self).region.same_segment(&self.region),
                self.topic_idx == old(self).topic_idx,
                self.last_seq == old(self).last_seq,
                block < self.region.config.block_count,
                at == refcount_off(self.region.config, block as int),
                at + 4 <= self.region.mem.image().len(),
                self.region.mem.accesses() == old(self).region.mem.accesses() + tries,
                reading::takes_reference(tries, at as int, false),
                self.region.mem.exclusive() ==> {
                    &&& self.region.mem.image() == old(self).region.mem.image()
                    &&& count == refcount(
                        self.region.config,
                        self.region.mem.image(),
                        block as int,
                    )
                },
            decreases self.region.mem.contention(),
        {
            if count == 0 || count == u32::MAX {
                return false;
            }
            let swapped: Result<u32, u32> = self.region.mem.compare_exchange_u32(
                at,
                count,
                count + 1,
            );
            proof {
                tries = tries.push(
                    Access::Exchange32 {
                        off: at as int,
                        current: count,
                        new: (count + 1) as u32,
                        found: swapped,
                    },
                );
                assert(self.region.mem.accesses() =~= old(self).region.mem.accesses() + tries);
                assert(reading::takes_reference(tries, at as int, swapped is Ok));
            }
            match swapped {
                Ok(_) => {
                    return true;
                },
                Err(current) => {
                    count = current;
                },
            }
        }
    }

    fn try_read_slot(&mut self, seq: u64) -> (r: Option<ShmPoolSampleGuard>)
        requires
            old(self).wf(),
        ensures
            final(self).wf(),
            old(self).region.same_segment(&final(self).region),
            final(self).topic_idx == old(self).topic_idx,
            final(self).last_seq == if r is Some {
                seq
            } else {
                old(self).last_seq
            },
            r matches Some(g) ==> g.fits(old(self).region.config),
            exists|ops: Accesses|
                {
                    &&& final(self).region.mem.accesses() == old(self).region.mem.accesses() + ops
                    &&& #[trigger] entry_place(
                        old(self).region.config,
                        old(self).topic_idx as int,
                        seq,
                    ).tried(seq, ops, block_and_len(r))
                },
            old(self).region.mem.exclusive() ==> {
                let c = old(self).region.config;
                let m = old(self).region.mem.image();
                let t = old(self).topic_idx as int;
                let e = ring_off(c, t, slot_of(c, seq));
                if readable(c, m, t, seq) {
                    &&& r matches Some(g)
                    &&& g.block_idx == rings::entry_block(m, e)
                    &&& g.len == rings::entry_len(m, e)
                    &&& final(self).region.mem.image() == with_reference(c, m, g.block_idx)
                } else {
                    &&& r is None
                    &&& final(self).region.mem.image() == m
                }
            },
    {
        let ghost c = self.region.config;
        let ghost first = self.region.mem.accesses();
        let ghost place = entry_place(c, self.topic_idx as int, seq);
        let e: usize = self.region.entry_at(self.topic_idx, seq);
        let before: u64 = self.region.mem.look_u64(e + RE_SEQ);
        if before != seq {
            proof {
                let ops = seq![reading::look(place.seq, before)];
                assert(self.region.mem.accesses() =~= first + ops);
                assert(place.passed(seq, ops));
                assert(place.tried(seq, ops, None));
            }
            return None;
        }
        let block_idx: u32 = self.region.mem.look_u32(e + RE_BLOCK_IDX);
        let data_len: u32 = self.region.mem.look_u32(e + RE_DATA_LEN);
        let ghost looks = place.looks(seq, block_idx, data_len);
        assert(self.region.mem.accesses() =~= first + looks);
        let capacity: usize = self.region.data_capacity();
        if block_idx >= self.region.config.block_count || data_len as usize > capacity {
            assert(place.passed(seq, looks));
            assert(place.tried(seq, looks, None));
            return None;
        }
        let ghost looked = self.region.mem.accesses();
        let counted: bool = self.acquire(block_idx);
        let ghost tries = choose|tries: Accesses|
            self.region.mem.accesses() == looked + tries && #[trigger] reading::takes_reference(
                tries,
                place.count(block_idx),
                counted,
            );
        if !counted {
            proof {
                let ops = looks + tries;
                assert(self.region.mem.accesses() =~= first + ops);
                assert(place.was_refused(seq, ops));
                assert(place.tried(seq, ops, None));
            }
            return None;
        }
        proof {
            let slot = slot_of(self.region.config, seq);
            lemma_ring(self.region.config, self.topic_idx as int, slot);
            lemma_block(self.region.config, block_idx as int);
        }
        let after: u64 = self.region.mem.look_u64(e + RE_SEQ);
        let look: EntryLook = EntryLook { before, block: block_idx, len: data_len, after };
        match reading::judge_entry(seq, look, self.region.config.block_count, capacity) {
            None => {
                let ghost late = self.region.mem.accesses();
                self.region.release_block(block_idx);
                proof {
                    let rest = choose|rest: Accesses|
                        self.region.mem.accesses() == late + rest && #[trigger] reading::releases(
                            place.pool,
                            rest,
                            place.count(block_idx),
                            block_idx,
                        );
                    let ops = looks + tries + seq![reading::look(place.seq, after)] + rest;
                    assert(self.region.mem.accesses() =~= first + ops);
                    assert(place.was_late(seq, ops));
                    assert(place.tried(seq, ops, None));
                }
                None
            },
            Some((block_idx, data_len)) => {
                self.last_seq = seq;
                proof {
                    let ops = looks + tries + seq![
                        Access::Look64 { off: place.seq, found: seq },
                    ];
                    assert(self.region.mem.accesses() =~= first + ops);
                    assert(place.took(seq, ops, block_idx, data_len));
                    assert(place.tried(seq, ops, Some((block_idx, data_len))));
                }
                Some(ShmPoolSampleGuard { block_idx, len: data_len as usize })
            },
        }
    }

    /// Receives the next sample. A subscriber that has fallen too far behind
    /// receives the newest one. `None` if there is none.
    pub fn try_recv(&mut self) -> (r: Option<ShmPoolSampleGuard>)
        requires
            old(self).wf(),
        ensures
            final(self).wf(),
            old(self).region.same_segment(&final(self).region),
            final(self).topic_idx == old(self).topic_idx,
            final(self).last_seq >= old(self).last_seq,
            r is None ==> final(self).last_seq == old(self).last_seq,
            r matches Some(g) ==> g.fits(old(self).region.config),
            r matches Some(g) ==> final(self).took_last(g),
            old(self).region.mem.exclusive() ==> old(self).received(final(self), r),
    {
        let newest: u64 = self.newest();
        if newest <= self.last_seq {
            return None;
        }
        let target: u64 = if newest - self.last_seq > self.region.config.ring_depth as u64 {
            newest
        } else {
            self.last_seq + 1
        };
        let ghost first = self.region.mem.accesses();
        if let Some(g) = self.try_read_slot(target) {
            assert(self.took_last(g)) by {
                self.lemma_took_last(first, target, g);
            }
            return Some(g);
        }
        let latest: u64 = self.newest();
        if latest > self.last_seq && latest != target {
            let ghost second = self.region.mem.accesses();
            let r: Option<ShmPoolSampleGuard> = self.try_read_slot(latest);
            proof {
                if r is Some {
                    self.lemma_took_last(second, latest, r->0);
                }
            }
            r
        } else {
            None
        }
    }

    /// The newest sample that the subscription has was taken from its ring entry,
    /// and nothing was done after that: the last look still found its number.
    pub open spec fn took_last(&self, g: ShmPoolSampleGuard) -> bool {
        self.took_in(self.region.mem.accesses(), g)
    }

    /// The same, but that the subscriber, which was about to sleep, was counted off
    /// after that.
    pub open spec fn took_awake(&self, g: ShmPoolSampleGuard) -> bool {
        let all = self.region.mem.accesses();
        &&& all.len() > 0
        &&& all.last() is Subtract32
        &&& all.last()->Subtract32_off == topic_off(self.topic_idx as int) + TE_WAITERS
        &&& all.last()->Subtract32_v == 1
        &&& self.took_in(all.drop_last(), g)
    }

    /// A record ends with the taking of the newest sample that the subscription
    /// has.
    pub open spec fn took_in(&self, all: Accesses, g: ShmPoolSampleGuard) -> bool {
        exists|ops: Accesses|
            {
                &&& reading::ends_with(all, ops)
                &&& #[trigger] entry_place(
                    self.region.config,
                    self.topic_idx as int,
                    self.last_seq,
                ).took(self.last_seq, ops, g.block_idx, g.len as u32)
            }
    }

    /// A sample that was read was taken last.
    proof fn lemma_took_last(&self, first: Accesses, seq: u64, g: ShmPoolSampleGuard)
        requires
            self.last_seq == seq,
            exists|ops: Accesses|
                {
                    &&& self.region.mem.accesses() == first + ops
                    &&& #[trigger] entry_place(
                        self.region.config,
                        self.topic_idx as int,
                        seq,
                    ).tried(seq, ops, block_and_len(Some(g)))
                },
        ensures
            self.took_last(g),
    {
        let place = entry_place(self.region.config, self.topic_idx as int, seq);
        let ops = choose|ops: Accesses|
            self.region.mem.accesses() == first + ops && #[trigger] place.tried(
                seq,
                ops,
                block_and_len(Some(g)),
            );
        reading::lemma_ends_with(first, ops);
        assert(place.took(seq, ops, g.block_idx, g.len as u32));
    }

    /// Being counted off comes after the sample was taken.
    proof fn lemma_counted_off(&self, after: &Self, g: ShmPoolSampleGuard, was: u32)
        requires
            self.took_last(g),
            after.region.config == self.region.config,
            after.topic_idx == self.topic_idx,
            after.last_seq == self.last_seq,
            after.region.mem.accesses() == self.region.mem.accesses().push(
                (Access::Subtract32 {
                    off: topic_off(self.topic_idx as int) + TE_WAITERS,
                    v: 1,
                    was,
                }),
            ),
        ensures
            after.took_awake(g),
    {
        assert(after.region.mem.accesses().drop_last() =~= self.region.mem.accesses());
        assert(after.took_in(self.region.mem.accesses(), g));
    }

    /// One attempt of a blocking receive: gives the next sample, or the value
    /// of the word to watch until there is one. In the latter case the
    /// subscriber counts as sleeping, until `recv_done`.
    #[verifier::rlimit(40)]
    pub fn recv(&mut self) -> (r: Result<ShmPoolSampleGuard, u32>)
        requires
            old(self).wf(),
        ensures
            final(self).wf(),
            old(self).region.same_segment(&final(self).region),
            final(self).topic_idx == old(self).topic_idx,
            final(self).last_seq >= old(self).last_seq,
            r is Err ==> final(self).last_seq == old(self).last_seq,
            r matches Ok(g) ==> g.fits(old(self).region.config),
            r matches Ok(g) ==> final(self).took_last(g) || final(self).took_awake(g),
            old(self).region.mem.exclusive() ==> {
                let c = old(self).region.config;
                let m = old(self).region.mem.image();
                let t = old(self).topic_idx as int;
                match received_seq(c, m, t, old(self).last_seq) {
                    Some(_) => r matches Ok(g) && old(self).received(final(self), Some(g)),
                    None => {
                        &&& r == Err::<ShmPoolSampleGuard, u32>(
                            memory::u32_at(m, topic_off(t) + TE_NOTIFY),
                        )
                        &&& final(self).last_seq == old(self).last_seq
                        &&& final(self).region.mem.image() == memory::put32(
                            m,
                            topic_off(t) + TE_WAITERS,
                            memory::wrapping_sum_u32(waiters(m, t), 1),
                        )
                    },
                }
            },
    {
        if let Some(g) = self.try_recv() {
            return Ok(g);
        }
        let off: usize = self.region.topic_at(self.topic_idx);
        let current: u32 = self.region.mem.load_u32(off + TE_NOTIFY);
        if let Some(g) = self.try_recv() {
            return Ok(g);
        }
        let ghost before = *self;
        let count: u32 = self.region.mem.fetch_add_u32(off + TE_WAITERS, 1);
        proof {
            lemma_waiters_do_not_matter(
                self.region.config,
                before.region.mem.image(),
                self.topic_idx as int,
                memory::wrapping_sum_u32(
                    waiters(before.region.mem.image(), self.topic_idx as int),
                    1,
                ),
                self.last_seq,
            );
        }
        if let Some(g) = self.try_recv() {
            let ghost taken = *self;
            let count: u32 = self.region.mem.fetch_sub_u32(off + TE_WAITERS, 1);
            proof {
                taken.lemma_counted_off(self, g, count);
            }
            return Ok(g);
        }
        Err(current)
    }

    /// Ends a blocking receive in which the subscriber slept.
    pub fn recv_done(&mut self)
        requires
            old(self).wf(),
        ensures
            final(self).wf(),
            old(self).region.same_segment(&final(self).region),
            final(self).topic_idx == old(self).topic_idx,
            final(self).last_seq == old(self).last_seq,
            exists|was: u32|
                final(self).region.mem.accesses() == old(self).region.mem.accesses().push(
                    #[trigger] memory::one_less(topic_off(old(self).topic_idx as int) + TE_WAITERS, was),
                ),
            old(self).region.mem.exclusive() ==> {
                let m = old(self).region.mem.image();
                let t = old(self).topic_idx as int;
                final(self).region.mem.image() == memory::put32(
                    m,
                    topic_off(t) + TE_WAITERS,
                    memory::wrapping_difference_u32(waiters(m, t), 1),
                )
            },
    {
        let off: usize = self.region.topic_at(self.topic_idx);
        let count: u32 = self.region.mem.fetch_sub_u32(off + TE_WAITERS, 1);
        assert(self.region.mem.accesses() == old(self).region.mem.accesses().push(
            memory::one_less(topic_off(self.topic_idx as int) + TE_WAITERS, count),
        ));
    }
}

/// The number of sleeping subscribers has no influence on what is received.
proof fn lemma_waiters_do_not_matter(
    c: PoolPubSubConfig,
    m: Seq<u8>,
    topic: int,
    n: u32,
    last: u64,
)
    requires
        sound(c),
        region_size(c) <= m.len(),
        0 <= topic < c.max_topics,
    ensures
        received_seq(c, memory::put32(m, topic_off(topic) + TE_WAITERS, n), topic, last)
            == received_seq(c, m, topic, last),
{
    let k = memory::put32(m, topic_off(topic) + TE_WAITERS, n);
    lemma_topic(c, topic);
    assert forall|seq: u64| readable(c, k, topic, seq) == #[trigger] readable(
        c,
        m,
        topic,
        seq,
    ) by {
        lemma_ring(c, topic, slot_of(c, seq));
        let e = ring_off(c, topic, slot_of(c, seq));
        let block = rings::entry_block(m, e);
        if block < c.block_count {
            lemma_block(c, block as int);
        }
    }
}

} // verus!
