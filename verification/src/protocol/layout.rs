//! Layout of the publish/subscribe segment: a global header, a table of
//! topics, one ring per topic, and the block pool.

use crate::error::Error;
use crate::protocol::config::PubSubConfig;
use crate::protocol::pool::PoolLayout;
use vstd::prelude::*;

verus! {

/// Version of the layout.
pub const VERSION: u32 = 3;

/// Size of the global header.
pub const HEADER_SIZE: usize = 128;

/// Size of a topic entry.
pub const TOPIC_ENTRY_SIZE: usize = 128;

/// Size of a ring entry.
pub const RING_ENTRY_SIZE: usize = 16;

/// Data starts here within each block, after the free-list link and the
/// reference count.
pub const BLOCK_DATA_OFFSET: usize = 8;

/// Marks a ring entry that is being written.
pub const SEQ_WRITING: u64 = 0xFFFF_FFFF_FFFF_FFFF;

/// State of a topic entry that nobody uses.
pub const TE_STATE_FREE: u32 = 0;

/// State of a topic entry that is being filled.
pub const TE_STATE_INIT: u32 = 2;

/// State of a registered topic.
pub const TE_STATE_ACTIVE: u32 = 1;

/// The most topics that a header may announce.
pub const MAX_TOPICS_LIMIT: u32 = 4096;

/// Stands in the reader count of a topic while the publisher writes its pinned
/// block.
pub const PINNED_WRITER_ACTIVE: u32 = 0xFFFF_FFFF;

/// Header: magic bytes.
pub const GH_MAGIC: usize = 0;

/// Header: version.
pub const GH_VERSION: usize = 8;

/// Header: maximum number of topics.
pub const GH_MAX_TOPICS: usize = 0x0C;

/// Header: number of blocks.
pub const GH_BLOCK_COUNT: usize = 0x10;

/// Header: size of a block.
pub const GH_BLOCK_SIZE: usize = 0x14;

/// Header: ring depth.
pub const GH_RING_DEPTH: usize = 0x18;

/// Header: head of the free list.
pub const GH_POOL_HEAD: usize = 0x20;

/// Header: last heartbeat, in microseconds since the epoch.
pub const GH_HEARTBEAT: usize = 0x28;

/// Header: process id of the creator.
pub const GH_PID: usize = 0x30;

/// Header: stale timeout in microseconds.
pub const GH_STALE_TIMEOUT_US: usize = 0x38;

/// Topic entry: state.
pub const TE_ACTIVE: usize = 0;

/// Topic entry: sequence number of the newest sample.
pub const TE_WRITE_SEQ: usize = 8;

/// Topic entry: number of sleeping subscribers.
pub const TE_WAITERS: usize = 0x10;

/// Topic entry: length of the URI.
pub const TE_URI_LEN: usize = 0x14;

/// Topic entry: hash of the URI.
pub const TE_URI_HASH: usize = 0x18;

/// Topic entry: the URI.
pub const TE_URI: usize = 0x20;

/// Longest URI of a topic, in bytes.
pub const TE_URI_MAX: usize = 64;

/// Topic entry: size of the topic's type, 0 if it has none.
pub const TE_TYPE_SIZE: usize = 0x60;

/// Topic entry: index of the pinned block.
pub const TE_PINNED_BLOCK: usize = 0x64;

/// Topic entry: number of readers of the pinned block.
pub const TE_PINNED_READERS: usize = 0x68;

/// Topic entry: sequence number and data length of the pinned block.
pub const TE_PINNED_SEQ: usize = 0x70;

/// Topic entry: number of subscribers.
pub const TE_SUBSCRIBER_COUNT: usize = 0x78;

/// Ring entry: sequence number.
pub const RE_SEQ: usize = 0;

/// Ring entry: block index.
pub const RE_BLOCK_IDX: usize = 8;

/// Ring entry: data length.
pub const RE_DATA_LEN: usize = 12;

/// Block: reference count.
pub const BK_REFCOUNT: usize = 4;

/// The eight bytes `XBAR_ZC\0`.
pub open spec fn magic() -> Seq<u8> {
    seq![0x58, 0x42, 0x41, 0x52, 0x5F, 0x5A, 0x43, 0x00]
}

/// The magic bytes, computed.
pub fn magic_bytes() -> (r: Vec<u8>)
    ensures
        r@ == magic(),
{
    let r: Vec<u8> = vec![0x58, 0x42, 0x41, 0x52, 0x5F, 0x5A, 0x43, 0x00];
    assert(r@ =~= magic());
    r
}

/// `n` is 1, doubled some number of times.
pub open spec fn is_power_of_two(n: int) -> bool
    decreases n,
{
    n == 1 || (n > 1 && n % 2 == 0 && is_power_of_two(n / 2))
}

/// Whether `n` is a power of two.
pub fn power_of_two(n: u32) -> (r: bool)
    ensures
        r == is_power_of_two(n as int),
{
    let mut k: u32 = n;
    while k > 1 && k % 2 == 0
        invariant
            is_power_of_two(k as int) == is_power_of_two(n as int),
        decreases k,
    {
        k = k / 2;
    }
    k == 1
}

/// Offset of a topic entry.
pub open spec fn topic_off(idx: int) -> int {
    HEADER_SIZE + idx * TOPIC_ENTRY_SIZE
}

/// Offset of the first ring.
pub open spec fn ring_base_spec(c: PubSubConfig) -> int {
    HEADER_SIZE + c.max_topics * TOPIC_ENTRY_SIZE
}

/// Offset of a ring entry.
pub open spec fn ring_off(c: PubSubConfig, topic: int, slot: int) -> int {
    ring_base_spec(c) + (topic * c.ring_depth + slot) * RING_ENTRY_SIZE
}

/// Offset of the block pool.
pub open spec fn pool_off(c: PubSubConfig) -> int {
    ring_base_spec(c) + c.max_topics * c.ring_depth * RING_ENTRY_SIZE
}

/// Size of the whole segment.
pub open spec fn region_size(c: PubSubConfig) -> int {
    pool_off(c) + c.block_count * c.block_size
}

/// The pool of a segment of this configuration.
pub open spec fn pool_of(c: PubSubConfig) -> PoolLayout {
    PoolLayout {
        head: GH_POOL_HEAD,
        base: pool_off(c) as usize,
        block_size: c.block_size,
        block_count: c.block_count,
        checks_links: true,
    }
}

/// A configuration that a segment can have: something of everything, a ring
/// depth that is a power of two, room for data in a block, and a total size
/// that fits the address space.
pub open spec fn valid_config(c: PubSubConfig) -> bool {
    &&& c.block_size >= BLOCK_DATA_OFFSET + 1
    &&& is_power_of_two(c.ring_depth as int)
    &&& c.block_count >= 1
    &&& c.max_topics >= 1
    &&& region_size(c) <= usize::MAX
}

/// The ring slot of a sequence number.
pub open spec fn slot_of(c: PubSubConfig, seq: u64) -> int {
    seq as int % c.ring_depth as int
}

/// Everything in a segment lies inside of it.
pub proof fn lemma_layout(c: PubSubConfig)
    requires
        valid_config(c),
    ensures
        1 <= c.ring_depth,
        HEADER_SIZE <= ring_base_spec(c) <= pool_off(c) <= region_size(c),
        pool_of(c).base == pool_off(c),
        pool_of(c).fits(region_size(c) as nat),
{
    assert(c.max_topics * c.ring_depth >= 0) by (nonlinear_arith);
    assert(c.block_count * c.block_size >= 0) by (nonlinear_arith);
}

/// A topic entry lies between the header and the rings.
pub proof fn lemma_topic(c: PubSubConfig, topic: int)
    requires
        0 <= topic < c.max_topics,
    ensures
        HEADER_SIZE <= topic_off(topic),
        topic_off(topic) + TOPIC_ENTRY_SIZE <= ring_base_spec(c),
{
}

/// A ring entry lies between the topic table and the pool.
pub proof fn lemma_ring(c: PubSubConfig, topic: int, slot: int)
    requires
        0 <= topic < c.max_topics,
        0 <= slot < c.ring_depth,
    ensures
        ring_base_spec(c) <= ring_off(c, topic, slot),
        ring_off(c, topic, slot) + RING_ENTRY_SIZE <= pool_off(c),
        0 <= topic * c.ring_depth,
        topic * c.ring_depth + slot < c.max_topics * c.ring_depth,
{
    crate::protocol::pool::lemma_mul_bounds(topic, c.max_topics as int, c.ring_depth as int);
}

/// Two different ring entries do not overlap.
pub proof fn lemma_rings_apart(c: PubSubConfig, t1: int, s1: int, t2: int, s2: int)
    requires
        0 <= s1 < c.ring_depth,
        0 <= s2 < c.ring_depth,
        t1 != t2 || s1 != s2,
    ensures
        ring_off(c, t1, s1) + RING_ENTRY_SIZE <= ring_off(c, t2, s2) || ring_off(c, t2, s2)
            + RING_ENTRY_SIZE <= ring_off(c, t1, s1),
{
    let d = c.ring_depth as int;
    if t1 < t2 {
        assert(t1 * d + d <= t2 * d) by (nonlinear_arith)
            requires
                t1 < t2,
                0 <= d,
        ;
    } else if t2 < t1 {
        assert(t2 * d + d <= t1 * d) by (nonlinear_arith)
            requires
                t2 < t1,
                0 <= d,
        ;
    }
}

/// Offset of a topic entry, computed.
pub fn topic_entry_off(idx: u32) -> (r: usize)
    requires
        topic_off(idx as int) <= usize::MAX,
    ensures
        r == topic_off(idx as int),
{
    HEADER_SIZE + idx as usize * TOPIC_ENTRY_SIZE
}

/// Offset of a ring entry, computed.
pub fn ring_entry_off(config: &PubSubConfig, topic_idx: u32, slot: u32) -> (r: usize)
    requires
        topic_idx < config.max_topics,
        slot < config.ring_depth,
        pool_off(*config) <= usize::MAX,
    ensures
        r == ring_off(*config, topic_idx as int, slot as int),
{
    proof {
        lemma_ring(*config, topic_idx as int, slot as int);
        let t = topic_idx as int;
        let d = config.ring_depth as int;
        assert(t * d * RING_ENTRY_SIZE + slot * RING_ENTRY_SIZE == (t * d + slot)
            * RING_ENTRY_SIZE);
    }
    let entry: usize = topic_idx as usize * config.ring_depth as usize + slot as usize;
    HEADER_SIZE + config.max_topics as usize * TOPIC_ENTRY_SIZE + entry * RING_ENTRY_SIZE
}

/// Offset of the block pool, if it fits the address space.
pub fn block_pool_offset_checked(config: &PubSubConfig) -> (r: Option<usize>)
    ensures
        match r {
            Some(n) => n == pool_off(*config),
            None => pool_off(*config) > usize::MAX,
        },
{
    let t: usize = config.max_topics as usize;
    let d: usize = config.ring_depth as usize;
    proof {
        assert(0 <= t * d) by (nonlinear_arith);
    }
    let table: usize = match t.checked_mul(TOPIC_ENTRY_SIZE) {
        Some(n) => n,
        None => {
            return None;
        },
    };
    let rings_at: usize = match table.checked_add(HEADER_SIZE) {
        Some(n) => n,
        None => {
            return None;
        },
    };
    let entries: usize = match t.checked_mul(d) {
        Some(n) => n,
        None => {
            return None;
        },
    };
    let rings: usize = match entries.checked_mul(RING_ENTRY_SIZE) {
        Some(n) => n,
        None => {
            return None;
        },
    };
    rings_at.checked_add(rings)
}

/// Size of the whole segment, if it fits the address space.
pub fn region_size_checked(config: &PubSubConfig) -> (r: Option<usize>)
    ensures
        match r {
            Some(n) => n == region_size(*config),
            None => region_size(*config) > usize::MAX,
        },
{
    let n: usize = config.block_count as usize;
    let s: usize = config.block_size as usize;
    proof {
        assert(0 <= n * s) by (nonlinear_arith);
        assert(0 <= config.max_topics * config.ring_depth) by (nonlinear_arith);
    }
    let at: usize = match block_pool_offset_checked(config) {
        Some(n) => n,
        None => {
            return None;
        },
    };
    let blocks: usize = match n.checked_mul(s) {
        Some(n) => n,
        None => {
            return None;
        },
    };
    at.checked_add(blocks)
}

/// One step of the FNV-1a hash.
pub open spec fn fnv_step(h: u64, b: u8) -> u64 {
    (h ^ (b as u64)).wrapping_mul(0x0100_0000_01b3)
}

/// The FNV-1a hash of some bytes.
pub open spec fn fnv(b: Seq<u8>) -> u64
    decreases b.len(),
{
    if b.len() == 0 {
        0xcbf2_9ce4_8422_2325
    } else {
        fnv_step(fnv(b.drop_last()), b.last())
    }
}

/// The hash by which a topic is looked up.
pub fn uri_hash(uri: &str) -> (r: u64)
    ensures
        r == fnv(vstd::utf8::encode_utf8(uri@)),
{
    let b: &[u8] = crate::text::bytes_of(uri);
    let mut h: u64 = 0xcbf2_9ce4_8422_2325;
    let mut i: usize = 0;
    assert(b@.subrange(0, 0).len() == 0);
    while i < b.len()
        invariant
            i <= b@.len(),
            h == fnv(b@.subrange(0, i as int)),
        decreases b@.len() - i,
    {
        assert(b@.subrange(0, i + 1).drop_last() =~= b@.subrange(0, i as int));
        h = (h ^ (b[i] as u64)).wrapping_mul(0x0100_0000_01b3);
        i = i + 1;
    }
    assert(b@.subrange(0, i as int) =~= b@);
    h
}

/// A segment name is usable as a file name: it is not empty and holds no path
/// separator, no null byte, and no `..`.
pub open spec fn valid_segment_name(name: Seq<char>) -> bool {
    &&& name.len() > 0
    &&& forall|i: int| 0 <= i < name.len() ==> !forbidden(#[trigger] name[i])
    &&& forall|i: int| 0 <= i && i + 1 < name.len() ==> !(#[trigger] name[i] == '.' && name[i + 1] == '.')
}

/// A character that may not occur in a segment name.
pub open spec fn forbidden(c: char) -> bool {
    c == '/' || c == '\\' || c == '\0'
}

/// Whether a name is usable for a segment.
pub fn is_valid_segment_name(name: &str) -> (r: bool)
    ensures
        r == valid_segment_name(name@),
{
    let c: Vec<char> = crate::text::chars_of(name);
    let n: usize = c.len();
    if n == 0 {
        return false;
    }
    let mut i: usize = 0;
    while i < n
        invariant
            c@ == name@,
            n == c@.len(),
            0 < n,
            i <= n,
            forall|j: int| 0 <= j < i ==> !forbidden(#[trigger] name@[j]),
            forall|j: int|
                0 <= j < i && j + 1 < n ==> !(#[trigger] name@[j] == '.' && name@[j + 1] == '.'),
        decreases n - i,
    {
        if c[i] == '/' || c[i] == '\\' || c[i] == '\0' {
            assert(forbidden(name@[i as int]));
            return false;
        }
        if i + 1 < n && c[i] == '.' && c[i + 1] == '.' {
            assert(name@[i as int] == '.');
            return false;
        }
        i = i + 1;
    }
    true
}

/// Refuses a name that is not usable for a segment.
pub fn validate_name(name: &str) -> (r: Result<(), Error>)
    ensures
        valid_segment_name(name@) <==> r is Ok,
        r matches Err(e) ==> (e matches Error::SegmentNameInvalid(n) && n@ == name@),
{
    if is_valid_segment_name(name) {
        Ok(())
    } else {
        Err(Error::SegmentNameInvalid(name.to_owned()))
    }
}

} // verus!
