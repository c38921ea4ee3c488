//! Topics with a ring of samples each, over shared memory.
//!
//! Samples lie in the ring itself. Publishers write them, and subscribers copy
//! them out; a subscriber that falls too far behind skips to the newest one.

use crate::error::{self, CrossbarError};
use crate::memory::{self, Access, Accesses, SharedMemory};
use crate::protocol::layout::{self, uri_hash};
use crate::protocol::reading;
use crate::text::{self, add_number, add_text, bytes_of};
use crate::transport::shm::cells::{self, cell_off, table_end};
use vstd::prelude::*;

verus! {

broadcast use crate::memory::group_memory;

/// The version of the layout.
pub const VERSION: u32 = 1;

/// Size of the header.
pub const GLOBAL_HEADER_SIZE: usize = 128;

/// Size of a topic entry.
pub const TOPIC_ENTRY_SIZE: usize = 128;

/// Size of what stands before the data of a sample.
pub const SAMPLE_HEADER_SIZE: usize = 16;

/// Offset of the version.
pub const GH_VERSION: usize = 8;

/// Offset of the number of topics.
pub const GH_MAX_TOPICS: usize = 12;

/// Offset of the capacity of a sample.
pub const GH_SAMPLE_CAPACITY: usize = 16;

/// Offset of the ring depth.
pub const GH_RING_DEPTH: usize = 20;

/// Offset of the heartbeat of the publisher.
pub const GH_HEARTBEAT: usize = 24;

/// Offset of the process id of the publisher.
pub const GH_PID: usize = 32;

/// Offset of the stale timeout, in microseconds.
pub const GH_STALE_TIMEOUT_US: usize = 40;

/// Offset of the mark of a registered topic.
pub const TE_ACTIVE: usize = 0;

/// Offset of the word that changes when a sample is published.
pub const TE_NOTIFY: usize = 4;

/// Offset of the sequence number of the newest sample.
pub const TE_WRITE_SEQ: usize = 8;

/// Offset of the hash of the URI.
pub const TE_URI_HASH: usize = 16;

/// Offset of the length of the URI.
pub const TE_URI_LEN: usize = 24;

/// Offset of the URI.
pub const TE_URI_STR: usize = 25;

/// Longest URI in bytes.
pub const MAX_URI_LEN: usize = 103;

/// Offset of the sequence number in a sample.
pub const SS_SEQ: usize = 0;

/// Offset of the length of the data in a sample.
pub const SS_DATA_LEN: usize = 8;

/// The stale timeout where a header has none, in microseconds.
pub const DEFAULT_STALE_US: u64 = 5000000;

/// The bytes at the start of a segment: `XBAR_PS` and a zero.
pub open spec fn magic() -> Seq<u8> {
    seq![88u8, 66, 65, 82, 95, 80, 83, 0]
}

fn magic_bytes() -> (r: Vec<u8>)
    ensures
        r@ == magic(),
{
    let r: Vec<u8> = vec![88u8, 66, 65, 82, 95, 80, 83, 0];
    assert(r@ =~= magic());
    r
}

/// The parameters of a segment.
#[derive(Debug, Clone, Copy, PartialEq, Eq, Structural)]
pub struct PubSubConfig {
    /// Most topics.
    pub max_topics: u32,
    /// Most bytes of a sample.
    pub sample_capacity: u32,
    /// Samples in the ring of a topic.
    pub ring_depth: u32,
    /// Microseconds between two heartbeats of the publisher.
    pub heartbeat_interval_us: u64,
    /// Microseconds after which a publisher without heartbeat counts as dead.
    pub stale_timeout_us: u64,
}

/// The parameters that are used where none are given.
pub open spec fn default_config() -> PubSubConfig {
    PubSubConfig {
        max_topics: 16,
        sample_capacity: 65536,
        ring_depth: 8,
        heartbeat_interval_us: 100000,
        stale_timeout_us: DEFAULT_STALE_US,
    }
}

impl Default for PubSubConfig {
    fn default() -> (r: PubSubConfig)
        ensures
            r == default_config(),
    {
        PubSubConfig {
            max_topics: 16,
            sample_capacity: 65536,
            ring_depth: 8,
            heartbeat_interval_us: 100000,
            stale_timeout_us: DEFAULT_STALE_US,
        }
    }
}

/// The path of the file of a segment.
pub fn shm_path(name: &str, linux: bool) -> (r: String)
    ensures
        r@ == (if linux {
            "/dev/shm/crossbar-ps-"@ + name@
        } else {
            "/tmp/crossbar-ps-"@ + name@
        }),
{
    if linux {
        add_text(text::text("/dev/shm/crossbar-ps-"), name)
    } else {
        add_text(text::text("/tmp/crossbar-ps-"), name)
    }
}

/// Offset of a topic entry.
pub open spec fn topic_off(topic: int) -> int {
    GLOBAL_HEADER_SIZE + topic * TOPIC_ENTRY_SIZE
}

/// Offset of the rings.
pub open spec fn ring_base(c: PubSubConfig) -> int {
    GLOBAL_HEADER_SIZE + c.max_topics * TOPIC_ENTRY_SIZE
}

/// Bytes from one sample to the next: header and data, rounded up to a multiple
/// of eight.
pub open spec fn stride(c: PubSubConfig) -> int {
    (SAMPLE_HEADER_SIZE + c.sample_capacity + 7) / 8 * 8
}

/// Offset of a sample.
pub open spec fn sample_off(c: PubSubConfig, topic: int, slot: int) -> int {
    ring_base(c) + cells::cell(c.ring_depth as int, stride(c), topic, slot)
}

/// Size of a segment.
pub open spec fn total_size(c: PubSubConfig) -> int {
    ring_base(c) + cells::table_size(c.max_topics as int, c.ring_depth as int, stride(c))
}

/// The slot of a sequence number.
pub open spec fn slot_of(c: PubSubConfig, seq: u64) -> int {
    (seq % (c.ring_depth as u64)) as int
}

/// The rings are not empty, and the segment fits in the address space.
pub open spec fn sound(c: PubSubConfig) -> bool {
    c.ring_depth > 0 && total_size(c) <= usize::MAX
}

/// Header and data of a sample fit in the stride.
pub proof fn lemma_stride(c: PubSubConfig)
    ensures
        SAMPLE_HEADER_SIZE + c.sample_capacity <= stride(c) <= SAMPLE_HEADER_SIZE
            + c.sample_capacity + 7,
{
}

/// The parts of a segment lie in it.
pub proof fn lemma_parts(c: PubSubConfig)
    ensures
        GLOBAL_HEADER_SIZE <= ring_base(c) <= total_size(c),
{
    lemma_stride(c);
    cells::lemma_table(c.max_topics as int, c.ring_depth as int, stride(c));
}

/// A topic entry lies between the header and the rings.
pub proof fn lemma_topic(c: PubSubConfig, topic: int)
    requires
        0 <= topic < c.max_topics,
    ensures
        GLOBAL_HEADER_SIZE <= topic_off(topic),
        topic_off(topic) + TOPIC_ENTRY_SIZE <= ring_base(c) <= total_size(c),
{
    lemma_parts(c);
}

/// A sample lies behind the topic entries.
pub proof fn lemma_sample(c: PubSubConfig, topic: int, slot: int)
    requires
        0 <= topic < c.max_topics,
        0 <= slot < c.ring_depth,
    ensures
        ring_base(c) <= sample_off(c, topic, slot),
        sample_off(c, topic, slot) + SAMPLE_HEADER_SIZE + c.sample_capacity <= sample_off(
            c,
            topic,
            slot,
        ) + stride(c),
        sample_off(c, topic, slot) + stride(c) <= total_size(c),
{
    lemma_stride(c);
    cells::lemma_cell(
        c.max_topics as int,
        c.ring_depth as int,
        stride(c),
        topic,
        slot,
    );
}

/// Offset of a topic entry, computed.
pub fn topic_entry_off(config: &PubSubConfig, idx: u32) -> (r: usize)
    requires
        sound(*config),
        idx < config.max_topics,
    ensures
        r == topic_off(idx as int),
        r + TOPIC_ENTRY_SIZE <= total_size(*config),
{
    proof {
        lemma_topic(*config, idx as int);
    }
    GLOBAL_HEADER_SIZE + idx as usize * TOPIC_ENTRY_SIZE
}

fn sample_stride(config: &PubSubConfig) -> (r: u64)
    ensures
        r == stride(*config),
{
    (SAMPLE_HEADER_SIZE as u64 + config.sample_capacity as u64 + 7) / 8 * 8
}

fn sample_offset(config: &PubSubConfig, topic: u32, slot: u32) -> (r: usize)
    requires
        sound(*config),
        topic < config.max_topics,
        slot < config.ring_depth,
    ensures
        r == sample_off(*config, topic as int, slot as int),
        r + SAMPLE_HEADER_SIZE + config.sample_capacity <= total_size(*config),
{
    proof {
        lemma_sample(*config, topic as int, slot as int);
        lemma_parts(*config);
    }
    let base: usize = GLOBAL_HEADER_SIZE + config.max_topics as usize * TOPIC_ENTRY_SIZE;
    cell_off(
        base,
        config.max_topics,
        config.ring_depth,
        sample_stride(config) as usize,
        topic,
        slot,
    )
}

/// Size of a segment, or `None` if it does not fit in the address space.
pub fn checked_total_size(config: &PubSubConfig) -> (r: Option<usize>)
    ensures
        match r {
            Some(n) => n == total_size(*config) && stride(*config) <= usize::MAX,
            None => total_size(*config) > usize::MAX || stride(*config) > usize::MAX,
        },
{
    proof {
        lemma_parts(*config);
        lemma_stride(*config);
        cells::lemma_many_cells(
            config.max_topics as int,
            config.ring_depth as int,
            stride(*config),
        );
        cells::lemma_table(config.max_topics as int, config.ring_depth as int, stride(*config));
    }
    let table: usize = match (config.max_topics as usize).checked_mul(TOPIC_ENTRY_SIZE) {
        Some(n) => n,
        None => {
            return None;
        },
    };
    let base: usize = match table.checked_add(GLOBAL_HEADER_SIZE) {
        Some(n) => n,
        None => {
            return None;
        },
    };
    let step: u64 = sample_stride(config);
    if step > usize::MAX as u64 {
        return None;
    }
    table_end(base, config.max_topics, config.ring_depth, step as usize)
}

/// What is wrong with the parameters of a segment to be created.
pub open spec fn config_fault(c: PubSubConfig) -> Option<error::CrossbarErrorView> {
    if c.ring_depth == 0 {
        Some(error::CrossbarErrorView::ShmInvalidRegion("ring_depth must be > 0"@))
    } else if c.sample_capacity == 0 {
        Some(error::CrossbarErrorView::ShmInvalidRegion("sample_capacity must be > 0"@))
    } else if c.max_topics == 0 {
        Some(error::CrossbarErrorView::ShmInvalidRegion("max_topics must be > 0"@))
    } else if c.heartbeat_interval_us == 0 {
        Some(error::CrossbarErrorView::ShmInvalidRegion("heartbeat_interval must be > 0"@))
    } else if c.heartbeat_interval_us >= c.stale_timeout_us {
        Some(
            error::CrossbarErrorView::ShmInvalidRegion(
                "heartbeat_interval must be less than stale_timeout"@,
            ),
        )
    } else if total_size(c) > usize::MAX {
        Some(
            error::CrossbarErrorView::ShmInvalidRegion(
                "layout size overflows (max_topics * ring_depth * sample_capacity too large)"@,
            ),
        )
    } else {
        None
    }
}

fn invalid(m: &str) -> (r: CrossbarError)
    ensures
        r@ == error::CrossbarErrorView::ShmInvalidRegion(m@),
{
    CrossbarError::ShmInvalidRegion(text::text(m))
}

/// The segment with its header written.
pub open spec fn with_header(c: PubSubConfig, m: Seq<u8>, pid: u32, now: u64) -> Seq<u8> {
    let m = memory::put(m, 0, magic());
    let m = memory::put32(m, GH_VERSION as int, VERSION);
    let m = memory::put32(m, GH_MAX_TOPICS as int, c.max_topics);
    let m = memory::put32(m, GH_SAMPLE_CAPACITY as int, c.sample_capacity);
    let m = memory::put32(m, GH_RING_DEPTH as int, c.ring_depth);
    let m = memory::put64(m, GH_PID as int, pid as u64);
    let m = memory::put64(m, GH_STALE_TIMEOUT_US as int, c.stale_timeout_us);
    memory::put64(m, GH_HEARTBEAT as int, now)
}

/// A segment belongs to a live publisher: it has a header, and its heartbeat is
/// not older than the timeout in the header, or `fallback` if there is none.
pub open spec fn is_active(m: Seq<u8>, fallback: u64, now: u64) -> bool {
    let stored = memory::u64_at(m, GH_STALE_TIMEOUT_US as int);
    let timeout = if stored > 0 {
        stored
    } else {
        fallback
    };
    &&& m.len() >= GLOBAL_HEADER_SIZE
    &&& memory::bytes_at(m, 0, 8) == magic()
    &&& memory::u32_at(m, GH_VERSION as int) == VERSION
    &&& now - memory::u64_at(m, GH_HEARTBEAT as int) <= timeout
}

/// Whether a segment belongs to a live publisher, so that none may be created
/// in its place.
pub fn region_is_active<M: SharedMemory>(mem: &M, fallback: u64, now: u64) -> (r: bool)
    ensures
        mem.exclusive() ==> r == is_active(mem.image(), fallback, now),
{
    if mem.size() < GLOBAL_HEADER_SIZE {
        return false;
    }
    let found: Vec<u8> = mem.read(0, 8);
    let expected: Vec<u8> = magic_bytes();
    if !memory::same_bytes(found.as_slice(), expected.as_slice()) || mem.load_u32(GH_VERSION)
        != VERSION {
        return false;
    }
    let beat: u64 = mem.load_u64(GH_HEARTBEAT);
    let stored: u64 = mem.load_u64(GH_STALE_TIMEOUT_US);
    let timeout: u64 = if stored > 0 {
        stored
    } else {
        fallback
    };
    now <= beat || now - beat <= timeout
}

/// The error for a name that a live publisher owns.
pub fn active_error(name: &str) -> (r: CrossbarError)
    ensures
        r@ == error::CrossbarErrorView::ShmInvalidRegion(
            "pub/sub region '"@ + name@ + "' is already active (heartbeat is fresh)"@,
        ),
{
    let s: String = add_text(text::text("pub/sub region '"), name);
    CrossbarError::ShmInvalidRegion(add_text(s, "' is already active (heartbeat is fresh)"))
}

/// Whether a topic is registered.
pub open spec fn is_registered(m: Seq<u8>, topic: int) -> bool {
    memory::u32_at(m, topic_off(topic) + TE_ACTIVE) != 0
}

/// Whether a topic entry holds a URI.
pub open spec fn holds_uri(m: Seq<u8>, topic: int, uri: Seq<u8>) -> bool {
    &&& uri.len() <= MAX_URI_LEN
    &&& m[topic_off(topic) + TE_URI_LEN] == uri.len()
    &&& memory::bytes_at(m, topic_off(topic) + TE_URI_STR, uri.len() as int) == uri
}

/// Sequence number of the newest sample of a topic.
pub open spec fn write_seq(m: Seq<u8>, topic: int) -> u64 {
    memory::u64_at(m, topic_off(topic) + TE_WRITE_SEQ)
}

/// The topic that a publisher knows under a URI, among those from `i` on.
pub open spec fn known_topic(
    m: Seq<u8>,
    topics: Seq<(u64, u32)>,
    uri: Seq<u8>,
    i: int,
) -> Option<u32>
    decreases topics.len() - i,
{
    if i < 0 || i >= topics.len() {
        None
    } else if topics[i].0 == layout::fnv(uri) && holds_uri(m, topics[i].1 as int, uri) {
        Some(topics[i].1)
    } else {
        known_topic(m, topics, uri, i + 1)
    }
}

/// The first topic that is not registered, from `topic` on.
pub open spec fn free_topic(c: PubSubConfig, m: Seq<u8>, topic: int) -> Option<u32>
    decreases c.max_topics - topic,
{
    if topic < 0 || topic >= c.max_topics {
        None
    } else if !is_registered(m, topic) {
        Some(topic as u32)
    } else {
        free_topic(c, m, topic + 1)
    }
}

/// The segment after a topic was registered.
pub open spec fn with_topic(m: Seq<u8>, topic: int, uri: Seq<u8>) -> Seq<u8> {
    let t = topic_off(topic);
    let m = memory::put64(m, t + TE_URI_HASH, layout::fnv(uri));
    let m = memory::put(m, t + TE_URI_LEN, seq![uri.len() as u8]);
    let m = memory::put(m, t + TE_URI_STR, uri);
    let m = memory::put64(m, t + TE_WRITE_SEQ, 0);
    memory::put32(m, t + TE_ACTIVE, 1)
}

/// What comparing the URI of a topic entry does, and what it tells: its length is looked
/// at, and if that agrees the URI itself.
pub open spec fn tries_uri(ops: Accesses, topic: int, uri: Seq<u8>, found: bool) -> bool {
    if uri.len() > MAX_URI_LEN {
        ops.len() == 0 && !found
    } else {
        exists|len: Seq<u8>, rest: Accesses|
            {
                &&& ops == seq![
                    Access::Copied { off: topic_off(topic) + TE_URI_LEN, found: len },
                ] + rest
                &&& #[trigger] tries_text(rest, topic, uri, len, found)
            }
    }
}

/// What is looked at after the length of the URI in a topic entry was seen.
pub open spec fn tries_text(
    ops: Accesses,
    topic: int,
    uri: Seq<u8>,
    len: Seq<u8>,
    found: bool,
) -> bool {
    if len[0] != uri.len() {
        ops.len() == 0 && !found
    } else {
        &&& ops.len() == 1
        &&& ops[0] matches Access::Copied { off, found: text } && {
            &&& off == topic_off(topic) + TE_URI_STR
            &&& found == (text == uri)
        }
    }
}

/// What looking whether a topic entry is the one of a URI does, and what it tells: the
/// state is looked at, then the hash, then the length, which must be a possible one, and
/// then the URI is compared.
pub open spec fn tries_entry(ops: Accesses, topic: int, uri: Seq<u8>, found: bool) -> bool {
    exists|state: u32, rest: Accesses|
        {
            &&& ops == seq![state_look(topic, state)] + rest
            &&& #[trigger] tries_state(rest, topic, uri, state, found)
        }
}

/// What is looked at after the state of a topic entry was seen.
pub open spec fn tries_state(
    ops: Accesses,
    topic: int,
    uri: Seq<u8>,
    state: u32,
    found: bool,
) -> bool {
    if state == 0 {
        ops.len() == 0 && !found
    } else {
        exists|hash: u64, rest: Accesses|
            {
                &&& ops == seq![reading::look(topic_off(topic) + TE_URI_HASH, hash)] + rest
                &&& #[trigger] tries_hash(rest, topic, uri, hash, found)
            }
    }
}

/// What is looked at after the hash in a topic entry was seen.
pub open spec fn tries_hash(
    ops: Accesses,
    topic: int,
    uri: Seq<u8>,
    hash: u64,
    found: bool,
) -> bool {
    if hash != layout::fnv(uri) {
        ops.len() == 0 && !found
    } else {
        exists|len: Seq<u8>, rest: Accesses|
            {
                &&& ops == seq![len_look(topic, len)] + rest
                &&& #[trigger] tries_len(rest, topic, uri, len, found)
            }
    }
}

/// What is looked at after a length that a URI can have was seen in a topic entry.
pub open spec fn tries_len(
    ops: Accesses,
    topic: int,
    uri: Seq<u8>,
    len: Seq<u8>,
    found: bool,
) -> bool {
    len[0] <= MAX_URI_LEN && tries_uri(ops, topic, uri, found)
}

/// A look at the length of the URI in a topic entry.
pub open spec fn len_look(topic: int, len: Seq<u8>) -> Access {
    Access::Copied { off: topic_off(topic) + TE_URI_LEN, found: len }
}

/// A look at a topic entry that is not the one of a URI.
pub open spec fn passes_entry(ops: Accesses, topic: int, uri: Seq<u8>) -> bool {
    tries_entry(ops, topic, uri, false)
}

/// A look at the topic entry of a URI.
pub open spec fn finds_entry(ops: Accesses, topic: int, uri: Seq<u8>) -> bool {
    tries_entry(ops, topic, uri, true)
}

/// Each of these is a look at the entry of its number, which is not the one of a URI.
pub open spec fn passes_entries(parts: Seq<Accesses>, uri: Seq<u8>) -> bool {
    forall|k: int| 0 <= k < parts.len() ==> #[trigger] passes_entry(parts[k], k, uri)
}

/// Between two records the topic of a URI was searched, and the number of its newest
/// sample was seen.
pub open spec fn joined_topic(
    before: Accesses,
    after: Accesses,
    uri: Seq<u8>,
    topic: u32,
    last_seq: u64,
) -> bool {
    exists|parts: Seq<Accesses>, last: Accesses|
        {
            &&& after == before + reading::joined(parts) + last + seq![
                reading::look(topic_off(topic as int) + TE_WRITE_SEQ, last_seq),
            ]
            &&& parts.len() == topic
            &&& #[trigger] passes_entries(parts, uri)
            &&& #[trigger] finds_entry(last, topic as int, uri)
        }
}

/// What looking at a topic of which the publisher knows does: a URI with another hash is
/// passed without a look.
pub open spec fn passes_known(ops: Accesses, known: (u64, u32), uri: Seq<u8>) -> bool {
    if known.0 != layout::fnv(uri) {
        ops.len() == 0
    } else {
        tries_uri(ops, known.1 as int, uri, false)
    }
}

/// The first of these are looks at topics of which the publisher knows, and which are not
/// the one of a URI.
pub open spec fn passes_all_known(
    parts: Seq<Accesses>,
    n: int,
    topics: Seq<(u64, u32)>,
    uri: Seq<u8>,
) -> bool {
    forall|k: int| 0 <= k < n ==> #[trigger] passes_known(parts[k], topics[k], uri)
}

/// What a search among the topics does of which the publisher knows, and what it tells.
pub open spec fn knows(
    parts: Seq<Accesses>,
    topics: Seq<(u64, u32)>,
    uri: Seq<u8>,
    r: Option<u32>,
) -> bool {
    match r {
        Some(t) => {
            let i = parts.len() - 1;
            &&& 0 < parts.len() <= topics.len()
            &&& passes_all_known(parts, i, topics, uri)
            &&& topics[i] == (layout::fnv(uri), t)
            &&& tries_uri(parts[i], t as int, uri, true)
        },
        None => parts.len() == topics.len() && passes_all_known(
            parts,
            topics.len() as int,
            topics,
            uri,
        ),
    }
}

/// A look at the state of a topic entry.
pub open spec fn state_look(topic: int, state: u32) -> Access {
    Access::Look32 { off: topic_off(topic) + TE_ACTIVE, found: state }
}

/// A look at a topic entry that was not free.
pub open spec fn finds_taken(a: Access, topic: int) -> bool {
    exists|state: u32| state != 0 && a == #[trigger] state_look(topic, state)
}

/// What taking an entry for a URI does, after the URI was not found among the known
/// ones: the entries are looked at in turn, and the first free one is filled.
pub open spec fn takes_unless(
    ops: Accesses,
    known: Option<u32>,
    r: Option<u32>,
    count: int,
    uri: Seq<u8>,
) -> bool {
    if known is Some {
        ops.len() == 0 && r == known
    } else {
        match r {
            Some(i) => {
                &&& ops.len() == i + 6
                &&& forall|k: int| 0 <= k < i ==> #[trigger] finds_taken(ops[k], k)
                &&& ops[i as int] == state_look(i as int, 0)
                &&& ops.subrange(i + 1, i + 6) == topic_stores(i as int, uri)
            },
            None => {
                &&& ops.len() == count
                &&& forall|k: int| 0 <= k < count ==> #[trigger] finds_taken(ops[k], k)
            },
        }
    }
}

/// Between two records a publisher that knows of these topics registered a URI.
pub open spec fn registered(
    before: Accesses,
    after: Accesses,
    topics: Seq<(u64, u32)>,
    count: int,
    uri: Seq<u8>,
    r: Option<u32>,
) -> bool {
    exists|parts: Seq<Accesses>, known: Option<u32>, ops: Accesses|
        {
            &&& after == before + reading::joined(parts) + ops
            &&& #[trigger] knows(parts, topics, uri, known)
            &&& #[trigger] takes_unless(ops, known, r, count, uri)
        }
}

/// The topic of a handle, if there is one.
pub open spec fn topic_of(r: Result<TopicHandle, CrossbarError>) -> Option<u32> {
    match r {
        Ok(h) => Some(h.topic_idx),
        Err(_) => None,
    }
}

/// Between two records a publisher set its heartbeat and searched for a URI among the
/// topics of which it knows.
pub open spec fn beat_and_searched(
    before: Accesses,
    after: Accesses,
    now: u64,
    topics: Seq<(u64, u32)>,
    uri: Seq<u8>,
    r: Option<u32>,
) -> bool {
    exists|parts: Seq<Accesses>|
        {
            &&& after == before.push(
                Access::Word64 { off: GH_HEARTBEAT as int, v: now },
            ) + reading::joined(parts)
            &&& #[trigger] knows(parts, topics, uri, r)
        }
}

/// Between two records the number of the newest sample of a topic was seen; `seq` is the
/// one behind it.
pub open spec fn numbered(before: Accesses, after: Accesses, topic: int, seq: u64) -> bool {
    exists|newest: u64|
        {
            &&& after == before.push(
                #[trigger] reading::look(topic_off(topic) + TE_WRITE_SEQ, newest),
            )
            &&& seq == memory::wrapping_sum_u64(newest, 1)
        }
}

/// Between two records a publisher set its heartbeat, found the topic of a URI among those
/// of which it knows, and numbered a sample.
pub open spec fn lent(
    before: Accesses,
    after: Accesses,
    now: u64,
    topics: Seq<(u64, u32)>,
    uri: Seq<u8>,
    topic: u32,
    seq: u64,
) -> bool {
    exists|mid: Accesses|
        {
            &&& #[trigger] beat_and_searched(before, mid, now, topics, uri, Some(topic))
            &&& numbered(mid, after, topic as int, seq)
        }
}

/// What registering a topic in a free entry stores, in this order: the entry counts
/// only when all else is in it.
pub open spec fn topic_stores(topic: int, uri: Seq<u8>) -> Accesses {
    let t = topic_off(topic);
    seq![
        Access::Word64 { off: t + TE_URI_HASH, v: layout::fnv(uri) },
        Access::Bytes { off: t + TE_URI_LEN, data: seq![uri.len() as u8] },
        Access::Bytes { off: t + TE_URI_STR, data: uri },
        Access::Word64 { off: t + TE_WRITE_SEQ, v: 0 },
        Access::Word32 { off: t + TE_ACTIVE, v: 1 },
    ]
}

/// A registered topic, for use with the publisher that registered it.
#[derive(Debug, Clone, Copy, PartialEq, Eq, Structural)]
pub struct TopicHandle {
    /// The topic.
    pub topic_idx: u32,
    /// The publisher that registered it.
    pub publisher_id: u64,
}

/// Publishes samples to the topics of a segment.
pub struct ShmPublisher<M: SharedMemory> {
    /// The segment.
    pub mem: M,
    /// Its parameters.
    pub config: PubSubConfig,
    /// The topics that this publisher has registered, with the hashes of their
    /// URIs.
    pub topics: Vec<(u64, u32)>,
    /// When the heartbeat was last set, by the monotonic clock.
    pub last_heartbeat: u64,
    /// What tells this publisher's handles from those of others.
    pub id: u64,
}

fn entry_holds<M: SharedMemory>(
    mem: &mut M,
    config: &PubSubConfig,
    topic: u32,
    uri: &[u8],
) -> (r: bool)
    requires
        sound(*config),
        topic < config.max_topics,
        total_size(*config) <= old(mem).image().len(),
    ensures
        final(mem).image().len() == old(mem).image().len(),
        final(mem).exclusive() == old(mem).exclusive(),
        final(mem).contention() <= old(mem).contention(),
        exists|ops: Accesses|
            {
                &&& final(mem).accesses() == old(mem).accesses() + ops
                &&& #[trigger] tries_uri(ops, topic as int, uri@, r)
            },
        old(mem).exclusive() ==> {
            &&& final(mem).image() == old(mem).image()
            &&& r == holds_uri(old(mem).image(), topic as int, uri@)
        },
{
    let ghost first = mem.accesses();
    let ghost none = Seq::<Access>::empty();
    let ghost t = topic as int;
    if uri.len() > MAX_URI_LEN {
        assert(first + none =~= first);
        assert(tries_uri(none, t, uri@, false));
        return false;
    }
    let off: usize = topic_entry_off(config, topic);
    let stored_len: Vec<u8> = mem.copy(off + TE_URI_LEN, 1);
    let ghost look = seq![
        Access::Copied { off: topic_off(t) + TE_URI_LEN, found: stored_len@ },
    ];
    if stored_len[0] as usize != uri.len() {
        proof {
            assert(tries_text(none, t, uri@, stored_len@, false));
            assert(tries_uri(look + none, t, uri@, false));
            assert(mem.accesses() =~= first + (look + none));
        }
        return false;
    }
    let stored: Vec<u8> = mem.copy(off + TE_URI_STR, uri.len());
    let found: bool = memory::same_bytes(stored.as_slice(), uri);
    proof {
        let rest = seq![Access::Copied { off: topic_off(t) + TE_URI_STR, found: stored@ }];
        assert(tries_text(rest, t, uri@, stored_len@, found));
        assert(tries_uri(look + rest, t, uri@, found));
        assert(mem.accesses() =~= first + (look + rest));
    }
    found
}

/// Looks whether a topic entry is the one of a URI. A length in the entry that no URI can
/// have is an error.
fn try_entry<M: SharedMemory>(
    mem: &mut M,
    config: &PubSubConfig,
    topic: u32,
    uri: &[u8],
    hash: u64,
) -> (r: Result<bool, u8>)
    requires
        sound(*config),
        topic < config.max_topics,
        total_size(*config) <= old(mem).image().len(),
        hash == layout::fnv(uri@),
    ensures
        final(mem).image().len() == old(mem).image().len(),
        final(mem).exclusive() == old(mem).exclusive(),
        final(mem).contention() <= old(mem).contention(),
        r is Ok ==> exists|ops: Accesses|
            {
                &&& final(mem).accesses() == old(mem).accesses() + ops
                &&& #[trigger] tries_entry(ops, topic as int, uri@, r->Ok_0)
            },
        r matches Err(n) ==> n > MAX_URI_LEN,
        old(mem).exclusive() ==> {
            let m = old(mem).image();
            let t = topic as int;
            let n = m[topic_off(t) + TE_URI_LEN];
            &&& final(mem).image() == m
            &&& r == if is_registered(m, t) && memory::u64_at(m, topic_off(t) + TE_URI_HASH)
                == layout::fnv(uri@) {
                if n > MAX_URI_LEN {
                    Err(n)
                } else {
                    Ok(holds_uri(m, t, uri@))
                }
            } else {
                Ok(false)
            }
        },
{
    let ghost first = mem.accesses();
    let ghost none = Seq::<Access>::empty();
    let ghost t = topic as int;
    let off: usize = topic_entry_off(config, topic);
    let state: u32 = mem.look_u32(off + TE_ACTIVE);
    let ghost mut rest = none;
    let mut found: bool = false;
    if state != 0 {
        let seen: u64 = mem.look_u64(off + TE_URI_HASH);
        let ghost mut hash_rest = none;
        if seen == hash {
            let len: Vec<u8> = mem.copy(off + TE_URI_LEN, 1);
            if len[0] as usize > MAX_URI_LEN {
                return Err(len[0]);
            }
            let ghost mid = mem.accesses();
            found = entry_holds(mem, config, topic, uri);
            proof {
                let ops = choose|ops: Accesses|
                    mem.accesses() == mid + ops && #[trigger] tries_uri(ops, t, uri@, found);
                hash_rest = seq![len_look(t, len@)] + ops;
                assert(tries_len(ops, t, uri@, len@, found));
            }
        }
        proof {
            assert(tries_hash(hash_rest, t, uri@, seen, found));
            rest = seq![reading::look(topic_off(t) + TE_URI_HASH, seen)] + hash_rest;
        }
    }
    let r: Result<bool, u8> = Ok(found);
    proof {
        let ops = seq![state_look(t, state)] + rest;
        assert(tries_state(rest, t, uri@, state, found));
        assert(mem.accesses() =~= first + ops);
        assert(tries_entry(ops, t, uri@, r->Ok_0));
    }
    r
}

/// The error for a topic that is not registered.
pub open spec fn unregistered(uri: Seq<char>) -> error::CrossbarErrorView {
    error::CrossbarErrorView::ShmInvalidRegion("topic not registered: "@ + uri)
}

impl<M: SharedMemory> ShmPublisher<M> {
    /// The segment has room for its parts, and the topics exist.
    pub open spec fn wf(&self) -> bool {
        &&& sound(self.config)
        &&& total_size(self.config) <= self.mem.image().len() <= usize::MAX
        &&& forall|i: int|
            0 <= i < self.topics@.len() ==> (#[trigger] self.topics@[i]).1 < self.config.max_topics
    }

    /// `other` is the same publisher at a later moment.
    pub open spec fn same_publisher(&self, other: &Self) -> bool {
        &&& other.config == self.config
        &&& other.id == self.id
        &&& other.mem.image().len() == self.mem.image().len()
        &&& other.mem.exclusive() == self.mem.exclusive()
        &&& other.mem.contention() <= self.mem.contention()
    }

    /// The size of the segment that the parameters ask for.
    pub fn plan(config: &PubSubConfig) -> (r: Result<usize, CrossbarError>)
        ensures
            match config_fault(*config) {
                None => r matches Ok(n) && n == total_size(*config),
                Some(f) => r matches Err(e) && e@ == f,
            },
    {
        if config.ring_depth == 0 {
            return Err(invalid("ring_depth must be > 0"));
        }
        if config.sample_capacity == 0 {
            return Err(invalid("sample_capacity must be > 0"));
        }
        if config.max_topics == 0 {
            return Err(invalid("max_topics must be > 0"));
        }
        if config.heartbeat_interval_us == 0 {
            return Err(invalid("heartbeat_interval must be > 0"));
        }
        if config.heartbeat_interval_us >= config.stale_timeout_us {
            return Err(invalid("heartbeat_interval must be less than stale_timeout"));
        }
        proof {
            lemma_sample(*config, 0, 0);
        }
        match checked_total_size(config) {
            Some(n) => Ok(n),
            None => Err(
                invalid(
                    "layout size overflows (max_topics * ring_depth * sample_capacity too large)",
                ),
            ),
        }
    }

    /// Makes a new segment of some memory, with the process id and the
    /// heartbeat of its publisher.
    pub fn create(config: &PubSubConfig, mem: M, id: u64, pid: u32, now: u64, clock: u64) -> (r:
        ShmPublisher<M>)
        requires
            config_fault(*config) is None,
            mem.image().len() >= total_size(*config),
        ensures
            r.wf(),
            r.config == *config,
            r.id == id,
            r.topics@.len() == 0,
            r.last_heartbeat == clock,
            r.mem.image().len() == mem.image().len(),
            r.mem.exclusive() == mem.exclusive(),
            mem.exclusive() ==> r.mem.image() == with_header(*config, mem.image(), pid, now),
    {
        proof {
            lemma_parts(*config);
        }
        let size: usize = mem.size();
        let mut r: ShmPublisher<M> = ShmPublisher {
            mem,
            config: *config,
            topics: Vec::new(),
            last_heartbeat: clock,
            id,
        };
        let start: Vec<u8> = magic_bytes();
        r.mem.write(0, start.as_slice());
        r.mem.store_u32(GH_VERSION, VERSION);
        r.mem.store_u32(GH_MAX_TOPICS, config.max_topics);
        r.mem.store_u32(GH_SAMPLE_CAPACITY, config.sample_capacity);
        r.mem.store_u32(GH_RING_DEPTH, config.ring_depth);
        r.mem.store_u64(GH_PID, pid as u64);
        r.mem.store_u64(GH_STALE_TIMEOUT_US, config.stale_timeout_us);
        r.update_heartbeat(now);
        r
    }

    /// Sets the heartbeat.
    pub fn update_heartbeat(&mut self, now: u64)
        requires
            old(self).wf(),
        ensures
            final(self).wf(),
            old(self).same_publisher(final(self)),
            final(self).topics == old(self).topics,
            final(self).last_heartbeat == old(self).last_heartbeat,
            final(self).mem.accesses() == old(self).mem.accesses().push(
                (Access::Word64 { off: GH_HEARTBEAT as int, v: now }),
            ),
            old(self).mem.exclusive() ==> final(self).mem.image() == memory::put64(
                old(self).mem.image(),
                GH_HEARTBEAT as int,
                now,
            ),
    {
        proof {
            lemma_parts(self.config);
        }
        self.mem.store_u64(GH_HEARTBEAT, now);
    }

    fn find_known(&mut self, uri: &[u8], hash: u64) -> (r: Option<u32>)
        requires
            old(self).wf(),
            hash == layout::fnv(uri@),
        ensures
            final(self).wf(),
            old(self).same_publisher(final(self)),
            final(self).topics == old(self).topics,
            final(self).last_heartbeat == old(self).last_heartbeat,
            r matches Some(t) ==> t < old(self).config.max_topics,
            exists|parts: Seq<Accesses>|
                {
                    &&& final(self).mem.accesses() == old(self).mem.accesses()
                        + reading::joined(parts)
                    &&& #[trigger] knows(parts, old(self).topics@, uri@, r)
                },
            old(self).mem.exclusive() ==> {
                &&& final(self).mem.image() == old(self).mem.image()
                &&& r == known_topic(old(self).mem.image(), old(self).topics@, uri@, 0)
            },
    {
        let mut i: usize = 0;
        let ghost mut parts: Seq<Accesses> = Seq::empty();
        let ghost first = self.mem.accesses();
        let ghost topics = self.topics@;
        let ghost m = self.mem.image();
        assert(first + reading::joined(parts) =~= first);
        while i < self.topics.len()
            invariant
                i <= self.topics@.len(),
                self.wf(),
                old(self).same_publisher(self),
                self.topics == old(self).topics,
                self.last_heartbeat == old(self).last_heartbeat,
                topics == self.topics@,
                m == old(self).mem.image(),
                first == old(self).mem.accesses(),
                hash == layout::fnv(uri@),
                parts.len() == i,
                self.mem.accesses() == first + reading::joined(parts),
                passes_all_known(parts, i as int, topics, uri@),
                self.mem.exclusive() ==> {
                    &&& self.mem.image() == m
                    &&& known_topic(m, topics, uri@, 0) == known_topic(m, topics, uri@, i as int)
                },
            decreases self.topics@.len() - i,
        {
            let (h, topic) = self.topics[i];
            assert(self.topics@[i as int].1 == topic);
            let ghost mid = self.mem.accesses();
            let ghost mut ops: Accesses = Seq::empty();
            assert(mid + ops =~= mid);
            let mut here: bool = false;
            if h == hash {
                here = entry_holds(&mut self.mem, &self.config, topic, uri);
                proof {
                    ops = choose|ops: Accesses|
                        self.mem.accesses() == mid + ops && #[trigger] tries_uri(
                            ops,
                            topic as int,
                            uri@,
                            here,
                        );
                }
            }
            proof {
                let longer = parts.push(ops);
                assert forall|k: int| 0 <= k < i implies #[trigger] passes_known(
                    longer[k],
                    topics[k],
                    uri@,
                ) by {
                    assert(passes_known(parts[k], topics[k], uri@));
                }
                reading::lemma_joined_push(parts, ops);
                assert(self.mem.accesses() =~= first + reading::joined(longer));
                assert(!here ==> passes_known(longer[i as int], topics[i as int], uri@));
                assert(here ==> knows(longer, topics, uri@, Some(topic)));
                parts = longer;
            }
            if here {
                return Some(topic);
            }
            i = i + 1;
        }
        assert(knows(parts, topics, uri@, None));
        None
    }

    /// Registers a topic: gives back the one that has the URI already, or takes
    /// the first free one. Fails where the URI is too long or no topic is free.
    pub fn register(&mut self, uri: &str) -> (r: Result<TopicHandle, CrossbarError>)
        requires
            old(self).wf(),
        ensures
            final(self).wf(),
            old(self).same_publisher(final(self)),
            final(self).last_heartbeat == old(self).last_heartbeat,
            r matches Ok(h) ==> h.publisher_id == old(self).id && h.topic_idx
                < old(self).config.max_topics,
            vstd::utf8::encode_utf8(uri@).len() <= MAX_URI_LEN ==> registered(
                old(self).mem.accesses(),
                final(self).mem.accesses(),
                old(self).topics@,
                old(self).config.max_topics as int,
                vstd::utf8::encode_utf8(uri@),
                topic_of(r),
            ),
            ({
                let b = vstd::utf8::encode_utf8(uri@);
                if b.len() > MAX_URI_LEN {
                    &&& r matches Err(e) && e@ == error::CrossbarErrorView::ShmInvalidRegion(
                        "URI too long ("@ + text::decimal(b.len()) + " > 103)"@,
                    )
                    &&& *final(self) == *old(self)
                } else {
                    old(self).mem.exclusive() ==> {
                        let m = old(self).mem.image();
                        let known = known_topic(m, old(self).topics@, b, 0);
                        let free = free_topic(old(self).config, m, 0);
                        if known is Some {
                            &&& r matches Ok(h) && h.topic_idx == known->0
                            &&& final(self).mem.image() == m
                            &&& final(self).topics == old(self).topics
                        } else if free is Some {
                            &&& r matches Ok(h) && h.topic_idx == free->0
                            &&& final(self).mem.image() == with_topic(m, free->0 as int, b)
                            &&& final(self).topics@ == old(self).topics@.push(
                                (layout::fnv(b), free->0),
                            )
                        } else {
                            &&& r matches Err(e) && e@ == error::CrossbarErrorView::ShmSlotsFull
                            &&& final(self).mem.image() == m
                            &&& final(self).topics == old(self).topics
                        }
                    }
                }
            }),
    {
        let b: &[u8] = bytes_of(uri);
        let len: usize = b.len();
        if len > MAX_URI_LEN {
            let s: String = add_number(text::text("URI too long ("), len as u64);
            return Err(CrossbarError::ShmInvalidRegion(add_text(s, " > 103)")));
        }
        let hash: u64 = uri_hash(uri);
        let ghost first = self.mem.accesses();
        let ghost topics = self.topics@;
        let ghost n = self.config.max_topics as int;
        let known: Option<u32> = self.find_known(b, hash);
        let ghost parts = choose|parts: Seq<Accesses>|
            self.mem.accesses() == first + reading::joined(parts) && #[trigger] knows(
                parts,
                topics,
                b@,
                known,
            );
        let ghost mut looks: Accesses = Seq::empty();
        if let Some(topic_idx) = known {
            proof {
                assert(takes_unless(looks, known, Some(topic_idx), n, b@));
                assert(self.mem.accesses() =~= first + reading::joined(parts) + looks);
            }
            return Ok(TopicHandle { topic_idx, publisher_id: self.id });
        }
        assert(self.mem.accesses() =~= first + reading::joined(parts) + looks);
        let mut idx: u32 = 0;
        while idx < self.config.max_topics
            invariant
                idx <= self.config.max_topics,
                self.wf(),
                old(self).same_publisher(self),
                self.topics == old(self).topics,
                self.last_heartbeat == old(self).last_heartbeat,
                known is None,
                n == self.config.max_topics,
                topics == self.topics@,
                first == old(self).mem.accesses(),
                knows(parts, topics, b@, known),
                self.mem.accesses() == first + reading::joined(parts) + looks,
                looks.len() == idx,
                forall|k: int| 0 <= k < idx ==> #[trigger] finds_taken(looks[k], k),
                len == b@.len(),
                len <= MAX_URI_LEN,
                b@ == vstd::utf8::encode_utf8(uri@),
                hash == layout::fnv(b@),
                self.mem.exclusive() ==> {
                    &&& self.mem.image() == old(self).mem.image()
                    &&& known_topic(self.mem.image(), self.topics@, b@, 0) is None
                    &&& free_topic(self.config, self.mem.image(), 0) == free_topic(
                        self.config,
                        self.mem.image(),
                        idx as int,
                    )
                },
            decreases self.config.max_topics - idx,
        {
            let off: usize = topic_entry_off(&self.config, idx);
            let state: u32 = self.mem.look_u32(off + TE_ACTIVE);
            let ghost seen = looks.push(state_look(idx as int, state));
            assert(self.mem.accesses() =~= first + reading::joined(parts) + seen);
            assert forall|k: int| 0 <= k < idx implies #[trigger] finds_taken(seen[k], k) by {
                assert(finds_taken(looks[k], k));
            }
            if state == 0 {
                self.mem.store_u64(off + TE_URI_HASH, hash);
                let len_byte: Vec<u8> = vec![len as u8];
                assert(len_byte@ =~= seq![len as u8]);
                self.mem.write(off + TE_URI_LEN, len_byte.as_slice());
                self.mem.write(off + TE_URI_STR, b);
                self.mem.store_u64(off + TE_WRITE_SEQ, 0);
                self.mem.store_u32(off + TE_ACTIVE, 1);
                proof {
                    let stores = topic_stores(idx as int, b@);
                    let ops = seen + stores;
                    assert(ops.subrange(idx + 1, idx + 6) =~= stores);
                    assert(self.mem.accesses() =~= first + reading::joined(parts) + ops);
                    assert forall|k: int| 0 <= k < idx implies #[trigger] finds_taken(
                        ops[k],
                        k,
                    ) by {
                        assert(finds_taken(seen[k], k));
                    }
                    assert(takes_unless(ops, known, Some(idx), n, b@));
                }
                self.topics.push((hash, idx));
                return Ok(TopicHandle { topic_idx: idx, publisher_id: self.id });
            }
            proof {
                assert(finds_taken(seen[idx as int], idx as int));
                looks = seen;
            }
            idx = idx + 1;
        }
        assert(takes_unless(looks, known, None, n, b@));
        Err(CrossbarError::ShmSlotsFull)
    }

    /// Lends the next sample of a topic, found by its URI, after setting the
    /// heartbeat.
    pub fn loan(&mut self, uri: &str, now: u64) -> (r: Result<ShmLoan<'_, M>, CrossbarError>)
        requires
            old(self).wf(),
        ensures
            final(self).config == old(self).config,
            final(self).topics == old(self).topics,
            final(self).id == old(self).id,
            final(self).last_heartbeat == old(self).last_heartbeat,
            match r {
                Ok(l) => {
                    &&& l.wf()
                    &&& l.config == old(self).config
                    &&& l.len == 0
                    &&& l.mem.image().len() == old(self).mem.image().len()
                    &&& l.mem.exclusive() == old(self).mem.exclusive()
                    &&& l.mem.contention() <= old(self).mem.contention()
                    &&& lent(
                        old(self).mem.accesses(),
                        l.mem.accesses(),
                        now,
                        old(self).topics@,
                        vstd::utf8::encode_utf8(uri@),
                        l.topic_idx,
                        l.seq,
                    )
                    &&& final(self).mem == *final(l.mem)
                },
                Err(_) => {
                    &&& final(self).wf()
                    &&& old(self).same_publisher(final(self))
                    &&& beat_and_searched(
                        old(self).mem.accesses(),
                        final(self).mem.accesses(),
                        now,
                        old(self).topics@,
                        vstd::utf8::encode_utf8(uri@),
                        None,
                    )
                },
            },
            old(self).mem.exclusive() ==> {
                let m = memory::put64(old(self).mem.image(), GH_HEARTBEAT as int, now);
                match known_topic(m, old(self).topics@, vstd::utf8::encode_utf8(uri@), 0) {
                    Some(t) => r matches Ok(l) && l.topic_idx == t && l.mem.image() == m
                        && l.is_next(),
                    None => r matches Err(e) && e@ == unregistered(uri@)
                        && final(self).mem.image() == m,
                }
            },
    {
        self.update_heartbeat(now);
        let hash: u64 = uri_hash(uri);
        let b: &[u8] = bytes_of(uri);
        let known: Option<u32> = self.find_known(b, hash);
        assert(beat_and_searched(
            old(self).mem.accesses(),
            self.mem.accesses(),
            now,
            old(self).topics@,
            b@,
            known,
        ));
        match known {
            Some(topic) => Ok(self.loan_inner(topic)),
            None => Err(
                CrossbarError::ShmInvalidRegion(add_text(text::text("topic not registered: "), uri)),
            ),
        }
    }

    /// Lends the next sample of a topic. The heartbeat is set if an interval
    /// has passed since it was set last.
    pub fn loan_to(&mut self, handle: &TopicHandle, now: u64, clock: u64) -> (r: ShmLoan<'_, M>)
        requires
            old(self).wf(),
            handle.publisher_id == old(self).id,
            handle.topic_idx < old(self).config.max_topics,
        ensures
            final(self).config == old(self).config,
            final(self).topics == old(self).topics,
            final(self).id == old(self).id,
            r.wf(),
            r.config == old(self).config,
            r.topic_idx == handle.topic_idx,
            r.len == 0,
            r.mem.image().len() == old(self).mem.image().len(),
            r.mem.exclusive() == old(self).mem.exclusive(),
            r.mem.contention() <= old(self).mem.contention(),
            final(self).mem == *final(r.mem),
            ({
                let due = clock - old(self).last_heartbeat
                    >= old(self).config.heartbeat_interval_us;
                &&& final(self).last_heartbeat == if due {
                    clock
                } else {
                    old(self).last_heartbeat
                }
                &&& numbered(
                    if due {
                        old(self).mem.accesses().push(
                            Access::Word64 { off: GH_HEARTBEAT as int, v: now },
                        )
                    } else {
                        old(self).mem.accesses()
                    },
                    r.mem.accesses(),
                    handle.topic_idx as int,
                    r.seq,
                )
                &&& old(self).mem.exclusive() ==> {
                    &&& r.is_next()
                    &&& r.mem.image() == if due {
                        memory::put64(old(self).mem.image(), GH_HEARTBEAT as int, now)
                    } else {
                        old(self).mem.image()
                    }
                }
            }),
    {
        if clock >= self.last_heartbeat && clock - self.last_heartbeat
            >= self.config.heartbeat_interval_us {
            self.update_heartbeat(now);
            self.last_heartbeat = clock;
        }
        self.loan_inner(handle.topic_idx)
    }

    fn loan_inner(&mut self, topic: u32) -> (r: ShmLoan<'_, M>)
        requires
            old(self).wf(),
            topic < old(self).config.max_topics,
        ensures
            final(self).config == old(self).config,
            final(self).topics == old(self).topics,
            final(self).id == old(self).id,
            final(self).last_heartbeat == old(self).last_heartbeat,
            r.wf(),
            r.config == old(self).config,
            r.topic_idx == topic,
            r.len == 0,
            r.mem.image().len() == old(self).mem.image().len(),
            r.mem.exclusive() == old(self).mem.exclusive(),
            r.mem.contention() <= old(self).mem.contention(),
            numbered(old(self).mem.accesses(), r.mem.accesses(), topic as int, r.seq),
            old(self).mem.exclusive() ==> r.mem.image() == old(self).mem.image(),
            final(self).mem == *final(r.mem),
            old(self).mem.exclusive() ==> r.is_next(),
    {
        let off: usize = topic_entry_off(&self.config, topic);
        let newest: u64 = self.mem.look_u64(off + TE_WRITE_SEQ);
        let seq: u64 = newest.wrapping_add(1);
        assert(self.mem.accesses() == old(self).mem.accesses().push(
            reading::look(topic_off(topic as int) + TE_WRITE_SEQ, newest),
        ));
        ShmLoan { mem: &mut self.mem, config: self.config, topic_idx: topic, len: 0, seq }
    }
}

/// The segment after a sample was published.
pub open spec fn after_commit(
    c: PubSubConfig,
    m: Seq<u8>,
    topic: int,
    seq: u64,
    len: u32,
) -> Seq<u8> {
    let s = sample_off(c, topic, slot_of(c, seq));
    let m = memory::put64(m, s + SS_SEQ, 0);
    let m = memory::put32(m, s + SS_DATA_LEN, len);
    let m = memory::put64(m, s + SS_SEQ, seq);
    memory::put64(m, topic_off(topic) + TE_WRITE_SEQ, seq)
}

/// The segment with subscribers told of a sample.
pub open spec fn with_notice(m: Seq<u8>, topic: int) -> Seq<u8> {
    let t = topic_off(topic) + TE_NOTIFY;
    memory::put32(m, t, memory::wrapping_sum_u32(memory::u32_at(m, t), 1))
}

/// The next sample of a topic, to be written and published.
pub struct ShmLoan<'a, M: SharedMemory> {
    /// The segment.
    pub mem: &'a mut M,
    /// Its parameters.
    pub config: PubSubConfig,
    /// The topic.
    pub topic_idx: u32,
    /// Bytes written so far.
    pub len: usize,
    /// The sequence number that the sample gets.
    pub seq: u64,
}

/// What publishing a sample stores whose data is written, in this order: the number
/// of its place is taken away, the place gets the length and then the new number,
/// and the sample becomes the newest one.
pub open spec fn sample_stores(c: PubSubConfig, topic: int, len: u32, seq: u64) -> Accesses {
    let s = sample_off(c, topic, slot_of(c, seq));
    seq![
        Access::Word64 { off: s + SS_SEQ, v: 0 },
        Access::Word32 { off: s + SS_DATA_LEN, v: len },
        Access::Word64 { off: s + SS_SEQ, v: seq },
        Access::Word64 { off: topic_off(topic) + TE_WRITE_SEQ, v: seq },
    ]
}

/// The word of a topic changes that sleeping subscribers watch.
pub open spec fn noticed(topic: int, was: u32) -> Access {
    Access::Add32 { off: topic_off(topic) + TE_NOTIFY, v: 1, was }
}

/// Subscribers are told, if they are to be.
pub open spec fn tells(told: Accesses, topic: int, wake: bool) -> bool {
    if wake {
        exists|was: u32| told == seq![#[trigger] noticed(topic, was)]
    } else {
        told.len() == 0
    }
}

impl<'a, M: SharedMemory> ShmLoan<'a, M> {
    /// The loan is of a topic that exists, and no more is written than fits.
    pub open spec fn wf(&self) -> bool {
        &&& sound(self.config)
        &&& total_size(self.config) <= self.mem.image().len() <= usize::MAX
        &&& self.topic_idx < self.config.max_topics
        &&& self.len <= self.config.sample_capacity
    }

    /// The sample comes next in its topic.
    pub open spec fn is_next(&self) -> bool {
        self.seq == memory::wrapping_sum_u64(
            write_seq(self.mem.image(), self.topic_idx as int),
            1,
        )
    }

    /// Offset of the data.
    pub open spec fn data_off(&self) -> int {
        sample_off(self.config, self.topic_idx as int, slot_of(self.config, self.seq))
            + SAMPLE_HEADER_SIZE
    }

    /// The data so far.
    pub open spec fn data(&self) -> Seq<u8> {
        memory::bytes_at(self.mem.image(), self.data_off(), self.len as int)
    }

    /// `other` is the same loan at a later moment.
    pub open spec fn same_loan(&self, other: &Self) -> bool {
        &&& other.config == self.config
        &&& other.topic_idx == self.topic_idx
        &&& other.seq == self.seq
        &&& other.mem.image().len() == self.mem.image().len()
        &&& other.mem.exclusive() == self.mem.exclusive()
        &&& other.mem.contention() <= self.mem.contention()
    }

    fn sample_at(&self) -> (r: usize)
        requires
            self.wf(),
        ensures
            r + SAMPLE_HEADER_SIZE == self.data_off(),
            r + SAMPLE_HEADER_SIZE + self.config.sample_capacity <= total_size(self.config)
                <= usize::MAX,
    {
        let slot: u32 = (self.seq % self.config.ring_depth as u64) as u32;
        sample_offset(&self.config, self.topic_idx, slot)
    }

    /// Writes bytes at an offset of the data, without changing its length.
    pub fn write_at(&mut self, off: usize, data: &[u8])
        requires
            old(self).wf(),
            off + data@.len() <= old(self).config.sample_capacity,
        ensures
            final(self).wf(),
            old(self).same_loan(final(self)),
            final(self).len == old(self).len,
            *final(final(self).mem) == *final(old(self).mem),
            final(self).mem.accesses() == old(self).mem.accesses().push(
                (Access::Bytes { off: old(self).data_off() + off, data: data@ }),
            ),
            old(self).mem.exclusive() ==> final(self).mem.image() == memory::put(
                old(self).mem.image(),
                old(self).data_off() + off,
                data@,
            ),
    {
        let at: usize = self.sample_at();
        self.mem.write(at + SAMPLE_HEADER_SIZE + off, data);
    }

    /// Makes `data` the data of the sample.
    pub fn set_data(&mut self, data: &[u8])
        requires
            old(self).wf(),
            data@.len() <= old(self).config.sample_capacity,
        ensures
            final(self).wf(),
            old(self).same_loan(final(self)),
            final(self).len == data@.len(),
            *final(final(self).mem) == *final(old(self).mem),
            final(self).mem.accesses() == old(self).mem.accesses().push(
                (Access::Bytes { off: old(self).data_off(), data: data@ }),
            ),
            old(self).mem.exclusive() ==> {
                &&& final(self).data() == data@
                &&& final(self).mem.image() == memory::put(
                    old(self).mem.image(),
                    old(self).data_off(),
                    data@,
                )
            },
    {
        proof {
            lemma_sample(self.config, self.topic_idx as int, slot_of(self.config, self.seq));
        }
        self.write_at(0, data);
        self.len = data.len();
        assert(self.mem.exclusive() ==> self.data() =~= data@);
    }

    /// Sets the length of the data, for use after `write_at`.
    pub fn set_len(&mut self, len: usize)
        requires
            old(self).wf(),
            len <= old(self).config.sample_capacity,
        ensures
            final(self).wf(),
            old(self).same_loan(final(self)),
            final(self).mem == old(self).mem,
            final(self).len == len,
    {
        self.len = len;
    }

    /// Most bytes that the sample can hold.
    pub fn capacity(&self) -> (r: usize)
        ensures
            r == self.config.sample_capacity,
    {
        self.config.sample_capacity as usize
    }

    /// Appends as much of `buf` as there is room for, and says how much that
    /// was. A full sample accepts nothing but an empty buffer.
    pub fn write(&mut self, buf: &[u8]) -> (r: Result<usize, CrossbarError>)
        requires
            old(self).wf(),
        ensures
            final(self).wf(),
            old(self).same_loan(final(self)),
            *final(final(self).mem) == *final(old(self).mem),
            ({
                let room = old(self).config.sample_capacity - old(self).len;
                if room == 0 && buf@.len() > 0 {
                    &&& r matches Err(e) && e@ == error::CrossbarErrorView::Io("sample full"@)
                    &&& final(self).len == old(self).len
                    &&& final(self).mem == old(self).mem
                } else {
                    &&& r matches Ok(n)
                    &&& n == if buf@.len() < room {
                        buf@.len() as int
                    } else {
                        room
                    }
                    &&& final(self).len == old(self).len + n
                    &&& final(self).mem.accesses() == old(self).mem.accesses().push(
                        Access::Bytes {
                            off: old(self).data_off() + old(self).len,
                            data: buf@.subrange(0, n as int),
                        },
                    )
                    &&& old(self).mem.exclusive() ==> final(self).data() == old(self).data()
                        + buf@.subrange(0, n as int)
                }
            }),
    {
        let room: usize = self.config.sample_capacity as usize - self.len;
        if room == 0 && buf.len() != 0 {
            return Err(CrossbarError::Io(text::text("sample full")));
        }
        let n: usize = if buf.len() < room {
            buf.len()
        } else {
            room
        };
        let part: Vec<u8> = memory::copy_range(buf, 0, n);
        let at: usize = self.sample_at();
        self.mem.write(at + SAMPLE_HEADER_SIZE + self.len, part.as_slice());
        self.len = self.len + n;
        assert(self.mem.exclusive() ==> self.data() =~= old(self).data() + part@);
        Ok(n)
    }

    /// What publishing the sample stores.
    pub open spec fn commits(&self, ops: Accesses, wake: bool) -> bool {
        exists|told: Accesses|
            {
                &&& ops == sample_stores(
                    self.config,
                    self.topic_idx as int,
                    self.len as u32,
                    self.seq,
                ) + told
                &&& #[trigger] tells(told, self.topic_idx as int, wake)
            }
    }

    fn commit(self, wake: bool)
        requires
            self.wf(),
        ensures
            final(self.mem).image().len() == old(self.mem).image().len(),
            final(self.mem).exclusive() == old(self.mem).exclusive(),
            final(self.mem).contention() <= old(self.mem).contention(),
            exists|ops: Accesses|
                {
                    &&& final(self.mem).accesses() == old(self.mem).accesses() + ops
                    &&& #[trigger] self.commits(ops, wake)
                },
            old(self.mem).exclusive() ==> final(self.mem).image() == {
                let n = after_commit(
                    self.config,
                    old(self.mem).image(),
                    self.topic_idx as int,
                    self.seq,
                    self.len as u32,
                );
                if wake {
                    with_notice(n, self.topic_idx as int)
                } else {
                    n
                }
            },
    {
        let ghost loan = self;
        let ghost first = self.mem.accesses();
        let ghost stores = sample_stores(
            self.config,
            self.topic_idx as int,
            self.len as u32,
            self.seq,
        );
        let ghost mut told: Accesses = Seq::empty();
        let at: usize = self.sample_at();
        let off: usize = topic_entry_off(&self.config, self.topic_idx);
        self.mem.store_u64(at + SS_SEQ, 0);
        self.mem.store_u32(at + SS_DATA_LEN, self.len as u32);
        self.mem.store_u64(at + SS_SEQ, self.seq);
        self.mem.store_u64(off + TE_WRITE_SEQ, self.seq);
        assert(self.mem.accesses() =~= first + stores);
        if wake {
            let before: u32 = self.mem.fetch_add_u32(off + TE_NOTIFY, 1);
            proof {
                told = seq![noticed(self.topic_idx as int, before)];
            }
        }
        proof {
            let ops = stores + told;
            assert(self.mem.accesses() =~= first + ops);
            assert(tells(told, loan.topic_idx as int, wake));
            assert(loan.commits(ops, wake));
        }
    }

    /// Publishes the sample, and changes the word that sleeping subscribers
    /// watch, so that they can be woken.
    pub fn publish(self)
        requires
            self.wf(),
        ensures
            final(self.mem).image().len() == old(self.mem).image().len(),
            final(self.mem).exclusive() == old(self.mem).exclusive(),
            final(self.mem).contention() <= old(self.mem).contention(),
            exists|ops: Accesses|
                {
                    &&& final(self.mem).accesses() == old(self.mem).accesses() + ops
                    &&& #[trigger] self.commits(ops, true)
                },
            old(self.mem).exclusive() ==> final(self.mem).image() == with_notice(
                after_commit(
                    self.config,
                    old(self.mem).image(),
                    self.topic_idx as int,
                    self.seq,
                    self.len as u32,
                ),
                self.topic_idx as int,
            ),
    {
        self.commit(true);
    }

    /// Publishes the sample without telling anybody.
    pub fn publish_silent(self)
        requires
            self.wf(),
        ensures
            final(self.mem).image().len() == old(self.mem).image().len(),
            final(self.mem).exclusive() == old(self.mem).exclusive(),
            final(self.mem).contention() <= old(self.mem).contention(),
            exists|ops: Accesses|
                {
                    &&& final(self.mem).accesses() == old(self.mem).accesses() + ops
                    &&& #[trigger] self.commits(ops, false)
                },
            old(self.mem).exclusive() ==> final(self.mem).image() == after_commit(
                self.config,
                old(self.mem).image(),
                self.topic_idx as int,
                self.seq,
                self.len as u32,
            ),
    {
        self.commit(false);
    }
}

/// The parameters in a header, with the stale timeout that the caller asks
/// for, or else that of the header, or else the default one.
pub open spec fn header_config(m: Seq<u8>, timeout: Option<u64>) -> PubSubConfig {
    let stored = memory::u64_at(m, GH_STALE_TIMEOUT_US as int);
    PubSubConfig {
        max_topics: memory::u32_at(m, GH_MAX_TOPICS as int),
        sample_capacity: memory::u32_at(m, GH_SAMPLE_CAPACITY as int),
        ring_depth: memory::u32_at(m, GH_RING_DEPTH as int),
        heartbeat_interval_us: 100000,
        stale_timeout_us: match timeout {
            Some(t) => t,
            None => if stored > 0 {
                stored
            } else {
                DEFAULT_STALE_US
            },
        },
    }
}

/// Why a subscriber cannot connect to a segment.
pub open spec fn connect_fault(m: Seq<u8>, timeout: Option<u64>, now: u64) -> Option<
    error::CrossbarErrorView,
> {
    let c = header_config(m, timeout);
    let version = memory::u32_at(m, GH_VERSION as int);
    if m.len() < GLOBAL_HEADER_SIZE || memory::bytes_at(m, 0, 8) != magic() {
        Some(
            error::CrossbarErrorView::ShmInvalidRegion(
                "magic mismatch (not a crossbar pub/sub region)"@,
            ),
        )
    } else if version != VERSION {
        Some(
            error::CrossbarErrorView::ShmInvalidRegion(
                "version mismatch: expected 1, got "@ + text::decimal(version as nat),
            ),
        )
    } else if c.ring_depth == 0 {
        Some(
            error::CrossbarErrorView::ShmInvalidRegion(
                "on-disk ring_depth is 0 (corrupted metadata)"@,
            ),
        )
    } else if total_size(c) > usize::MAX || stride(c) > usize::MAX {
        Some(
            error::CrossbarErrorView::ShmInvalidRegion(
                "on-disk metadata overflows layout size (corrupted region)"@,
            ),
        )
    } else if m.len() < total_size(c) {
        Some(
            error::CrossbarErrorView::ShmInvalidRegion(
                "region too small: "@ + text::decimal(m.len()) + " bytes, expected at least "@
                    + text::decimal(total_size(c) as nat),
            ),
        )
    } else if now - memory::u64_at(m, GH_HEARTBEAT as int) > c.stale_timeout_us {
        Some(error::CrossbarErrorView::ShmServerDead)
    } else {
        None
    }
}

/// Reads the topics of a segment.
pub struct ShmSubscriber<M: SharedMemory> {
    /// The segment.
    pub mem: M,
    /// Its parameters.
    pub config: PubSubConfig,
}

/// What a search for a topic finds.
pub enum TopicSearch {
    /// The topic.
    Found(int),
    /// A topic entry that makes no sense.
    Broken(int, u8),
    /// Nothing.
    Missing,
}

/// The search for a topic by its URI, from `topic` on.
pub open spec fn search_topic(c: PubSubConfig, m: Seq<u8>, uri: Seq<u8>, topic: int) -> TopicSearch
    decreases c.max_topics - topic,
{
    if topic < 0 || topic >= c.max_topics {
        TopicSearch::Missing
    } else if is_registered(m, topic) && memory::u64_at(m, topic_off(topic) + TE_URI_HASH)
        == layout::fnv(uri) {
        if m[topic_off(topic) + TE_URI_LEN] > MAX_URI_LEN {
            TopicSearch::Broken(topic, m[topic_off(topic) + TE_URI_LEN])
        } else if holds_uri(m, topic, uri) {
            TopicSearch::Found(topic)
        } else {
            search_topic(c, m, uri, topic + 1)
        }
    } else {
        search_topic(c, m, uri, topic + 1)
    }
}

/// The error for a topic entry that makes no sense.
pub open spec fn broken_topic(topic: int, len: u8) -> error::CrossbarErrorView {
    error::CrossbarErrorView::ShmInvalidRegion(
        "topic "@ + text::decimal(topic as nat) + " has invalid URI length "@ + text::decimal(
            len as nat,
        ) + " (max 103)"@,
    )
}

/// The error for a topic that is not there.
pub open spec fn missing_topic(uri: Seq<char>) -> error::CrossbarErrorView {
    error::CrossbarErrorView::ShmInvalidRegion("topic not found: "@ + uri)
}

impl<M: SharedMemory> ShmSubscriber<M> {
    /// The segment has room for its parts.
    pub open spec fn wf(&self) -> bool {
        &&& sound(self.config)
        &&& total_size(self.config) <= self.mem.image().len() <= usize::MAX
    }

    /// Connects to the segment of a live publisher. Whatever the segment holds,
    /// what is accepted has room for its parts.
    pub fn connect(mem: M, timeout: Option<u64>, now: u64) -> (r: Result<
        ShmSubscriber<M>,
        CrossbarError,
    >)
        ensures
            r matches Ok(s) ==> s.wf() && s.mem == mem,
            mem.exclusive() ==> match connect_fault(mem.image(), timeout, now) {
                None => r matches Ok(s) && s.config == header_config(mem.image(), timeout),
                Some(f) => r matches Err(e) && e@ == f,
            },
    {
        let len: usize = mem.size();
        if len < GLOBAL_HEADER_SIZE {
            return Err(invalid("magic mismatch (not a crossbar pub/sub region)"));
        }
        let found: Vec<u8> = mem.read(0, 8);
        let expected: Vec<u8> = magic_bytes();
        if !memory::same_bytes(found.as_slice(), expected.as_slice()) {
            return Err(invalid("magic mismatch (not a crossbar pub/sub region)"));
        }
        let version: u32 = mem.load_u32(GH_VERSION);
        if version != VERSION {
            let s: String = add_number(
                text::text("version mismatch: expected 1, got "),
                version as u64,
            );
            return Err(CrossbarError::ShmInvalidRegion(s));
        }
        let ring_depth: u32 = mem.load_u32(GH_RING_DEPTH);
        if ring_depth == 0 {
            return Err(invalid("on-disk ring_depth is 0 (corrupted metadata)"));
        }
        let stale_timeout_us: u64 = match timeout {
            Some(t) => t,
            None => {
                let stored: u64 = mem.load_u64(GH_STALE_TIMEOUT_US);
                if stored > 0 {
                    stored
                } else {
                    DEFAULT_STALE_US
                }
            },
        };
        let config: PubSubConfig = PubSubConfig {
            max_topics: mem.load_u32(GH_MAX_TOPICS),
            sample_capacity: mem.load_u32(GH_SAMPLE_CAPACITY),
            ring_depth,
            heartbeat_interval_us: 100000,
            stale_timeout_us,
        };
        let size: usize = match checked_total_size(&config) {
            Some(n) => n,
            None => {
                return Err(invalid("on-disk metadata overflows layout size (corrupted region)"));
            },
        };
        if len < size {
            let s: String = add_number(text::text("region too small: "), len as u64);
            let s: String = add_number(add_text(s, " bytes, expected at least "), size as u64);
            return Err(CrossbarError::ShmInvalidRegion(s));
        }
        if heartbeat_is_stale(&mem, stale_timeout_us, now) {
            return Err(CrossbarError::ShmServerDead);
        }
        Ok(ShmSubscriber { mem, config })
    }

    /// Subscribes to a topic, from its next sample on. The subscription looks
    /// at the segment through `mem`, another handle on it.
    pub fn subscribe(&self, mem: M, uri: &str) -> (r: Result<ShmSubscription<M>, CrossbarError>)
        requires
            self.wf(),
            total_size(self.config) <= mem.image().len(),
        ensures
            r matches Ok(s) ==> {
                &&& s.wf()
                &&& s.config == self.config
                &&& s.mem.image().len() == mem.image().len()
                &&& s.mem.exclusive() == mem.exclusive()
                &&& mem.exclusive() ==> s.mem.image() == mem.image()
                &&& joined_topic(
                    mem.accesses(),
                    s.mem.accesses(),
                    vstd::utf8::encode_utf8(uri@),
                    s.topic_idx,
                    s.last_seq,
                )
            },
            mem.exclusive() ==> match search_topic(
                self.config,
                mem.image(),
                vstd::utf8::encode_utf8(uri@),
                0,
            ) {
                TopicSearch::Found(t) => r matches Ok(s) && s.topic_idx == t && s.last_seq
                    == write_seq(mem.image(), t),
                TopicSearch::Broken(t, n) => r matches Err(e) && e@ == broken_topic(t, n),
                TopicSearch::Missing => r matches Err(e) && e@ == missing_topic(uri@),
            },
    {
        let size: usize = mem.size();
        let hash: u64 = uri_hash(uri);
        let b: &[u8] = bytes_of(uri);
        let ghost first = mem.accesses();
        let ghost m = mem.image();
        let ghost alone = mem.exclusive();
        let ghost mut parts: Seq<Accesses> = Seq::empty();
        let mut handle: M = mem;
        assert(first + reading::joined(parts) =~= first);
        let mut idx: u32 = 0;
        while idx < self.config.max_topics
            invariant
                idx <= self.config.max_topics,
                self.wf(),
                total_size(self.config) <= handle.image().len() <= usize::MAX,
                handle.image().len() == m.len(),
                handle.exclusive() == alone,
                b@ == vstd::utf8::encode_utf8(uri@),
                hash == layout::fnv(b@),
                first == mem.accesses(),
                m == mem.image(),
                alone == mem.exclusive(),
                parts.len() == idx,
                handle.accesses() == first + reading::joined(parts),
                passes_entries(parts, b@),
                alone ==> {
                    &&& handle.image() == m
                    &&& search_topic(self.config, m, b@, 0) == search_topic(
                        self.config,
                        m,
                        b@,
                        idx as int,
                    )
                },
            decreases self.config.max_topics - idx,
        {
            let off: usize = topic_entry_off(&self.config, idx);
            let ghost mid = handle.accesses();
            let here: bool = match try_entry(&mut handle, &self.config, idx, b, hash) {
                Ok(found) => found,
                Err(n) => {
                    let s: String = add_number(text::text("topic "), idx as u64);
                    let s: String = add_number(add_text(s, " has invalid URI length "), n as u64);
                    return Err(CrossbarError::ShmInvalidRegion(add_text(s, " (max 103)")));
                },
            };
            let ghost ops = choose|ops: Accesses|
                handle.accesses() == mid + ops && #[trigger] tries_entry(ops, idx as int, b@, here);
            if here {
                let last_seq: u64 = handle.look_u64(off + TE_WRITE_SEQ);
                proof {
                    assert(finds_entry(ops, idx as int, b@));
                    assert(handle.accesses() =~= first + reading::joined(parts) + ops + seq![
                        reading::look(topic_off(idx as int) + TE_WRITE_SEQ, last_seq),
                    ]);
                }
                return Ok(
                    ShmSubscription {
                        mem: handle,
                        config: self.config,
                        topic_idx: idx,
                        last_seq,
                    },
                );
            }
            proof {
                let longer = parts.push(ops);
                assert(passes_entry(ops, idx as int, b@));
                assert forall|k: int| 0 <= k < longer.len() implies #[trigger] passes_entry(
                    longer[k],
                    k,
                    b@,
                ) by {
                    if k < parts.len() {
                        assert(passes_entry(parts[k], k, b@));
                    }
                }
                reading::lemma_joined_push(parts, ops);
                assert(handle.accesses() =~= first + reading::joined(longer));
                parts = longer;
            }
            idx = idx + 1;
        }
        Err(CrossbarError::ShmInvalidRegion(add_text(text::text("topic not found: "), uri)))
    }
}

fn heartbeat_is_stale<M: SharedMemory>(mem: &M, timeout: u64, now: u64) -> (r: bool)
    requires
        GLOBAL_HEADER_SIZE <= mem.image().len(),
    ensures
        mem.exclusive() ==> r == (now - memory::u64_at(mem.image(), GH_HEARTBEAT as int)
            > timeout),
{
    let beat: u64 = mem.load_u64(GH_HEARTBEAT);
    now > beat && now - beat > timeout
}

/// The data of a sample, if it is in the ring.
pub open spec fn sample_data(c: PubSubConfig, m: Seq<u8>, topic: int, seq: u64) -> Option<Seq<u8>> {
    let s = sample_off(c, topic, slot_of(c, seq));
    let len = memory::u32_at(m, s + SS_DATA_LEN);
    if memory::u64_at(m, s + SS_SEQ) != seq || len > c.sample_capacity {
        None
    } else {
        Some(memory::bytes_at(m, s + SAMPLE_HEADER_SIZE, len as int))
    }
}

/// The sample that a subscriber looks for first: the next one, or the newest
/// one if it has fallen too far behind.
pub open spec fn target_seq(c: PubSubConfig, newest: u64, last: u64) -> u64 {
    if newest - last > c.ring_depth {
        newest
    } else {
        (last + 1) as u64
    }
}

/// The sample that a subscriber receives, if there is one.
pub open spec fn received_seq(c: PubSubConfig, m: Seq<u8>, topic: int, last: u64) -> Option<u64> {
    let newest = write_seq(m, topic);
    if newest <= last {
        None
    } else {
        let target = target_seq(c, newest, last);
        if sample_data(c, m, topic, target) is Some {
            Some(target)
        } else if newest != target && sample_data(c, m, topic, newest) is Some {
            Some(newest)
        } else {
            None
        }
    }
}

/// The newest sample, if the subscriber has not received it yet.
pub open spec fn latest_seq(c: PubSubConfig, m: Seq<u8>, topic: int, last: u64) -> Option<u64> {
    let newest = write_seq(m, topic);
    if newest == 0 || newest <= last || sample_data(c, m, topic, newest) is None {
        None
    } else {
        Some(newest)
    }
}

/// The looks of a reader at the place of a sample at `s`: its number, its length,
/// and its number once more.
pub open spec fn length_looks(s: int, before: u64, len: u32, after: u64) -> Accesses {
    seq![
        reading::look(s + SS_SEQ, before),
        Access::Look32 { off: s + SS_DATA_LEN, found: len },
        reading::look(s + SS_SEQ, after),
    ]
}

/// A reader copies the data of a sample, and looks at its number once more.
pub open spec fn data_looks(s: int, data: Seq<u8>, after: u64) -> Accesses {
    seq![
        Access::Copied { off: s + SAMPLE_HEADER_SIZE, found: data },
        reading::look(s + SS_SEQ, after),
    ]
}

/// The looks of a reader that takes the sample `seq` as a copy: its number was
/// there before and after the length was read, and still after the data was.
pub open spec fn copy_looks(s: int, seq: u64, data: Seq<u8>) -> Accesses {
    length_looks(s, seq, data.len() as u32, seq) + data_looks(s, data, seq)
}

/// What a reader looks at that finds the sample `seq` in place, or does not.
pub open spec fn locates(
    s: int,
    seq: u64,
    capacity: int,
    ops: Accesses,
    r: Option<ShmSampleRef>,
) -> bool {
    match r {
        Some(x) => ops == length_looks(s, seq, x.len as u32, seq),
        None => {
            ||| exists|found: u64|
                found != seq && ops == seq![
                    #[trigger] reading::look(s + SS_SEQ, found),
                ]
            ||| exists|len: u32, after: u64|
                {
                    &&& reading::length_seen(seq, seq, len, after, capacity) is None
                    &&& ops == #[trigger] length_looks(s, seq, len, after)
                }
        },
    }
}

/// What a reader looks at that gets a copy of the sample `seq`, or does not.
pub open spec fn copies(
    s: int,
    seq: u64,
    capacity: int,
    ops: Accesses,
    r: Option<ShmSample>,
) -> bool {
    match r {
        Some(x) => ops == copy_looks(s, seq, x.data@),
        None => {
            ||| locates(s, seq, capacity, ops, None)
            ||| exists|data: Seq<u8>, after: u64|
                {
                    &&& after != seq
                    &&& ops == length_looks(s, seq, data.len() as u32, seq)
                        + #[trigger] data_looks(s, data, after)
                }
        },
    }
}

/// A copy of a sample.
#[derive(Debug)]
pub struct ShmSample {
    /// The data.
    pub data: Vec<u8>,
}

impl ShmSample {
    /// Number of bytes.
    pub fn data_len(&self) -> (r: usize)
        ensures
            r == self.data@.len(),
    {
        self.data.len()
    }

    /// The bytes.
    pub fn to_vec(&self) -> (r: Vec<u8>)
        ensures
            r@ == self.data@,
    {
        memory::copy_range(self.data.as_slice(), 0, self.data.len())
    }
}

/// Where a sample lies in the segment. The publisher may overwrite it.
#[derive(Debug, Clone, Copy, PartialEq, Eq)]
pub struct ShmSampleRef {
    /// Offset of the data.
    pub offset: usize,
    /// Length of the data.
    pub len: usize,
}

impl ShmSampleRef {
    /// Number of bytes.
    pub fn data_len(&self) -> (r: usize)
        ensures
            r == self.len,
    {
        self.len
    }
}

/// A subscription to one topic.
pub struct ShmSubscription<M: SharedMemory> {
    /// The segment.
    pub mem: M,
    /// Its parameters.
    pub config: PubSubConfig,
    /// The topic.
    pub topic_idx: u32,
    /// Sequence number of the sample received last.
    pub last_seq: u64,
}

impl<M: SharedMemory> ShmSubscription<M> {
    /// The segment has room for its parts, and the topic exists.
    pub open spec fn wf(&self) -> bool {
        &&& sound(self.config)
        &&& total_size(self.config) <= self.mem.image().len() <= usize::MAX
        &&& self.topic_idx < self.config.max_topics
    }

    /// Receiving gives the data of a sample, and remembers that sample;
    /// without one nothing changes.
    pub open spec fn received(
        &self,
        after: &Self,
        seq: Option<u64>,
        data: Option<Seq<u8>>,
    ) -> bool {
        match seq {
            Some(s) => {
                &&& after.last_seq == s
                &&& data == sample_data(self.config, self.mem.image(), self.topic_idx as int, s)
            },
            None => after.last_seq == self.last_seq && data is None,
        }
    }

    /// Takes note of progress that was made on behalf of this subscription.
    pub fn sync_inflight(&mut self, seen: u64)
        ensures
            final(self).mem == old(self).mem,
            final(self).config == old(self).config,
            final(self).topic_idx == old(self).topic_idx,
            final(self).last_seq == if seen > old(self).last_seq {
                seen
            } else {
                old(self).last_seq
            },
    {
        if seen > self.last_seq {
            self.last_seq = seen;
        }
    }

    fn newest(&self) -> (r: u64)
        requires
            self.wf(),
        ensures
            self.mem.exclusive() ==> r == write_seq(self.mem.image(), self.topic_idx as int),
    {
        let off: usize = topic_entry_off(&self.config, self.topic_idx);
        self.mem.load_u64(off + TE_WRITE_SEQ)
    }

    /// `other` is the same subscription at a later moment, at which the segment is
    /// the same unless others write to it.
    pub open spec fn same_stream(&self, other: &Self) -> bool {
        &&& other.config == self.config
        &&& other.topic_idx == self.topic_idx
        &&& other.mem.image().len() == self.mem.image().len()
        &&& other.mem.exclusive() == self.mem.exclusive()
        &&& other.mem.contention() <= self.mem.contention()
        &&& self.mem.exclusive() ==> other.mem.image() == self.mem.image()
    }

    /// Where a sample of the topic lies.
    pub open spec fn place(&self, seq: u64) -> int {
        sample_off(self.config, self.topic_idx as int, slot_of(self.config, seq))
    }

    /// The sample that the subscription has was copied, and nothing was done after
    /// that: the last look still found its number.
    pub open spec fn copied_last(&self, data: Seq<u8>) -> bool {
        reading::ends_with(
            self.mem.accesses(),
            copy_looks(self.place(self.last_seq), self.last_seq, data),
        )
    }

    /// The sample that the subscription has was found in place, and nothing was
    /// done after that: the last look still found its number.
    pub open spec fn located_last(&self, s: ShmSampleRef) -> bool {
        reading::ends_with(
            self.mem.accesses(),
            length_looks(self.place(self.last_seq), self.last_seq, s.len as u32, self.last_seq),
        )
    }

    fn locate(&mut self, seq: u64) -> (r: Option<ShmSampleRef>)
        requires
            old(self).wf(),
        ensures
            final(self).wf(),
            old(self).same_stream(final(self)),
            final(self).last_seq == old(self).last_seq,
            r matches Some(s) ==> {
                &&& s.offset + s.len <= old(self).mem.image().len() <= usize::MAX
                &&& s.len <= old(self).config.sample_capacity
                &&& s.offset == old(self).place(seq) + SAMPLE_HEADER_SIZE
                &&& reading::ends_with(
                    final(self).mem.accesses(),
                    length_looks(old(self).place(seq), seq, s.len as u32, seq),
                )
            },
            exists|ops: Accesses|
                {
                    &&& final(self).mem.accesses() == old(self).mem.accesses() + ops
                    &&& #[trigger] locates(
                        old(self).place(seq),
                        seq,
                        old(self).config.sample_capacity as int,
                        ops,
                        r,
                    )
                },
            old(self).mem.exclusive() ==> match sample_data(
                old(self).config,
                old(self).mem.image(),
                old(self).topic_idx as int,
                seq,
            ) {
                Some(d) => r matches Some(s) && d == memory::bytes_at(
                    old(self).mem.image(),
                    s.offset as int,
                    s.len as int,
                ),
                None => r is None,
            },
    {
        let ghost first = self.mem.accesses();
        let ghost cap = self.config.sample_capacity as int;
        let slot: u32 = (seq % self.config.ring_depth as u64) as u32;
        let at: usize = sample_offset(&self.config, self.topic_idx, slot);
        let ghost place = self.place(seq);
        assert(at == place);
        let before: u64 = self.mem.look_u64(at + SS_SEQ);
        if before != seq {
            proof {
                let ops = seq![reading::look(place + SS_SEQ, before)];
                assert(self.mem.accesses() =~= first + ops);
                assert(locates(place, seq, cap, ops, None));
            }
            return None;
        }
        let len: u32 = self.mem.look_u32(at + SS_DATA_LEN);
        let after: u64 = self.mem.look_u64(at + SS_SEQ);
        let ghost ops = length_looks(place, seq, len, after);
        assert(self.mem.accesses() =~= first + ops);
        match reading::judge_length(
            seq,
            before,
            len,
            after,
            self.config.sample_capacity as usize,
        ) {
            Some(len) => {
                let s: ShmSampleRef = ShmSampleRef {
                    offset: at + SAMPLE_HEADER_SIZE,
                    len: len as usize,
                };
                proof {
                    assert(locates(place, seq, cap, ops, Some(s)));
                    reading::lemma_ends_with(first, ops);
                }
                Some(s)
            },
            None => {
                assert(locates(place, seq, cap, ops, None));
                None
            },
        }
    }

    fn copy(&mut self, seq: u64) -> (r: Option<ShmSample>)
        requires
            old(self).wf(),
        ensures
            final(self).wf(),
            old(self).same_stream(final(self)),
            final(self).last_seq == old(self).last_seq,
            r matches Some(s) ==> s.data@.len() <= old(self).config.sample_capacity,
            r matches Some(s) ==> reading::ends_with(
                final(self).mem.accesses(),
                copy_looks(old(self).place(seq), seq, s.data@),
            ),
            exists|ops: Accesses|
                {
                    &&& final(self).mem.accesses() == old(self).mem.accesses() + ops
                    &&& #[trigger] copies(
                        old(self).place(seq),
                        seq,
                        old(self).config.sample_capacity as int,
                        ops,
                        r,
                    )
                },
            old(self).mem.exclusive() ==> match sample_data(
                old(self).config,
                old(self).mem.image(),
                old(self).topic_idx as int,
                seq,
            ) {
                Some(d) => r matches Some(s) && s.data@ == d,
                None => r is None,
            },
    {
        let ghost first = self.mem.accesses();
        let ghost at = self.place(seq);
        let ghost cap = self.config.sample_capacity as int;
        let found: Option<ShmSampleRef> = self.locate(seq);
        let ghost looks = choose|ops: Accesses|
            self.mem.accesses() == first + ops && #[trigger] locates(at, seq, cap, ops, found);
        match found {
            Some(s) => {
                let data: Vec<u8> = self.mem.copy(s.offset, s.len);
                let after: u64 = self.mem.look_u64(s.offset - SAMPLE_HEADER_SIZE);
                let ghost ops = looks + data_looks(at, data@, after);
                assert(self.mem.accesses() =~= first + ops);
                match reading::judge_length(
                    seq,
                    seq,
                    s.len as u32,
                    after,
                    self.config.sample_capacity as usize,
                ) {
                    Some(_) => {
                        let r: ShmSample = ShmSample { data };
                        proof {
                            assert(ops == copy_looks(at, seq, data@));
                            reading::lemma_ends_with(first, ops);
                            assert(copies(at, seq, cap, ops, Some(r)));
                        }
                        Some(r)
                    },
                    None => {
                        assert(copies(at, seq, cap, ops, None));
                        None
                    },
                }
            },
            None => {
                assert(copies(at, seq, cap, looks, None));
                None
            },
        }
    }

    /// Receives the next sample, as a copy. A subscriber that has fallen too
    /// far behind receives the newest one. `None` if there is none.
    pub fn try_recv(&mut self) -> (r: Option<ShmSample>)
        requires
            old(self).wf(),
        ensures
            final(self).wf(),
            old(self).same_stream(final(self)),
            final(self).last_seq >= old(self).last_seq,
            r is None ==> final(self).last_seq == old(self).last_seq,
            r matches Some(s) ==> s.data@.len() <= old(self).config.sample_capacity,
            r matches Some(s) ==> final(self).copied_last(s.data@),
            old(self).mem.exclusive() ==> old(self).received(
                final(self),
                received_seq(
                    old(self).config,
                    old(self).mem.image(),
                    old(self).topic_idx as int,
                    old(self).last_seq,
                ),
                match r {
                    Some(s) => Some(s.data@),
                    None => None,
                },
            ),
    {
        let newest: u64 = self.newest();
        if newest <= self.last_seq {
            return None;
        }
        let target: u64 = if newest - self.last_seq > self.config.ring_depth as u64 {
            newest
        } else {
            self.last_seq + 1
        };
        if let Some(s) = self.copy(target) {
            self.last_seq = target;
            return Some(s);
        }
        let latest: u64 = self.newest();
        if latest > self.last_seq && latest != target {
            if let Some(s) = self.copy(latest) {
                self.last_seq = latest;
                return Some(s);
            }
        }
        None
    }

    /// Receives the next sample in place. The publisher may overwrite it.
    pub fn try_recv_ref(&mut self) -> (r: Option<ShmSampleRef>)
        requires
            old(self).wf(),
        ensures
            final(self).wf(),
            old(self).same_stream(final(self)),
            final(self).last_seq >= old(self).last_seq,
            r is None ==> final(self).last_seq == old(self).last_seq,
            r matches Some(s) ==> s.offset + s.len <= old(self).mem.image().len(),
            r matches Some(s) ==> final(self).located_last(s),
            old(self).mem.exclusive() ==> old(self).received(
                final(self),
                received_seq(
                    old(self).config,
                    old(self).mem.image(),
                    old(self).topic_idx as int,
                    old(self).last_seq,
                ),
                match r {
                    Some(s) => Some(
                        memory::bytes_at(
                            old(self).mem.image(),
                            s.offset as int,
                            s.len as int,
                        ),
                    ),
                    None => None,
                },
            ),
    {
        let newest: u64 = self.newest();
        if newest <= self.last_seq {
            return None;
        }
        let target: u64 = if newest - self.last_seq > self.config.ring_depth as u64 {
            newest
        } else {
            self.last_seq + 1
        };
        if let Some(s) = self.locate(target) {
            self.last_seq = target;
            return Some(s);
        }
        let latest: u64 = self.newest();
        if latest > self.last_seq && latest != target {
            if let Some(s) = self.locate(latest) {
                self.last_seq = latest;
                return Some(s);
            }
        }
        None
    }

    /// Receives the newest sample, skipping all before it.
    pub fn latest(&mut self) -> (r: Option<ShmSample>)
        requires
            old(self).wf(),
        ensures
            final(self).wf(),
            old(self).same_stream(final(self)),
            final(self).last_seq >= old(self).last_seq,
            r is None ==> final(self).last_seq == old(self).last_seq,
            r matches Some(s) ==> s.data@.len() <= old(self).config.sample_capacity,
            r matches Some(s) ==> final(self).copied_last(s.data@),
            old(self).mem.exclusive() ==> old(self).received(
                final(self),
                latest_seq(
                    old(self).config,
                    old(self).mem.image(),
                    old(self).topic_idx as int,
                    old(self).last_seq,
                ),
                match r {
                    Some(s) => Some(s.data@),
                    None => None,
                },
            ),
    {
        let seq: u64 = self.newest();
        if seq == 0 || seq <= self.last_seq {
            return None;
        }
        if let Some(s) = self.copy(seq) {
            self.last_seq = seq;
            return Some(s);
        }
        let latest: u64 = self.newest();
        if latest > self.last_seq && latest != seq {
            if let Some(s) = self.copy(latest) {
                self.last_seq = latest;
                return Some(s);
            }
        }
        None
    }

    /// One attempt of a blocking receive: gives the next sample, or the value
    /// of the word to watch until there is one.
    pub fn recv(&mut self) -> (r: Result<ShmSample, u32>)
        requires
            old(self).wf(),
        ensures
            final(self).wf(),
            old(self).same_stream(final(self)),
            final(self).last_seq >= old(self).last_seq,
            r is Err ==> final(self).last_seq == old(self).last_seq,
            r matches Ok(s) ==> final(self).copied_last(s.data@),
            old(self).mem.exclusive() ==> {
                let c = old(self).config;
                let m = old(self).mem.image();
                let t = old(self).topic_idx as int;
                &&& old(self).received(
                    final(self),
                    received_seq(c, m, t, old(self).last_seq),
                    match r {
                        Ok(s) => Some(s.data@),
                        Err(_) => None,
                    },
                )
                &&& r matches Err(v) ==> v == memory::u32_at(m, topic_off(t) + TE_NOTIFY)
            },
    {
        if let Some(s) = self.try_recv() {
            return Ok(s);
        }
        let off: usize = topic_entry_off(&self.config, self.topic_idx);
        let current: u32 = self.mem.load_u32(off + TE_NOTIFY);
        match self.try_recv() {
            Some(s) => Ok(s),
            None => Err(current),
        }
    }

    /// Checks that the publisher is alive.
    pub fn check_publisher_heartbeat(&self, now: u64) -> (r: Result<(), CrossbarError>)
        requires
            self.wf(),
        ensures
            r matches Err(e) ==> e is ShmServerDead,
            self.mem.exclusive() ==> (r is Err <==> now - memory::u64_at(
                self.mem.image(),
                GH_HEARTBEAT as int,
            ) > self.config.stale_timeout_us),
    {
        proof {
            lemma_parts(self.config);
        }
        if heartbeat_is_stale(&self.mem, self.config.stale_timeout_us, now) {
            return Err(CrossbarError::ShmServerDead);
        }
        Ok(())
    }
}

} // verus!
