//! The publisher and the subscriber of a segment.

use crate::error::Error;
use crate::memory::{self, Access, Accesses, SharedMemory};
use crate::platform::loan::{Loan, PinnedLoan, Topic, TypedLoan};
use crate::platform::place::Place;
use crate::platform::subscription::Subscription;
use crate::pod::Pod;
use crate::protocol::config::PubSubConfig;
use crate::protocol::header::{self, check_config, config_error};
use crate::protocol::layout::{
    self, topic_entry_off, uri_hash, validate_name, PINNED_WRITER_ACTIVE, TE_ACTIVE,
    TE_PINNED_READERS, TE_STATE_ACTIVE, TE_STATE_FREE, TE_STATE_INIT, TE_SUBSCRIBER_COUNT,
    TE_TYPE_SIZE, TE_URI, TE_URI_HASH, TE_URI_LEN, TE_URI_MAX, TE_WRITE_SEQ,
};
use crate::protocol::pool::{PoolLayout, NO_BLOCK};
use crate::protocol::reading;
use crate::protocol::region::{self, Region};
use crate::text::{add_number, add_text, bytes_of, text};
use std::marker::PhantomData;
use vstd::prelude::*;

verus! {

broadcast use crate::memory::group_memory;

/// Blocks that a publisher keeps for itself at most.
pub const CACHE_SIZE: usize = 8;

/// The path of the file of a segment.
pub fn shm_path(name: &str, place: &Place) -> (r: String)
    ensures
        r@ == place.path_of("/dev/shm/crossbar-"@, "crossbar-"@, "/tmp/crossbar-shm-"@, name@),
{
    place.file("/dev/shm/crossbar-", "crossbar-", "/tmp/crossbar-shm-", name)
}

/// The identity of a publisher: its process, its number among the publishers of
/// the process, and the hash of the name of its thread.
pub fn publisher_id(pid: u32, seq: u64, thread: &str) -> (r: u64)
    ensures
        r == (pid as u64) ^ seq ^ layout::fnv(vstd::utf8::encode_utf8(thread@)),
{
    pid as u64 ^ seq ^ uri_hash(thread)
}

/// What the clocks show, in microseconds: one that never goes back, and the
/// time since the epoch, if it can be told.
#[derive(Clone, Copy, Debug, PartialEq, Eq, Structural)]
pub struct Clock {
    /// Monotonic time.
    pub mono_us: u64,
    /// Time since the epoch; `None` for a clock that is before it.
    pub wall_us: Option<u64>,
}

/// Publishes samples without copying them: the payload is written into a block
/// of the segment, and only the block's index goes through the topic's ring.
pub struct ShmPublisher<M: SharedMemory> {
    /// The segment.
    pub region: Region<M>,
    /// This publisher created the segment.
    pub is_owner: bool,
    /// Tells the topics of this publisher from those of others.
    pub id: u64,
    /// Monotonic time of the last heartbeat, in microseconds.
    pub last_heartbeat: u64,
    /// Number of loans, wrapped around.
    pub loan_count: u32,
    /// Blocks taken from the pool ahead of their use, last in first out.
    pub block_cache: Vec<u32>,
    /// The pinned block of each topic, `NO_BLOCK` where there is none.
    pub pinned_blocks: Vec<u32>,
}

/// A topic entry is registered under these URI bytes.
pub open spec fn topic_matches(m: Seq<u8>, topic: int, uri: Seq<u8>) -> bool {
    &&& memory::u32_at(m, layout::topic_off(topic) + TE_ACTIVE) == TE_STATE_ACTIVE
    &&& memory::u64_at(m, layout::topic_off(topic) + TE_URI_HASH) == layout::fnv(uri)
    &&& memory::u32_at(m, layout::topic_off(topic) + TE_URI_LEN) == uri.len()
    &&& uri.len() <= TE_URI_MAX
    &&& memory::bytes_at(m, layout::topic_off(topic) + TE_URI, uri.len() as int) == uri
}

/// A topic entry is free.
pub open spec fn topic_free(m: Seq<u8>, topic: int) -> bool {
    memory::u32_at(m, layout::topic_off(topic) + TE_ACTIVE) == TE_STATE_FREE
}

/// The first topic, from `from` on, that is registered under these URI bytes.
pub open spec fn find_topic(m: Seq<u8>, from: int, count: int, uri: Seq<u8>) -> Option<int>
    decreases count - from,
{
    if from >= count {
        None
    } else if topic_matches(m, from, uri) {
        Some(from)
    } else {
        find_topic(m, from + 1, count, uri)
    }
}

/// The first free topic entry, from `from` on.
pub open spec fn find_free(m: Seq<u8>, from: int, count: int) -> Option<int>
    decreases count - from,
{
    if from >= count {
        None
    } else if topic_free(m, from) {
        Some(from)
    } else {
        find_free(m, from + 1, count)
    }
}

/// An attempt to claim a topic entry.
pub open spec fn tries_topic(a: Access, topic: int, done: bool) -> bool {
    a matches Access::Exchange32 { off, current, new, found } && {
        &&& off == layout::topic_off(topic) + TE_ACTIVE
        &&& current == TE_STATE_FREE
        &&& new == TE_STATE_INIT
        &&& (found is Ok) == done
    }
}

/// What registering a topic in a claimed entry stores, in this order: the entry
/// counts only when all else is in it.
pub open spec fn topic_stores(topic: int, uri: Seq<u8>, type_size: u32) -> Accesses {
    let off = layout::topic_off(topic);
    seq![
        Access::Word64 { off: off + TE_URI_HASH, v: layout::fnv(uri) },
        Access::Word32 { off: off + TE_URI_LEN, v: uri.len() as u32 },
        Access::Bytes { off: off + TE_URI, data: uri },
        Access::Word64 { off: off + TE_WRITE_SEQ, v: 0 },
        Access::Word32 { off: off + TE_TYPE_SIZE, v: type_size },
        Access::Word32 { off: off + TE_ACTIVE, v: TE_STATE_ACTIVE },
    ]
}

/// What registering a topic does: the entries are tried in turn, and the first one
/// that can be claimed is filled.
pub open spec fn takes_topic(
    ops: Accesses,
    r: Option<u32>,
    count: int,
    uri: Seq<u8>,
    type_size: u32,
) -> bool {
    match r {
        Some(i) => {
            &&& ops.len() == i + 7
            &&& forall|k: int| 0 <= k <= i ==> tries_topic(#[trigger] ops[k], k, k == i)
            &&& ops.subrange(i + 1, i + 7) == topic_stores(i as int, uri, type_size)
        },
        None => {
            &&& ops.len() == count
            &&& forall|k: int| 0 <= k < count ==> tries_topic(#[trigger] ops[k], k, false)
        },
    }
}

/// What looking whether a topic entry is the one of a URI does, and what it tells: the
/// state is looked at, then the hash, then the length, then the URI itself.
pub open spec fn tries_uri(ops: Accesses, topic: int, uri: Seq<u8>, found: bool) -> bool {
    exists|state: u32, rest: Accesses|
        {
            &&& ops == seq![
                Access::Look32 { off: layout::topic_off(topic) + TE_ACTIVE, found: state },
            ] + rest
            &&& #[trigger] tries_entry(rest, topic, state, uri, found)
        }
}

/// What is looked at after the state of a topic entry was seen.
pub open spec fn tries_entry(
    ops: Accesses,
    topic: int,
    state: u32,
    uri: Seq<u8>,
    found: bool,
) -> bool {
    if state != TE_STATE_ACTIVE {
        ops.len() == 0 && !found
    } else {
        exists|hash: u64, rest: Accesses|
            {
                &&& ops == seq![
                    reading::look(layout::topic_off(topic) + TE_URI_HASH, hash),
                ] + rest
                &&& #[trigger] tries_hash(rest, topic, hash, uri, found)
            }
    }
}

/// What is looked at after the hash in an active topic entry was seen.
pub open spec fn tries_hash(
    ops: Accesses,
    topic: int,
    hash: u64,
    uri: Seq<u8>,
    found: bool,
) -> bool {
    if hash != layout::fnv(uri) {
        ops.len() == 0 && !found
    } else {
        exists|len: u32, rest: Accesses|
            {
                &&& ops == seq![
                    Access::Look32 { off: layout::topic_off(topic) + TE_URI_LEN, found: len },
                ] + rest
                &&& #[trigger] tries_text(rest, topic, len, uri, found)
            }
    }
}

/// What is looked at after the length of the URI in a topic entry was seen.
pub open spec fn tries_text(
    ops: Accesses,
    topic: int,
    len: u32,
    uri: Seq<u8>,
    found: bool,
) -> bool {
    if len != uri.len() || len > TE_URI_MAX {
        ops.len() == 0 && !found
    } else {
        &&& ops.len() == 1
        &&& ops[0] matches Access::Copied { off, found: text } && {
            &&& off == layout::topic_off(topic) + TE_URI
            &&& found == (text == uri)
        }
    }
}

/// A look at a topic entry that is not the one of a URI.
pub open spec fn passes_uri(ops: Accesses, topic: int, uri: Seq<u8>) -> bool {
    tries_uri(ops, topic, uri, false)
}

/// What a search for the topic of a URI does, and what it tells: the entries are looked
/// at in turn, up to the first one that is the one of the URI.
pub open spec fn searches(
    parts: Seq<Accesses>,
    count: int,
    uri: Seq<u8>,
    found: Option<u32>,
) -> bool {
    match found {
        Some(i) => {
            &&& parts.len() == i + 1
            &&& passes_each(parts, i as int, uri)
            &&& tries_uri(parts[i as int], i as int, uri, true)
        },
        None => parts.len() == count && passes_each(parts, count, uri),
    }
}

/// The first `n` of these are looks at topic entries that are not the one of a URI.
pub open spec fn passes_each(parts: Seq<Accesses>, n: int, uri: Seq<u8>) -> bool {
    forall|k: int| 0 <= k < n ==> #[trigger] passes_uri(parts[k], k, uri)
}

/// What is done after the search for a URI that is to be registered: one that was found
/// keeps its topic, any other takes an entry.
pub open spec fn takes_unless(
    ops: Accesses,
    found: Option<u32>,
    r: Option<u32>,
    count: int,
    uri: Seq<u8>,
    type_size: u32,
) -> bool {
    if found is Some {
        ops.len() == 0 && r == found
    } else {
        takes_topic(ops, r, count, uri, type_size)
    }
}

/// The looks at a topic after a search has found it, and the stream that is counted: what
/// the stream starts from is what was seen.
pub open spec fn joins_topic(topic: int, last_seq: u64, type_size: u32, was: u32) -> Accesses {
    let off = layout::topic_off(topic);
    seq![
        reading::look(off + TE_WRITE_SEQ, last_seq),
        Access::Look32 { off: off + TE_TYPE_SIZE, found: type_size },
        memory::one_more(off + TE_SUBSCRIBER_COUNT, was),
    ]
}

/// Between two records the topic of a URI was searched and joined.
pub open spec fn joined_topic(
    before: Accesses,
    after: Accesses,
    count: int,
    uri: Seq<u8>,
    topic: u32,
    last_seq: u64,
    type_size: u32,
) -> bool {
    exists|parts: Seq<Accesses>, was: u32|
        {
            &&& after == before + reading::joined(parts) + #[trigger] joins_topic(
                topic as int,
                last_seq,
                type_size,
                was,
            )
            &&& #[trigger] searches(parts, count, uri, Some(topic))
        }
}

/// The topic that was registered, if there is one.
pub open spec fn topic_of(r: Result<Topic, Error>) -> Option<u32> {
    match r {
        Ok(t) => Some(t.topic_idx),
        Err(_) => None,
    }
}

/// The segment with a topic registered in an entry: URI, type size, and no
/// samples yet.
pub open spec fn with_topic(m: Seq<u8>, topic: int, uri: Seq<u8>, type_size: u32) -> Seq<u8> {
    let off = layout::topic_off(topic);
    let m = memory::put64(m, off + TE_URI_HASH, layout::fnv(uri));
    let m = memory::put32(m, off + TE_URI_LEN, uri.len() as u32);
    let m = memory::put(m, off + TE_URI, uri);
    let m = memory::put64(m, off + TE_WRITE_SEQ, 0);
    let m = memory::put32(m, off + TE_TYPE_SIZE, type_size);
    memory::put32(m, off + TE_ACTIVE, TE_STATE_ACTIVE)
}

/// What a publisher holds besides the segment: the warm block and its cache.
pub struct Stock {
    /// The segment.
    pub image: Seq<u8>,
    /// The warm block.
    pub warm: u32,
    /// The cache.
    pub cache: Seq<u32>,
}

/// A cache filled up from the pool as far as it goes.
pub open spec fn refilled(p: PoolLayout, m: Seq<u8>, cache: Seq<u32>) -> (Seq<u8>, Seq<u32>)
    decreases CACHE_SIZE - cache.len(),
{
    if cache.len() >= CACHE_SIZE {
        (m, cache)
    } else {
        match p.alloc_choice(m) {
            None => (m, cache),
            Some(idx) => refilled(p, p.after_alloc(m), cache.push(idx)),
        }
    }
}

/// The block that a publisher takes for its next loan, and what it is left
/// with: first the warm block, then one from the cache, and on an empty cache
/// one from the pool together with up to seven more.
pub open spec fn taken(p: PoolLayout, s: Stock) -> (Option<u32>, Stock) {
    if s.warm != NO_BLOCK {
        (Some(s.warm), Stock { warm: NO_BLOCK, ..s })
    } else if s.cache.len() > 0 {
        (Some(s.cache.last()), Stock { cache: s.cache.drop_last(), ..s })
    } else {
        let (m, cache) = refilled(p, s.image, s.cache);
        if cache.len() > 0 {
            (Some(cache.last()), Stock { image: m, warm: s.warm, cache: cache.drop_last() })
        } else {
            (None, Stock { image: m, warm: s.warm, cache })
        }
    }
}

/// The segment after some blocks were given back in order.
pub open spec fn all_freed(p: PoolLayout, m: Seq<u8>, blocks: Seq<u32>) -> Seq<u8>
    decreases blocks.len(),
{
    if blocks.len() == 0 {
        m
    } else {
        p.after_free(all_freed(p, m, blocks.drop_last()), blocks.last())
    }
}

/// Each of these is what giving the block of the same number back does.
pub open spec fn gives_each(p: PoolLayout, parts: Seq<Accesses>, blocks: Seq<u32>) -> bool {
    &&& parts.len() == blocks.len()
    &&& forall|k: int| 0 <= k < parts.len() ==> #[trigger] p.gives(parts[k], blocks[k])
}

/// Between two records these blocks were given back, in order.
pub open spec fn gave_all(
    p: PoolLayout,
    before: Accesses,
    after: Accesses,
    blocks: Seq<u32>,
) -> bool {
    exists|parts: Seq<Accesses>|
        after == before + reading::joined(parts) && #[trigger] gives_each(p, parts, blocks)
}

/// Nothing was done, and no block was given back.
proof fn lemma_gave_none(p: PoolLayout, before: Accesses)
    ensures
        gave_all(p, before, before, Seq::empty()),
{
    let parts = Seq::<Accesses>::empty();
    assert(gives_each(p, parts, Seq::<u32>::empty()));
    assert(before + reading::joined(parts) =~= before);
}

/// One more block was given back.
proof fn lemma_gave_one<M: SharedMemory>(
    p: PoolLayout,
    before: Accesses,
    mid: M,
    after: M,
    blocks: Seq<u32>,
    block: u32,
)
    requires
        gave_all(p, before, mid.accesses(), blocks),
        p.gave(mid, after, block),
    ensures
        gave_all(p, before, after.accesses(), blocks.push(block)),
{
    let parts = choose|parts: Seq<Accesses>|
        mid.accesses() == before + reading::joined(parts) && #[trigger] gives_each(
            p,
            parts,
            blocks,
        );
    let ops = choose|ops: Accesses|
        after.accesses() == mid.accesses() + ops && #[trigger] p.gives(ops, block);
    let longer = parts.push(ops);
    let more = blocks.push(block);
    assert forall|k: int| 0 <= k < longer.len() implies #[trigger] p.gives(longer[k], more[k]) by {
        if k < parts.len() {
            assert(p.gives(parts[k], blocks[k]));
        }
    }
    reading::lemma_joined_push(parts, ops);
    assert(after.accesses() =~= before + reading::joined(longer));
    assert(gives_each(p, longer, more));
}

/// The pinned blocks among the entries of a table.
pub open spec fn named(blocks: Seq<u32>) -> Seq<u32> {
    blocks.filter(|b: u32| b != NO_BLOCK)
}

/// Where a publisher has a pinned block, the entry of the topic names it.
pub open spec fn pins_agree(m: Seq<u8>, pins: Seq<u32>) -> bool {
    forall|t: int|
        0 <= t < pins.len() && #[trigger] pins[t] != NO_BLOCK ==> region::pinned_block_of(m, t)
            == pins[t]
}

/// What leaves the topic table alone keeps the pinned blocks.
pub proof fn lemma_pins_kept(c: PubSubConfig, m: Seq<u8>, n: Seq<u8>, pins: Seq<u32>)
    requires
        layout::valid_config(c),
        layout::region_size(c) <= m.len(),
        m.len() == n.len(),
        pins.len() == c.max_topics,
        pins_agree(m, pins),
        forall|i: int|
            layout::HEADER_SIZE <= i < layout::ring_base_spec(c) ==> #[trigger] n[i] == m[i],
    ensures
        pins_agree(n, pins),
{
    layout::lemma_layout(c);
    assert forall|t: int| 0 <= t < pins.len() && #[trigger] pins[t] != NO_BLOCK implies
        region::pinned_block_of(n, t) == pins[t] by {
        layout::lemma_topic(c, t);
        assert(region::pinned_block_of(m, t) == pins[t]);
    }
}

/// A store behind the topic table keeps the pinned blocks.
pub proof fn lemma_back_store_keeps_pins(
    c: PubSubConfig,
    m: Seq<u8>,
    off: int,
    b: Seq<u8>,
    pins: Seq<u32>,
)
    requires
        layout::valid_config(c),
        layout::region_size(c) <= m.len(),
        layout::ring_base_spec(c) <= off,
        off + b.len() <= m.len(),
        pins.len() == c.max_topics,
        pins_agree(m, pins),
    ensures
        pins_agree(memory::put(m, off, b), pins),
        memory::put(m, off, b).len() == m.len(),
{
    layout::lemma_layout(c);
    lemma_pins_kept(c, m, memory::put(m, off, b), pins);
}

/// Two topic entries do not overlap.
pub proof fn lemma_topics_apart(a: int, b: int)
    ensures
        a < b ==> layout::topic_off(a) + layout::TOPIC_ENTRY_SIZE <= layout::topic_off(b),
        b < a ==> layout::topic_off(b) + layout::TOPIC_ENTRY_SIZE <= layout::topic_off(a),
{
}

/// A store in a topic entry, beside the pinned block, keeps the pinned blocks.
#[verifier::rlimit(40)]
pub proof fn lemma_topic_store_keeps_pins(
    c: PubSubConfig,
    m: Seq<u8>,
    topic: int,
    at: int,
    b: Seq<u8>,
    pins: Seq<u32>,
)
    requires
        layout::valid_config(c),
        layout::region_size(c) <= m.len(),
        0 <= topic < c.max_topics,
        0 <= at,
        at + b.len() <= layout::TE_PINNED_BLOCK || layout::TE_PINNED_BLOCK + 4 <= at,
        at + b.len() <= layout::TOPIC_ENTRY_SIZE,
        pins.len() == c.max_topics,
        pins_agree(m, pins),
    ensures
        pins_agree(memory::put(m, layout::topic_off(topic) + at, b), pins),
        memory::put(m, layout::topic_off(topic) + at, b).len() == m.len(),
{
    let n = memory::put(m, layout::topic_off(topic) + at, b);
    layout::lemma_layout(c);
    layout::lemma_topic(c, topic);
    assert forall|t: int| 0 <= t < pins.len() && #[trigger] pins[t] != NO_BLOCK implies
        region::pinned_block_of(n, t) == pins[t] by {
        layout::lemma_topic(c, t);
        assert(region::pinned_block_of(m, t) == pins[t]);
        lemma_topics_apart(t, topic);
        let o = layout::topic_off(t) + layout::TE_PINNED_BLOCK;
        assert(n[o] == m[o] && n[o + 1] == m[o + 1] && n[o + 2] == m[o + 2] && n[o + 3] == m[o
            + 3]);
    }
}

/// Registering a topic keeps the pinned blocks.
proof fn lemma_topic_keeps_pins(
    c: PubSubConfig,
    m: Seq<u8>,
    topic: int,
    uri: Seq<u8>,
    type_size: u32,
    pins: Seq<u32>,
)
    requires
        layout::valid_config(c),
        layout::region_size(c) <= m.len(),
        0 <= topic < c.max_topics,
        uri.len() <= TE_URI_MAX,
        pins.len() == c.max_topics,
        pins_agree(m, pins),
    ensures
        pins_agree(with_topic(m, topic, uri, type_size), pins),
{
    let off = layout::topic_off(topic);
    let hash = memory::le64(layout::fnv(uri));
    let len = memory::le32(uri.len() as u32);
    lemma_topic_store_keeps_pins(c, m, topic, TE_URI_HASH as int, hash, pins);
    let m = memory::put(m, off + TE_URI_HASH, hash);
    lemma_topic_store_keeps_pins(c, m, topic, TE_URI_LEN as int, len, pins);
    let m = memory::put(m, off + TE_URI_LEN, len);
    lemma_topic_store_keeps_pins(c, m, topic, TE_URI as int, uri, pins);
    let m = memory::put(m, off + TE_URI, uri);
    lemma_topic_store_keeps_pins(c, m, topic, TE_WRITE_SEQ as int, memory::le64(0), pins);
    let m = memory::put(m, off + TE_WRITE_SEQ, memory::le64(0));
    lemma_topic_store_keeps_pins(
        c,
        m,
        topic,
        TE_TYPE_SIZE as int,
        memory::le32(type_size),
        pins,
    );
    let m = memory::put(m, off + TE_TYPE_SIZE, memory::le32(type_size));
    lemma_topic_store_keeps_pins(
        c,
        m,
        topic,
        TE_ACTIVE as int,
        memory::le32(TE_STATE_ACTIVE),
        pins,
    );
}

/// The segment after a heartbeat at this time.
pub open spec fn with_heartbeat(m: Seq<u8>, now: u64) -> Seq<u8> {
    memory::put64(
        m,
        layout::GH_HEARTBEAT as int,
        memory::larger_u64(memory::u64_at(m, layout::GH_HEARTBEAT as int), now),
    )
}

impl<M: SharedMemory> ShmPublisher<M> {
    /// The segment is sound, every block that the publisher holds exists, and a
    /// pinned block is the one that the entry of its topic names.
    pub open spec fn wf(&self) -> bool {
        &&& self.region.wf()
        &&& self.block_cache@.len() <= CACHE_SIZE
        &&& forall|i: int|
            0 <= i < self.block_cache@.len() ==> #[trigger] self.block_cache@[i]
                < self.region.config.block_count
        &&& self.pinned_blocks@.len() == self.region.config.max_topics
        &&& forall|i: int|
            0 <= i < self.pinned_blocks@.len() ==> #[trigger] self.pinned_blocks@[i] == NO_BLOCK
                || self.pinned_blocks@[i] < self.region.config.block_count
        &&& self.region.mem.exclusive() ==> pins_agree(
            self.region.mem.image(),
            self.pinned_blocks@,
        )
    }

    /// The cached and the pinned blocks are blocks of a segment with the given
    /// configuration.
    pub open spec fn holds_blocks_of(&self, c: PubSubConfig) -> bool {
        &&& self.block_cache@.len() <= CACHE_SIZE
        &&& forall|i: int|
            0 <= i < self.block_cache@.len() ==> #[trigger] self.block_cache@[i] < c.block_count
        &&& self.pinned_blocks@.len() == c.max_topics
        &&& forall|i: int|
            0 <= i < self.pinned_blocks@.len() ==> #[trigger] self.pinned_blocks@[i] == NO_BLOCK
                || self.pinned_blocks@[i] < c.block_count
    }

    /// What the publisher holds.
    pub open spec fn stock(&self) -> Stock {
        Stock {
            image: self.region.mem.image(),
            warm: self.region.last_freed,
            cache: self.block_cache@,
        }
    }

    /// `other` is the same publisher, of the same segment, at a later moment.
    pub open spec fn same_publisher(&self, other: &Self) -> bool {
        &&& self.region.same_segment(&other.region)
        &&& other.is_owner == self.is_owner
        &&& other.id == self.id
    }

    /// The size of the segment that `create` needs, or why there can be none
    /// of this name and configuration.
    pub fn plan(name: &str, config: &PubSubConfig) -> (r: Result<usize, Error>)
        ensures
            r matches Ok(n) ==> layout::valid_segment_name(name@) && layout::valid_config(*config)
                && n == layout::region_size(*config),
            !layout::valid_segment_name(name@) ==> (r matches Err(Error::SegmentNameInvalid(n))
                && n@ == name@),
            layout::valid_segment_name(name@) ==> match header::config_fault(*config) {
                Some(f) => r matches Err(e) && header::reports_config_fault(e, f),
                None => r is Ok,
            },
    {
        match validate_name(name) {
            Err(e) => Err(e),
            Ok(()) => match check_config(config) {
                Ok(n) => Ok(n),
                Err(f) => Err(config_error(f)),
            },
        }
    }

    /// Creates a segment in `mem`, which must be fresh and large enough, and its
    /// first publisher.
    pub fn create(
        name: &str,
        config: PubSubConfig,
        mem: M,
        pid: u64,
        id: u64,
        clock: Clock,
    ) -> (r: Result<ShmPublisher<M>, Error>)
        requires
            layout::region_size(config) <= mem.image().len() <= usize::MAX,
        ensures
            !layout::valid_segment_name(name@) ==> (r matches Err(Error::SegmentNameInvalid(n))
                && n@ == name@),
            layout::valid_segment_name(name@) ==> match header::config_fault(config) {
                Some(f) => r matches Err(e) && header::reports_config_fault(e, f),
                None => match clock.wall_us {
                    None => r matches Err(e) && e is ClockError,
                    Some(_) => r is Ok,
                },
            },
            r matches Ok(p) ==> {
                &&& p.wf()
                &&& p.region.config == config
                &&& p.region.last_freed == NO_BLOCK
                &&& p.is_owner
                &&& p.id == id
                &&& p.last_heartbeat == clock.mono_us
                &&& p.loan_count == 0
                &&& p.block_cache@ == Seq::<u32>::empty()
                &&& p.pinned_blocks@ == Seq::new(config.max_topics as nat, |i: int| NO_BLOCK)
                &&& p.region.mem.exclusive() == mem.exclusive()
                &&& mem.exclusive() ==> p.region.mem.image() == header::created(
                    config,
                    mem.image(),
                    pid,
                    clock.wall_us->0,
                )
            },
    {
        match Self::plan(name, &config) {
            Err(e) => Err(e),
            Ok(_) => match Region::create(mem, config, pid, clock.wall_us) {
                Err(e) => Err(e),
                Ok(region) => Ok(Self::over(region, true, id, clock.mono_us)),
            },
        }
    }

    /// A publisher over a segment, with nothing taken from it yet.
    fn over(region: Region<M>, is_owner: bool, id: u64, now: u64) -> (r: ShmPublisher<M>)
        requires
            region.wf(),
        ensures
            r.wf(),
            r.region == region,
            r.is_owner == is_owner,
            r.id == id,
            r.last_heartbeat == now,
            r.loan_count == 0,
            r.block_cache@ == Seq::<u32>::empty(),
            r.pinned_blocks@ == Seq::new(region.config.max_topics as nat, |i: int| NO_BLOCK),
    {
        let n: usize = region.config.max_topics as usize;
        proof {
            layout::lemma_layout(region.config);
        }
        let pinned_blocks: Vec<u32> = vec![NO_BLOCK; n];
        assert(pinned_blocks@ =~= Seq::new(region.config.max_topics as nat, |i: int| NO_BLOCK));
        ShmPublisher {
            region,
            is_owner,
            id,
            last_heartbeat: now,
            loan_count: 0,
            block_cache: Vec::new(),
            pinned_blocks,
        }
    }

    /// Opens an existing segment as a further publisher.
    pub fn open(name: &str, mem: M, id: u64, clock: Clock) -> (r: Result<ShmPublisher<M>, Error>)
        ensures
            !layout::valid_segment_name(name@) ==> (r matches Err(Error::SegmentNameInvalid(n))
                && n@ == name@),
            r matches Ok(p) ==> {
                &&& layout::valid_segment_name(name@)
                &&& p.wf()
                &&& p.region.mem == mem
                &&& p.region.last_freed == NO_BLOCK
                &&& !p.is_owner
                &&& p.id == id
                &&& p.last_heartbeat == clock.mono_us
                &&& p.loan_count == 0
                &&& p.block_cache@ == Seq::<u32>::empty()
                &&& p.pinned_blocks@ == Seq::new(
                    p.region.config.max_topics as nat,
                    |i: int| NO_BLOCK,
                )
            },
            layout::valid_segment_name(name@) && mem.exclusive() ==> match header::header_fault(
                mem.image(),
            ) {
                Some(f) => r matches Err(e) && header::reports_header_fault(e, f),
                None => {
                    let c = header::header_config(mem.image());
                    let beat = memory::u64_at(mem.image(), layout::GH_HEARTBEAT as int);
                    match clock.wall_us {
                        None => r matches Err(e) && e is ClockError,
                        Some(t) => if t > beat + c.stale_timeout_us {
                            r matches Err(e) && e is PublisherDead
                        } else {
                            r matches Ok(p) && p.region.config == c
                        },
                    }
                },
            },
    {
        match validate_name(name) {
            Err(e) => Err(e),
            Ok(()) => match Region::open(mem, clock.wall_us) {
                Err(e) => Err(e),
                Ok(region) => Ok(Self::over(region, false, id, clock.mono_us)),
            },
        }
    }

    /// Takes a block: the warm one, one from the cache, or, with the cache
    /// empty, one from the pool, from which the cache is filled up first.
    fn alloc_cached(&mut self) -> (r: Option<u32>)
        requires
            old(self).wf(),
        ensures
            final(self).wf(),
            old(self).same_publisher(final(self)),
            final(self).last_heartbeat == old(self).last_heartbeat,
            final(self).loan_count == old(self).loan_count,
            final(self).pinned_blocks == old(self).pinned_blocks,
            r matches Some(idx) ==> idx < old(self).region.config.block_count,
            old(self).region.mem.exclusive() ==> (r, final(self).stock()) == taken(
                layout::pool_of(old(self).region.config),
                old(self).stock(),
            ),
    {
        let ghost p = layout::pool_of(self.region.config);
        if let Some(idx) = self.region.alloc_recycled() {
            return Some(idx);
        }
        if self.block_cache.len() > 0 {
            return self.block_cache.pop();
        }
        let mut more: bool = true;
        while more && self.block_cache.len() < CACHE_SIZE
            invariant
                self.wf(),
                old(self).same_publisher(self),
                self.last_heartbeat == old(self).last_heartbeat,
                self.loan_count == old(self).loan_count,
                self.pinned_blocks == old(self).pinned_blocks,
                self.region.last_freed == NO_BLOCK,
                p == layout::pool_of(self.region.config),
                self.region.mem.exclusive() ==> {
                    let end = refilled(p, old(self).region.mem.image(), old(self).block_cache@);
                    if more {
                        refilled(p, self.region.mem.image(), self.block_cache@) == end
                    } else {
                        (self.region.mem.image(), self.block_cache@) == end
                    }
                },
            decreases (if more { 1int } else { 0int }), CACHE_SIZE - self.block_cache@.len(),
        {
            match self.region.alloc_block() {
                Some(idx) => {
                    self.block_cache.push(idx);
                },
                None => {
                    more = false;
                },
            }
        }
        self.block_cache.pop()
    }

    /// Whether the next loan will look at the clock.
    pub fn clock_due(&self) -> (r: bool)
        ensures
            r == (memory::wrapping_sum_u32(self.loan_count, 1) % 1024 == 0),
    {
        self.loan_count.wrapping_add(1) % 1024 == 0
    }

    /// What every loan begins with: the topic must be one of this publisher,
    /// every 1024th loan renews a heartbeat that is due, and a block is taken.
    fn loan_preamble(&mut self, handle: &Topic, clock: Clock) -> (r: Result<u32, Error>)
        requires
            old(self).wf(),
        ensures
            final(self).wf(),
            old(self).same_publisher(final(self)),
            final(self).pinned_blocks == old(self).pinned_blocks,
            r matches Ok(idx) ==> idx < old(self).region.config.block_count,
            handle.publisher_id != old(self).id ==> *final(self) == *old(self) && (r matches Err(e)
                && e is HandleMismatch),
            handle.publisher_id == old(self).id ==> {
                &&& final(self).loan_count == memory::wrapping_sum_u32(old(self).loan_count, 1)
                &&& r matches Err(e) ==> e is PoolExhausted
                &&& final(self).last_heartbeat == (if old(self).beats(clock) {
                    clock.mono_us
                } else {
                    old(self).last_heartbeat
                })
            },
            handle.publisher_id == old(self).id && old(self).region.mem.exclusive() ==> {
                let (block, stock) = taken(
                    layout::pool_of(old(self).region.config),
                    old(self).stock_after_beat(clock),
                );
                &&& final(self).stock() == stock
                &&& match block {
                    Some(idx) => r == Ok::<u32, Error>(idx),
                    None => r is Err,
                }
            },
    {
        if handle.publisher_id != self.id {
            return Err(Error::HandleMismatch);
        }
        self.loan_count = self.loan_count.wrapping_add(1);
        if self.loan_count % 1024 == 0 && clock.mono_us.saturating_sub(self.last_heartbeat)
            >= self.region.config.heartbeat_interval_us {
            if self.region.update_heartbeat(clock.wall_us).is_ok() {
                self.last_heartbeat = clock.mono_us;
            }
        }
        match self.alloc_cached() {
            Some(idx) => Ok(idx),
            None => Err(Error::PoolExhausted),
        }
    }

    /// The next loan renews the heartbeat: its number is a multiple of 1024,
    /// the last heartbeat is at least one interval ago, and the time is known.
    pub open spec fn beats(&self, clock: Clock) -> bool {
        &&& memory::wrapping_sum_u32(self.loan_count, 1) % 1024 == 0
        &&& (if clock.mono_us < self.last_heartbeat {
            0
        } else {
            clock.mono_us - self.last_heartbeat
        }) >= self.region.config.heartbeat_interval_us
        &&& clock.wall_us is Some
    }

    /// What the publisher holds once the heartbeat of the next loan is done.
    pub open spec fn stock_after_beat(&self, clock: Clock) -> Stock {
        if self.beats(clock) {
            Stock {
                image: with_heartbeat(self.region.mem.image(), clock.wall_us->0),
                ..self.stock()
            }
        } else {
            self.stock()
        }
    }

    /// Registers a topic without a type.
    pub fn register(&mut self, uri: &str) -> (r: Result<Topic, Error>)
        requires
            old(self).wf(),
        ensures
            final(self).wf(),
            old(self).same_publisher(final(self)),
            final(self).region.last_freed == old(self).region.last_freed,
            final(self).block_cache == old(self).block_cache,
            final(self).pinned_blocks == old(self).pinned_blocks,
            final(self).loan_count == old(self).loan_count,
            final(self).last_heartbeat == old(self).last_heartbeat,
            old(self).registered(final(self), uri@, 0, r),
    {
        self.register_inner(uri, 0)
    }

    /// Registers a topic whose samples are values of a plain type.
    pub fn register_typed<T: Pod>(&mut self, uri: &str) -> (r: Result<Topic, Error>)
        requires
            old(self).wf(),
            T::size() <= u32::MAX,
        ensures
            final(self).wf(),
            old(self).same_publisher(final(self)),
            final(self).region.last_freed == old(self).region.last_freed,
            final(self).block_cache == old(self).block_cache,
            final(self).pinned_blocks == old(self).pinned_blocks,
            final(self).loan_count == old(self).loan_count,
            final(self).last_heartbeat == old(self).last_heartbeat,
            T::align() > 8 ==> *final(self) == *old(self) && (r matches Err(
                Error::AlignmentError { align, max },
            ) && align == T::align() && max == 8),
            T::align() <= 8 ==> old(self).registered(final(self), uri@, T::size() as u32, r),
    {
        if T::align_of() > 8 {
            return Err(Error::AlignmentError { align: T::align_of(), max: 8 });
        }
        self.register_inner(uri, T::size_of() as u32)
    }

    /// What registering does: a URI that is too long is refused; a URI that is
    /// registered keeps its topic; any other takes the first free entry, if
    /// there is one.
    pub open spec fn registered(
        &self,
        after: &Self,
        uri: Seq<char>,
        type_size: u32,
        r: Result<Topic, Error>,
    ) -> bool {
        let b = vstd::utf8::encode_utf8(uri);
        let n = self.region.config.max_topics as int;
        let m = self.region.mem.image();
        &&& r matches Ok(t) ==> t.publisher_id == self.id && t.topic_idx < n
        &&& b.len() > TE_URI_MAX ==> {
            &&& after.region.mem == self.region.mem
            &&& r matches Err(Error::UriTooLong { len, max })
            &&& len == b.len()
            &&& max == TE_URI_MAX
        }
        &&& b.len() <= TE_URI_MAX ==> (r matches Err(e) ==> e is MaxTopicsReached)
        &&& b.len() <= TE_URI_MAX ==> {
            exists|parts: Seq<Accesses>, ops: Accesses, found: Option<u32>|
                {
                    &&& after.region.mem.accesses() == self.region.mem.accesses()
                        + reading::joined(parts) + ops
                    &&& #[trigger] searches(parts, n, b, found)
                    &&& #[trigger] takes_unless(ops, found, topic_of(r), n, b, type_size)
                }
        }
        &&& b.len() <= TE_URI_MAX && self.region.mem.exclusive() ==> match find_topic(m, 0, n, b) {
            Some(i) => {
                &&& r matches Ok(t)
                &&& t.topic_idx == i
                &&& after.region.mem.image() == m
            },
            None => match find_free(m, 0, n) {
                Some(i) => {
                    &&& r matches Ok(t)
                    &&& t.topic_idx == i
                    &&& after.region.mem.image() == with_topic(m, i, b, type_size)
                },
                None => r is Err && after.region.mem.image() == m,
            },
        }
    }

    fn register_inner(&mut self, uri: &str, type_size: u32) -> (r: Result<Topic, Error>)
        requires
            old(self).wf(),
        ensures
            final(self).wf(),
            old(self).same_publisher(final(self)),
            final(self).region.last_freed == old(self).region.last_freed,
            final(self).block_cache == old(self).block_cache,
            final(self).pinned_blocks == old(self).pinned_blocks,
            final(self).loan_count == old(self).loan_count,
            final(self).last_heartbeat == old(self).last_heartbeat,
            old(self).registered(final(self), uri@, type_size, r),
    {
        let b: &[u8] = bytes_of(uri);
        if b.len() > TE_URI_MAX {
            return Err(Error::UriTooLong { len: b.len(), max: TE_URI_MAX });
        }
        let id: u64 = self.id;
        let hash: u64 = uri_hash(uri);
        let ghost first = self.region.mem.accesses();
        let ghost n = self.region.config.max_topics as int;
        let found: Option<u32> = lookup_topic(&mut self.region, b, hash);
        let ghost parts = choose|parts: Seq<Accesses>|
            self.region.mem.accesses() == first + reading::joined(parts) && #[trigger] searches(
                parts,
                n,
                b@,
                found,
            );
        if let Some(topic_idx) = found {
            proof {
                let none = Seq::<Access>::empty();
                assert(takes_unless(none, found, Some(topic_idx), n, b@, type_size));
                assert(self.region.mem.accesses() =~= first + reading::joined(parts) + none);
            }
            return Ok(Topic { topic_idx, publisher_id: id });
        }
        let ghost looked = self.region.mem.accesses();
        let claimed: Option<u32> = self.claim_topic(b, hash, type_size);
        let r: Result<Topic, Error> = match claimed {
            Some(topic_idx) => Ok(Topic { topic_idx, publisher_id: id }),
            None => Err(Error::MaxTopicsReached),
        };
        proof {
            let ops = choose|ops: Accesses|
                self.region.mem.accesses() == looked + ops && #[trigger] takes_topic(
                    ops,
                    claimed,
                    n,
                    b@,
                    type_size,
                );
            assert(topic_of(r) == claimed);
            assert(takes_unless(ops, found, topic_of(r), n, b@, type_size));
        }
        r
    }

    /// Takes the first free topic entry and registers a topic in it.
    fn claim_topic(&mut self, uri: &[u8], hash: u64, type_size: u32) -> (r: Option<u32>)
        requires
            old(self).wf(),
            uri@.len() <= TE_URI_MAX,
            hash == layout::fnv(uri@),
        ensures
            final(self).wf(),
            old(self).same_publisher(final(self)),
            final(self).region.last_freed == old(self).region.last_freed,
            final(self).block_cache == old(self).block_cache,
            final(self).pinned_blocks == old(self).pinned_blocks,
            final(self).loan_count == old(self).loan_count,
            final(self).last_heartbeat == old(self).last_heartbeat,
            r matches Some(i) ==> i < old(self).region.config.max_topics,
            exists|ops: Accesses|
                {
                    &&& final(self).region.mem.accesses() == old(self).region.mem.accesses() + ops
                    &&& #[trigger] takes_topic(
                        ops,
                        r,
                        old(self).region.config.max_topics as int,
                        uri@,
                        type_size,
                    )
                },
            old(self).region.mem.exclusive() ==> match find_free(
                old(self).region.mem.image(),
                0,
                old(self).region.config.max_topics as int,
            ) {
                Some(i) => {
                    &&& r matches Some(j)
                    &&& i == j
                    &&& final(self).region.mem.image() == with_topic(
                        old(self).region.mem.image(),
                        i,
                        uri@,
                        type_size,
                    )
                },
                None => r is None && final(self).region.mem.image() == old(
                    self,
                ).region.mem.image(),
            },
    {
        let n: u32 = self.region.config.max_topics;
        let ghost mut tries: Accesses = Seq::empty();
        assert(old(self).region.mem.accesses() + tries =~= old(self).region.mem.accesses());
        let mut i: u32 = 0;
        while i < n
            invariant
                self.wf(),
                uri@.len() <= TE_URI_MAX,
                hash == layout::fnv(uri@),
                old(self).same_publisher(self),
                self.region.last_freed == old(self).region.last_freed,
                self.block_cache == old(self).block_cache,
                self.pinned_blocks == old(self).pinned_blocks,
                self.loan_count == old(self).loan_count,
                self.last_heartbeat == old(self).last_heartbeat,
                n == self.region.config.max_topics,
                i <= n,
                self.region.mem.accesses() == old(self).region.mem.accesses() + tries,
                tries.len() == i,
                forall|k: int| 0 <= k < i ==> tries_topic(#[trigger] tries[k], k, false),
                self.region.mem.exclusive() ==> {
                    &&& self.region.mem.image() == old(self).region.mem.image()
                    &&& find_free(self.region.mem.image(), i as int, n as int) == find_free(
                        old(self).region.mem.image(),
                        0,
                        n as int,
                    )
                },
            decreases n - i,
        {
            proof {
                layout::lemma_layout(self.region.config);
                layout::lemma_topic(self.region.config, i as int);
            }
            let off: usize = topic_entry_off(i);
            let ghost m = self.region.mem.image();
            let swapped: Result<u32, u32> = self.region.mem.compare_exchange_u32(
                off + TE_ACTIVE,
                TE_STATE_FREE,
                TE_STATE_INIT,
            );
            proof {
                tries = tries.push(
                    Access::Exchange32 {
                        off: layout::topic_off(i as int) + TE_ACTIVE,
                        current: TE_STATE_FREE,
                        new: TE_STATE_INIT,
                        found: swapped,
                    },
                );
                assert(self.region.mem.accesses() =~= old(self).region.mem.accesses() + tries);
            }
            if swapped.is_ok() {
                self.region.mem.store_u64(off + TE_URI_HASH, hash);
                self.region.mem.store_u32(off + TE_URI_LEN, uri.len() as u32);
                self.region.mem.write(off + TE_URI, uri);
                self.region.mem.store_u64(off + TE_WRITE_SEQ, 0);
                self.region.mem.store_u32(off + TE_TYPE_SIZE, type_size);
                self.region.mem.store_u32(off + TE_ACTIVE, TE_STATE_ACTIVE);
                proof {
                    let stores = topic_stores(i as int, uri@, type_size);
                    let ops = tries + stores;
                    assert(self.region.mem.accesses() =~= old(self).region.mem.accesses() + ops);
                    assert(ops.subrange(i + 1, i + 7) =~= stores);
                    assert(takes_topic(ops, Some(i), n as int, uri@, type_size));
                    if self.region.mem.exclusive() {
                        assert(self.region.mem.image() =~= with_topic(
                            m,
                            i as int,
                            uri@,
                            type_size,
                        ));
                        lemma_topic_keeps_pins(
                            self.region.config,
                            m,
                            i as int,
                            uri@,
                            type_size,
                            self.pinned_blocks@,
                        );
                    }
                }
                return Some(i);
            }
            i = i + 1;
        }
        assert(takes_topic(tries, None, n as int, uri@, type_size));
        None
    }

    /// Number of live subscribers of a topic.
    pub fn subscriber_count(&self, topic: &Topic) -> (r: u32)
        requires
            self.wf(),
            topic.topic_idx < self.region.config.max_topics,
        ensures
            self.region.mem.exclusive() ==> r == memory::u32_at(
                self.region.mem.image(),
                layout::topic_off(topic.topic_idx as int) + TE_SUBSCRIBER_COUNT,
            ),
    {
        proof {
            layout::lemma_layout(self.region.config);
            layout::lemma_topic(self.region.config, topic.topic_idx as int);
        }
        let off: usize = topic_entry_off(topic.topic_idx);
        self.region.mem.load_u32(off + TE_SUBSCRIBER_COUNT)
    }

    /// Tells subscribers that the publisher is alive.
    pub fn heartbeat(&mut self, clock: Clock) -> (r: Result<(), Error>)
        requires
            old(self).wf(),
        ensures
            final(self).wf(),
            old(self).same_publisher(final(self)),
            final(self).region.last_freed == old(self).region.last_freed,
            final(self).block_cache == old(self).block_cache,
            final(self).pinned_blocks == old(self).pinned_blocks,
            final(self).loan_count == old(self).loan_count,
            clock.wall_us is Some <==> r is Ok,
            r matches Err(e) ==> e is ClockError && *final(self) == *old(self),
            r is Ok ==> final(self).last_heartbeat == clock.mono_us,
            r is Ok ==> exists|was: u64|
                final(self).region.mem.accesses() == old(self).region.mem.accesses().push(
                    #[trigger] memory::raised(layout::GH_HEARTBEAT as int, clock.wall_us->0, was),
                ),
            r is Ok && old(self).region.mem.exclusive() ==> final(self).region.mem.image()
                == with_heartbeat(old(self).region.mem.image(), clock.wall_us->0),
    {
        match self.region.update_heartbeat(clock.wall_us) {
            Err(e) => Err(e),
            Ok(()) => {
                self.last_heartbeat = clock.mono_us;
                Ok(())
            },
        }
    }

    /// Loans a block for writing a sample of a topic.
    pub fn loan(&mut self, handle: &Topic, clock: Clock) -> (r: Result<Loan<'_, M>, Error>)
        requires
            old(self).wf(),
            handle.publisher_id == old(self).id ==> handle.topic_idx
                < old(self).region.config.max_topics,
        ensures
            old(self).loaned(
                final(self),
                *handle,
                clock,
                match r {
                    Ok(l) => Ok(l.block_idx),
                    Err(e) => Err(e),
                },
                match r {
                    Ok(l) => Some((*l.region, *final(l.region))),
                    Err(_) => None,
                },
            ),
            r matches Ok(l) ==> {
                &&& l.wf()
                &&& l.len == 0
                &&& l.topic_idx == handle.topic_idx
                &&& l.single_publisher == old(self).is_owner
            },
    {
        let block_idx: u32 = match self.loan_preamble(handle, clock) {
            Ok(idx) => idx,
            Err(e) => {
                return Err(e);
            },
        };
        let capacity: usize = self.region.data_capacity();
        let single_publisher: bool = self.is_owner;
        Ok(
            Loan {
                region: &mut self.region,
                capacity,
                len: 0,
                block_idx,
                topic_idx: handle.topic_idx,
                single_publisher,
            },
        )
    }

    /// What every loan does to the publisher. `borrowed` is the segment as the
    /// loan finds it and as the loan leaves it, if there is a loan.
    pub open spec fn loaned(
        &self,
        after: &Self,
        handle: Topic,
        clock: Clock,
        r: Result<u32, Error>,
        borrowed: Option<(Region<M>, Region<M>)>,
    ) -> bool {
        let start = match borrowed {
            Some(b) => b.0,
            None => after.region,
        };
        &&& after.is_owner == self.is_owner
        &&& after.id == self.id
        &&& after.pinned_blocks == self.pinned_blocks
        &&& self.region.same_segment(&start)
        &&& start.wf()
        &&& after.block_cache@.len() <= CACHE_SIZE
        &&& forall|i: int|
            0 <= i < after.block_cache@.len() ==> #[trigger] after.block_cache@[i]
                < self.region.config.block_count
        &&& borrowed matches Some(b) ==> after.region == b.1
        &&& if handle.publisher_id != self.id {
            &&& *after == *self
            &&& r matches Err(e)
            &&& e is HandleMismatch
        } else {
            &&& r matches Err(e) ==> e is PoolExhausted
            &&& after.loan_count == memory::wrapping_sum_u32(self.loan_count, 1)
            &&& after.last_heartbeat == (if self.beats(clock) {
                clock.mono_us
            } else {
                self.last_heartbeat
            })
            &&& self.region.mem.exclusive() ==> {
                let (block, stock) = taken(
                    layout::pool_of(self.region.config),
                    self.stock_after_beat(clock),
                );
                &&& start.mem.image() == stock.image
                &&& start.last_freed == stock.warm
                &&& after.block_cache@ == stock.cache
                &&& match block {
                    Some(idx) => r == Ok::<u32, Error>(idx),
                    None => r is Err,
                }
            }
        }
    }

    /// Loans a block for one value of a plain type, which must fit in it.
    pub fn loan_typed<T: Pod>(&mut self, handle: &Topic, clock: Clock) -> (r: Result<
        TypedLoan<'_, M, T>,
        Error,
    >)
        requires
            old(self).wf(),
            T::size() <= region::capacity_of(old(self).region.config),
            handle.publisher_id == old(self).id ==> handle.topic_idx
                < old(self).region.config.max_topics,
        ensures
            old(self).loaned(
                final(self),
                *handle,
                clock,
                match r {
                    Ok(l) => Ok(l.block_idx),
                    Err(e) => Err(e),
                },
                match r {
                    Ok(l) => Some((*l.region, *final(l.region))),
                    Err(_) => None,
                },
            ),
            r matches Ok(l) ==> {
                &&& l.wf()
                &&& l.topic_idx == handle.topic_idx
                &&& l.single_publisher == old(self).is_owner
            },
    {
        let block_idx: u32 = match self.loan_preamble(handle, clock) {
            Ok(idx) => idx,
            Err(e) => {
                return Err(e);
            },
        };
        let single_publisher: bool = self.is_owner;
        Ok(
            TypedLoan {
                region: &mut self.region,
                block_idx,
                topic_idx: handle.topic_idx,
                single_publisher,
                marker: PhantomData,
            },
        )
    }

    /// The pinned block of a topic, and what the publisher is left with once it
    /// has one.
    pub open spec fn pinned(&self, topic: int) -> (Option<u32>, Stock) {
        let p = layout::pool_of(self.region.config);
        if self.pinned_blocks@[topic] != NO_BLOCK {
            (Some(self.pinned_blocks@[topic]), self.stock())
        } else {
            match taken(p, self.stock()) {
                (None, s) => (None, s),
                (Some(idx), s) => (
                    Some(idx),
                    Stock {
                        image: memory::put32(
                            s.image,
                            layout::topic_off(topic) + layout::TE_PINNED_BLOCK,
                            idx,
                        ),
                        ..s
                    },
                ),
            }
        }
    }

    /// Loans the pinned block of a topic, which it gets on the first such loan
    /// and keeps. While a subscriber reads it, there is no loan.
    #[verifier::rlimit(40)]
    pub fn loan_pinned(&mut self, handle: &Topic) -> (r: Result<PinnedLoan<'_, M>, Error>)
        requires
            old(self).wf(),
        ensures
            final(self).is_owner == old(self).is_owner,
            final(self).id == old(self).id,
            final(self).loan_count == old(self).loan_count,
            final(self).last_heartbeat == old(self).last_heartbeat,
            handle.publisher_id != old(self).id ==> *final(self) == *old(self) && (r matches Err(e)
                && e is HandleMismatch),
            handle.publisher_id == old(self).id && handle.topic_idx
                >= old(self).region.config.max_topics ==> *final(self) == *old(self) && (
            r matches Err(Error::InvalidRegion(m)) && m@ == "topic_idx "@ + crate::text::decimal(
                handle.topic_idx as nat,
            ) + " >= max_topics "@ + crate::text::decimal(
                old(self).region.config.max_topics as nat,
            )),
            r matches Ok(l) ==> {
                &&& handle.publisher_id == old(self).id
                &&& handle.topic_idx < old(self).region.config.max_topics
                &&& l.wf()
                &&& l.len == 0
                &&& l.topic_idx == handle.topic_idx
                &&& old(self).region.same_segment(&*l.region)
                &&& final(self).region == *final(l.region)
                &&& final(self).holds_blocks_of(old(self).region.config)
                &&& final(self).pinned_blocks@[l.topic_idx as int] == l.block_idx
                &&& l.region.mem.exclusive() ==> pins_agree(
                    l.region.mem.image(),
                    final(self).pinned_blocks@,
                )
                &&& l.region.mem.accesses().len() > 0
                &&& l.region.mem.accesses().last() == (Access::Exchange32 {
                    off: layout::topic_off(l.topic_idx as int) + TE_PINNED_READERS,
                    current: 0,
                    new: PINNED_WRITER_ACTIVE,
                    found: Ok(0),
                })
            },
            r is Err ==> final(self).wf() && old(self).region.same_segment(&final(self).region),
            handle.publisher_id == old(self).id && handle.topic_idx
                < old(self).region.config.max_topics && old(self).region.mem.exclusive() ==> {
                let t = handle.topic_idx as int;
                let (block, stock) = old(self).pinned(t);
                let readers = region::pinned_readers_of(stock.image, t);
                &&& final(self).block_cache@ == stock.cache
                &&& match block {
                    None => {
                        &&& r matches Err(e)
                        &&& e is PoolExhausted
                        &&& final(self).stock() == stock
                        &&& final(self).pinned_blocks@ == old(self).pinned_blocks@
                    },
                    Some(idx) => {
                        &&& final(self).pinned_blocks@ == old(self).pinned_blocks@.update(t, idx)
                        &&& readers == 0 ==> {
                            &&& r matches Ok(l)
                            &&& l.block_idx == idx
                            &&& l.region.last_freed == stock.warm
                            &&& l.region.mem.image() == memory::put32(
                                stock.image,
                                layout::topic_off(t) + TE_PINNED_READERS,
                                PINNED_WRITER_ACTIVE,
                            )
                        }
                        &&& readers != 0 ==> {
                            &&& r matches Err(Error::PinnedReadersActive { count, topic_idx })
                            &&& count == (if readers == PINNED_WRITER_ACTIVE {
                                0
                            } else {
                                readers
                            })
                            &&& topic_idx == t
                            &&& final(self).stock() == stock
                        }
                    },
                }
            },
    {
        if handle.publisher_id != self.id {
            return Err(Error::HandleMismatch);
        }
        let topic_idx: u32 = handle.topic_idx;
        if topic_idx as usize >= self.pinned_blocks.len() {
            let s: String = add_number(text("topic_idx "), topic_idx as u64);
            let s: String = add_text(s, " >= max_topics ");
            return Err(Error::InvalidRegion(add_number(s, self.pinned_blocks.len() as u64)));
        }
        let ghost t = topic_idx as int;
        proof {
            layout::lemma_layout(self.region.config);
            layout::lemma_topic(self.region.config, t);
        }
        let block_idx: u32 = if self.pinned_blocks[topic_idx as usize] != NO_BLOCK {
            self.pinned_blocks[topic_idx as usize]
        } else {
            let idx: u32 = match self.alloc_cached() {
                Some(idx) => idx,
                None => {
                    return Err(Error::PoolExhausted);
                },
            };
            self.pinned_blocks.set(topic_idx as usize, idx);
            self.region.set_pinned_block(topic_idx, idx);
            idx
        };
        assert(self.pinned_blocks@ =~= old(self).pinned_blocks@.update(t, block_idx));
        let off: usize = topic_entry_off(topic_idx);
        match self.region.mem.compare_exchange_u32(
            off + TE_PINNED_READERS,
            0,
            PINNED_WRITER_ACTIVE,
        ) {
            Ok(_) => {},
            Err(current) => {
                let count: u32 = if current == PINNED_WRITER_ACTIVE {
                    0
                } else {
                    current
                };
                return Err(Error::PinnedReadersActive { count, topic_idx });
            },
        }
        let capacity: usize = self.region.data_capacity();
        Ok(PinnedLoan { region: &mut self.region, capacity, len: 0, block_idx, topic_idx })
    }

    /// Gives every block back that the publisher holds: pinned blocks, the warm
    /// block, the cache.
    #[verifier::rlimit(40)]
    pub fn close(&mut self)
        requires
            old(self).wf(),
        ensures
            final(self).wf(),
            old(self).same_publisher(final(self)),
            final(self).region.last_freed == NO_BLOCK,
            final(self).block_cache@ == Seq::<u32>::empty(),
            final(self).pinned_blocks == old(self).pinned_blocks,
            gave_all(
                layout::pool_of(old(self).region.config),
                old(self).region.mem.accesses(),
                final(self).region.mem.accesses(),
                old(self).held_blocks(),
            ),
            old(self).region.mem.exclusive() ==> final(self).region.mem.image() == all_freed(
                layout::pool_of(old(self).region.config),
                old(self).region.mem.image(),
                old(self).held_blocks(),
            ),
    {
        let ghost p = layout::pool_of(self.region.config);
        let ghost m = self.region.mem.image();
        let ghost pins = self.pinned_blocks@;
        let n: usize = self.pinned_blocks.len();
        let mut i: usize = 0;
        assert(named(pins.subrange(0, 0)) =~= Seq::<u32>::empty()) by {
            reveal(Seq::filter);
        }
        let ghost first = self.region.mem.accesses();
        proof {
            lemma_gave_none(p, first);
        }
        while i < n
            invariant
                self.wf(),
                old(self).same_publisher(self),
                self.region.last_freed == old(self).region.last_freed,
                self.block_cache == old(self).block_cache,
                self.pinned_blocks == old(self).pinned_blocks,
                p == layout::pool_of(self.region.config),
                m == old(self).region.mem.image(),
                pins == self.pinned_blocks@,
                n == pins.len(),
                i <= n,
                gave_all(
                    p,
                    first,
                    self.region.mem.accesses(),
                    named(pins.subrange(0, i as int)),
                ),
                self.region.mem.exclusive() ==> self.region.mem.image() == all_freed(
                    p,
                    m,
                    named(pins.subrange(0, i as int)),
                ),
            decreases n - i,
        {
            let b: u32 = self.pinned_blocks[i];
            proof {
                let next = pins.subrange(0, i + 1);
                assert(next.drop_last() =~= pins.subrange(0, i as int));
                reveal(Seq::filter);
                if b != NO_BLOCK {
                    assert(named(next) =~= named(pins.subrange(0, i as int)).push(b));
                    assert(named(next).drop_last() =~= named(pins.subrange(0, i as int)));
                } else {
                    assert(named(next) =~= named(pins.subrange(0, i as int)));
                }
            }
            if b != NO_BLOCK {
                let ghost mid = self.region.mem;
                self.region.free_block(b);
                proof {
                    lemma_gave_one(
                        p,
                        first,
                        mid,
                        self.region.mem,
                        named(pins.subrange(0, i as int)),
                        b,
                    );
                }
            }
            i = i + 1;
        }
        assert(pins.subrange(0, n as int) =~= pins);
        let ghost freed = named(pins);
        let ghost warm = self.region.last_freed;
        let ghost freed2 = if warm != NO_BLOCK {
            freed.push(warm)
        } else {
            freed
        };
        proof {
            if warm != NO_BLOCK {
                assert(freed2.drop_last() =~= freed);
            }
        }
        if let Some(idx) = self.region.alloc_recycled() {
            let ghost mid = self.region.mem;
            self.region.free_block(idx);
            proof {
                lemma_gave_one(p, first, mid, self.region.mem, freed, idx);
            }
        }
        let ghost cache = self.block_cache@;
        let len: usize = self.block_cache.len();
        let mut j: usize = 0;
        assert(freed2 + cache.subrange(0, 0) =~= freed2);
        while j < len
            invariant
                self.wf(),
                old(self).same_publisher(self),
                self.region.last_freed == NO_BLOCK,
                self.block_cache == old(self).block_cache,
                self.pinned_blocks == old(self).pinned_blocks,
                p == layout::pool_of(self.region.config),
                m == old(self).region.mem.image(),
                cache == self.block_cache@,
                len == cache.len(),
                j <= len,
                gave_all(
                    p,
                    first,
                    self.region.mem.accesses(),
                    freed2 + cache.subrange(0, j as int),
                ),
                self.region.mem.exclusive() ==> self.region.mem.image() == all_freed(
                    p,
                    m,
                    freed2 + cache.subrange(0, j as int),
                ),
            decreases len - j,
        {
            proof {
                let next = freed2 + cache.subrange(0, j + 1);
                assert(next.drop_last() =~= freed2 + cache.subrange(0, j as int));
                assert(next.last() == cache[j as int]);
            }
            let ghost mid = self.region.mem;
            self.region.free_block(self.block_cache[j]);
            proof {
                let shorter = freed2 + cache.subrange(0, j as int);
                lemma_gave_one(p, first, mid, self.region.mem, shorter, cache[j as int]);
                assert(freed2 + cache.subrange(0, j + 1) =~= shorter.push(cache[j as int]));
            }
            j = j + 1;
        }
        assert(cache.subrange(0, len as int) =~= cache);
        assert(freed2 + cache =~= old(self).held_blocks());
        self.block_cache = Vec::new();
    }

    /// The blocks that the publisher holds, in the order in which it gives them
    /// back.
    pub open spec fn held_blocks(&self) -> Seq<u32> {
        let pins = named(self.pinned_blocks@);
        let warm = if self.region.last_freed != NO_BLOCK {
            seq![self.region.last_freed]
        } else {
            Seq::<u32>::empty()
        };
        pins + warm + self.block_cache@
    }
}

/// Finds the topic that is registered under some URI bytes.
fn lookup_topic<M: SharedMemory>(region: &mut Region<M>, uri: &[u8], hash: u64) -> (r: Option<
    u32,
>)
    requires
        old(region).wf(),
        hash == layout::fnv(uri@),
    ensures
        final(region).wf(),
        old(region).same_segment(final(region)),
        final(region).last_freed == old(region).last_freed,
        r matches Some(i) ==> i < old(region).config.max_topics,
        exists|parts: Seq<Accesses>|
            {
                &&& final(region).mem.accesses() == old(region).mem.accesses() + reading::joined(
                    parts,
                )
                &&& #[trigger] searches(parts, old(region).config.max_topics as int, uri@, r)
            },
        old(region).mem.exclusive() ==> {
            &&& final(region).mem.image() == old(region).mem.image()
            &&& match find_topic(
                old(region).mem.image(),
                0,
                old(region).config.max_topics as int,
                uri@,
            ) {
                Some(i) => r matches Some(j) && i == j,
                None => r is None,
            }
        },
{
    let n: u32 = region.config.max_topics;
    let mut i: u32 = 0;
    let ghost mut parts: Seq<Accesses> = Seq::empty();
    let ghost first = region.mem.accesses();
    let ghost m = region.mem.image();
    assert(first + reading::joined(parts) =~= first);
    while i < n
        invariant
            region.wf(),
            old(region).same_segment(region),
            region.last_freed == old(region).last_freed,
            hash == layout::fnv(uri@),
            n == region.config.max_topics,
            n == old(region).config.max_topics,
            i <= n,
            first == old(region).mem.accesses(),
            m == old(region).mem.image(),
            parts.len() == i,
            region.mem.accesses() == first + reading::joined(parts),
            passes_each(parts, i as int, uri@),
            region.mem.exclusive() ==> {
                &&& region.mem.image() == m
                &&& find_topic(m, i as int, n as int, uri@) == find_topic(m, 0, n as int, uri@)
            },
        decreases n - i,
    {
        let ghost mid = region.mem.accesses();
        let here: bool = try_topic(region, i, uri, hash);
        proof {
            let ops = choose|ops: Accesses|
                region.mem.accesses() == mid + ops && #[trigger] tries_uri(
                    ops,
                    i as int,
                    uri@,
                    here,
                );
            let longer = parts.push(ops);
            assert forall|k: int| 0 <= k < i implies #[trigger] passes_uri(
                longer[k],
                k,
                uri@,
            ) by {
                assert(passes_uri(parts[k], k, uri@));
            }
            reading::lemma_joined_push(parts, ops);
            assert(region.mem.accesses() =~= first + reading::joined(longer));
            assert(!here ==> passes_uri(longer[i as int], i as int, uri@));
            assert(here ==> searches(longer, n as int, uri@, Some(i)));
            parts = longer;
        }
        if here {
            return Some(i);
        }
        i = i + 1;
    }
    assert(searches(parts, n as int, uri@, None));
    None
}

/// The search and the looks after it, one behind the other, are joining the topic.
proof fn lemma_joined_topic(
    before: Accesses,
    looked: Accesses,
    after: Accesses,
    count: int,
    uri: Seq<u8>,
    topic: u32,
    last_seq: u64,
    type_size: u32,
    was: u32,
)
    requires
        exists|parts: Seq<Accesses>|
            looked == before + reading::joined(parts) && #[trigger] searches(
                parts,
                count,
                uri,
                Some(topic),
            ),
        after =~= looked + joins_topic(topic as int, last_seq, type_size, was),
    ensures
        joined_topic(before, after, count, uri, topic, last_seq, type_size),
{
    let parts = choose|parts: Seq<Accesses>|
        looked == before + reading::joined(parts) && #[trigger] searches(
            parts,
            count,
            uri,
            Some(topic),
        );
    assert(after == before + reading::joined(parts) + joins_topic(
        topic as int,
        last_seq,
        type_size,
        was,
    ));
}

/// Looks whether a topic entry is the one of some URI bytes.
fn try_topic<M: SharedMemory>(region: &mut Region<M>, i: u32, uri: &[u8], hash: u64) -> (r: bool)
    requires
        old(region).wf(),
        i < old(region).config.max_topics,
        hash == layout::fnv(uri@),
    ensures
        final(region).wf(),
        old(region).same_segment(final(region)),
        final(region).last_freed == old(region).last_freed,
        exists|ops: Accesses|
            {
                &&& final(region).mem.accesses() == old(region).mem.accesses() + ops
                &&& #[trigger] tries_uri(ops, i as int, uri@, r)
            },
        old(region).mem.exclusive() ==> {
            &&& final(region).mem.image() == old(region).mem.image()
            &&& r == topic_matches(old(region).mem.image(), i as int, uri@)
        },
{
    proof {
        layout::lemma_layout(region.config);
        layout::lemma_topic(region.config, i as int);
    }
    let ghost first = region.mem.accesses();
    let ghost none = Seq::<Access>::empty();
    let ghost at = layout::topic_off(i as int);
    let ghost mut rest = none;
    let mut found: bool = false;
    let off: usize = topic_entry_off(i);
    let state: u32 = region.mem.look_u32(off + TE_ACTIVE);
    if state == TE_STATE_ACTIVE {
        let seen: u64 = region.mem.look_u64(off + TE_URI_HASH);
        let ghost mut hash_rest = none;
        if seen == hash {
            let len: u32 = region.mem.look_u32(off + TE_URI_LEN);
            let ghost mut text = none;
            if len as usize == uri.len() && len as usize <= TE_URI_MAX {
                let b: Vec<u8> = region.mem.copy(off + TE_URI, len as usize);
                found = memory::same_bytes(b.as_slice(), uri);
                proof {
                    text = seq![Access::Copied { off: at + TE_URI, found: b@ }];
                }
            }
            proof {
                assert(tries_text(text, i as int, len, uri@, found));
                hash_rest = seq![Access::Look32 { off: at + TE_URI_LEN, found: len }] + text;
            }
        }
        proof {
            assert(tries_hash(hash_rest, i as int, seen, uri@, found));
            rest = seq![reading::look(at + TE_URI_HASH, seen)] + hash_rest;
        }
    }
    proof {
        let ops = seq![Access::Look32 { off: at + TE_ACTIVE, found: state }] + rest;
        assert(tries_entry(rest, i as int, state, uri@, found));
        assert(tries_uri(ops, i as int, uri@, found));
        assert(region.mem.accesses() =~= first + ops);
    }
    found
}

/// Reads the samples of a segment.
pub struct ShmSubscriber<M: SharedMemory> {
    /// The segment.
    pub region: Region<M>,
}

impl<M: SharedMemory> ShmSubscriber<M> {
    /// Connects to an existing segment.
    pub fn connect(name: &str, mem: M, now: Option<u64>) -> (r: Result<ShmSubscriber<M>, Error>)
        ensures
            !layout::valid_segment_name(name@) ==> (r matches Err(Error::SegmentNameInvalid(n))
                && n@ == name@),
            r matches Ok(s) ==> layout::valid_segment_name(name@) && s.region.wf() && s.region.mem
                == mem,
            layout::valid_segment_name(name@) && mem.exclusive() ==> match header::header_fault(
                mem.image(),
            ) {
                Some(f) => r matches Err(e) && header::reports_header_fault(e, f),
                None => {
                    let c = header::header_config(mem.image());
                    let beat = memory::u64_at(mem.image(), layout::GH_HEARTBEAT as int);
                    match now {
                        None => r matches Err(e) && e is ClockError,
                        Some(t) => if t > beat + c.stale_timeout_us {
                            r matches Err(e) && e is PublisherDead
                        } else {
                            r matches Ok(s) && s.region.config == c
                        },
                    }
                },
            },
    {
        match validate_name(name) {
            Err(e) => Err(e),
            Ok(()) => match Region::open(mem, now) {
                Err(e) => Err(e),
                Ok(region) => Ok(ShmSubscriber { region }),
            },
        }
    }

    /// Subscribes to a topic. The stream starts behind the newest sample and
    /// counts as a subscriber until it is closed. It works on `mem`, a further
    /// handle on the same segment.
    pub fn subscribe(&self, mem: M, uri: &str) -> (r: Result<Subscription<M>, Error>)
        requires
            self.region.wf(),
            layout::region_size(self.region.config) <= mem.image().len() <= usize::MAX,
        ensures
            r matches Err(Error::TopicNotFound(u)) ==> u@ == uri@,
            r matches Err(e) ==> e is TopicNotFound,
            r matches Ok(s) ==> {
                &&& s.wf()
                &&& s.region.config == self.region.config
                &&& s.region.mem.image().len() == mem.image().len()
                &&& s.region.mem.exclusive() == mem.exclusive()
                &&& joined_topic(
                    mem.accesses(),
                    s.region.mem.accesses(),
                    self.region.config.max_topics as int,
                    vstd::utf8::encode_utf8(uri@),
                    s.topic_idx,
                    s.last_seq,
                    s.type_size,
                )
            },
            mem.exclusive() ==> match find_topic(
                mem.image(),
                0,
                self.region.config.max_topics as int,
                vstd::utf8::encode_utf8(uri@),
            ) {
                None => r is Err,
                Some(i) => {
                    let off = layout::topic_off(i);
                    &&& r matches Ok(s)
                    &&& s.topic_idx == i
                    &&& s.last_seq == region::write_seq(mem.image(), i)
                    &&& s.type_size == memory::u32_at(mem.image(), off + TE_TYPE_SIZE)
                    &&& s.region.mem.image() == memory::put32(
                        mem.image(),
                        off + TE_SUBSCRIBER_COUNT,
                        memory::wrapping_sum_u32(
                            memory::u32_at(mem.image(), off + TE_SUBSCRIBER_COUNT),
                            1,
                        ),
                    )
                },
            },
    {
        let mut region: Region<M> = Region::from_memory(mem, self.region.config);
        let hash: u64 = uri_hash(uri);
        let ghost first = region.mem.accesses();
        let found: Option<u32> = lookup_topic(&mut region, bytes_of(uri), hash);
        let ghost looked = region.mem.accesses();
        match found {
            None => Err(Error::TopicNotFound(uri.to_owned())),
            Some(topic_idx) => {
                proof {
                    layout::lemma_layout(region.config);
                    layout::lemma_topic(region.config, topic_idx as int);
                }
                let off: usize = topic_entry_off(topic_idx);
                let last_seq: u64 = region.mem.look_u64(off + TE_WRITE_SEQ);
                let type_size: u32 = region.mem.look_u32(off + TE_TYPE_SIZE);
                let before: u32 = region.mem.fetch_add_u32(off + TE_SUBSCRIBER_COUNT, 1);
                proof {
                    lemma_joined_topic(
                        first,
                        looked,
                        region.mem.accesses(),
                        self.region.config.max_topics as int,
                        vstd::utf8::encode_utf8(uri@),
                        topic_idx,
                        last_seq,
                        type_size,
                        before,
                    );
                }
                Ok(Subscription { region, topic_idx, last_seq, type_size })
            },
        }
    }
}

} // verus!
