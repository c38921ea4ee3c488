//! Which segments are accepted, which places in them are taken, and what is received from
//! them, stated over the bytes of the segments.

use crate::error::CrossbarErrorView;
use crate::memory::{self, Access, Accesses, SharedMemory};
use crate::platform::sample_laws::begins_at;
use crate::protocol::layout;
use crate::transport::message_laws;
use crate::transport::shm::exchange;
use crate::transport::shm::pool_pubsub::{
    self, PoolPubSubConfig, ShmPoolPublisher, ShmPoolSampleGuard, ShmPoolSubscription,
};
use crate::transport::shm::pubsub::{self, PubSubConfig, ShmSubscription, TopicSearch};
use crate::transport::shm::pubsub_rpc::{
    self, ClientState, PubSubRpcClient, PubSubRpcConfig, RpcTurn, RpcWait,
};
use crate::transport::shm::region::{self, ShmConfig};
use crate::transport::shm::service;
use crate::types::{RequestView, Response, ResponseView};
use vstd::prelude::*;

verus! {

broadcast use crate::memory::group_memory;

/// The smaller one of the length of a segment and what the address space has room for.
pub open spec fn room_in(m: Seq<u8>) -> int {
    if m.len() <= usize::MAX {
        m.len() as int
    } else {
        usize::MAX as int
    }
}

/// A segment begins with eight bytes and a version.
pub open spec fn begins_with(m: Seq<u8>, magic: Seq<u8>, version: u32) -> bool {
    &&& m.len() >= 128
    &&& m.subrange(0, 8) == magic
    &&& memory::u32_at(m, 8) == version
}

/// Bytes for a sample: a head of 16 bytes and the data, in whole words of eight bytes.
pub open spec fn sample_size(capacity: u32) -> int {
    (16 + capacity + 7) / 8 * 8
}

/// A sample of a ring has room for its head and its data, is made of whole words, and wastes
/// less than one of them.
pub proof fn law_samples_are_whole_words(c: PubSubConfig)
    ensures
        pubsub::stride(c) >= 16 + c.sample_capacity,
        pubsub::stride(c) < 16 + c.sample_capacity + 8,
        pubsub::stride(c) % 8 == 0,
{
}

/// The header of a segment with rings of samples is whole.
pub open spec fn ring_segment_is_whole(m: Seq<u8>) -> bool {
    let topics = memory::u32_at(m, 12);
    let capacity = memory::u32_at(m, 16);
    let depth = memory::u32_at(m, 20);
    &&& begins_with(m, seq![88u8, 66, 65, 82, 95, 80, 83, 0], 1)
    &&& depth > 0
    &&& sample_size(capacity) <= usize::MAX
    &&& 128 + topics * 128 + topics * depth * sample_size(capacity) <= room_in(m)
}

/// A segment with rings of samples is connected to exactly if its header is whole and no
/// more time than the timeout has passed since its heartbeat. The timeout is the one asked
/// for; else the one that the segment names; else five seconds.
pub proof fn law_connecting_to_a_ring_segment(m: Seq<u8>, timeout: Option<u64>, now: u64)
    ensures
        ({
            let t = match timeout {
                Some(t) => t,
                None => if memory::u64_at(m, 40) > 0 {
                    memory::u64_at(m, 40)
                } else {
                    5_000_000
                },
            };
            let late = now > memory::u64_at(m, 24) + t;
            &&& ring_segment_is_whole(m) && !late <==> pubsub::connect_fault(m, timeout, now) is None
            &&& ring_segment_is_whole(m) && late <==> pubsub::connect_fault(m, timeout, now)
                == Some(CrossbarErrorView::ShmServerDead)
            &&& pubsub::header_config(m, timeout).stale_timeout_us == t
            &&& pubsub::header_config(m, timeout).max_topics == memory::u32_at(m, 12)
            &&& pubsub::header_config(m, timeout).sample_capacity == memory::u32_at(m, 16)
            &&& pubsub::header_config(m, timeout).ring_depth == memory::u32_at(m, 20)
        }),
{
}

/// A segment with rings of samples is in use exactly if it has the magic bytes and the
/// version, and no more time than its timeout has passed since its heartbeat.
pub proof fn law_ring_segment_in_use(m: Seq<u8>, fallback: u64, now: u64)
    ensures
        pubsub::is_active(m, fallback, now) <==> {
            &&& begins_with(m, seq![88u8, 66, 65, 82, 95, 80, 83, 0], 1)
            &&& now <= memory::u64_at(m, 24) + if memory::u64_at(m, 40) > 0 {
                memory::u64_at(m, 40)
            } else {
                fallback
            }
        },
{
}

/// A segment with rings of samples can be made exactly if there are topics, rings and room
/// for data, if heartbeats come and come more often than the timeout, and if all of it fits
/// the address space.
pub proof fn law_which_ring_segments_there_are(c: PubSubConfig)
    ensures
        pubsub::config_fault(c) is None <==> {
            &&& c.ring_depth > 0
            &&& c.sample_capacity > 0
            &&& c.max_topics > 0
            &&& 0 < c.heartbeat_interval_us < c.stale_timeout_us
            &&& 128 + c.max_topics * 128 + c.max_topics * c.ring_depth * sample_size(
                c.sample_capacity,
            ) <= usize::MAX
        },
{
}

/// The entry of a topic, in a segment with rings of samples, has the text of a URI.
pub open spec fn has_text(m: Seq<u8>, topic: int, uri: Seq<u8>) -> bool {
    let t = 128 + topic * 128;
    &&& uri.len() <= 103
    &&& m[t + 24] == uri.len()
    &&& m.subrange(t + 25, t + 25 + uri.len()) == uri
}

/// A publisher knows the topic of a URI exactly if it has noted one with its hash, and the
/// entry of that topic has the text of the URI; it is the first such one.
#[verifier::rlimit(50)]
pub proof fn law_known_topic(m: Seq<u8>, topics: Seq<(u64, u32)>, uri: Seq<u8>, i: int)
    requires
        0 <= i <= topics.len(),
    ensures
        match pubsub::known_topic(m, topics, uri, i) {
            Some(t) => exists|k: int|
                {
                    &&& i <= k < topics.len()
                    &&& #[trigger] topics[k] == (layout::fnv(uri), t)
                    &&& has_text(m, t as int, uri)
                    &&& forall|j: int|
                        i <= j < k ==> (#[trigger] topics[j]).0 != layout::fnv(uri) || !has_text(
                            m,
                            topics[j].1 as int,
                            uri,
                        )
                },
            None => forall|j: int|
                i <= j < topics.len() ==> (#[trigger] topics[j]).0 != layout::fnv(uri)
                    || !has_text(m, topics[j].1 as int, uri),
        },
    decreases topics.len() - i,
{
    if i < topics.len() {
        law_known_topic(m, topics, uri, i + 1);
        assert(pubsub::holds_uri(m, topics[i].1 as int, uri) == has_text(
            m,
            topics[i].1 as int,
            uri,
        ));
        if topics[i].0 == layout::fnv(uri) && has_text(m, topics[i].1 as int, uri) {
            assert(topics[i] == (layout::fnv(uri), topics[i].1));
        } else if pubsub::known_topic(m, topics, uri, i + 1) is Some {
            let t = pubsub::known_topic(m, topics, uri, i + 1)->0;
            let k = choose|k: int|
                {
                    &&& i + 1 <= k < topics.len()
                    &&& #[trigger] topics[k] == (layout::fnv(uri), t)
                    &&& has_text(m, t as int, uri)
                    &&& forall|j: int|
                        i + 1 <= j < k ==> (#[trigger] topics[j]).0 != layout::fnv(uri)
                            || !has_text(m, topics[j].1 as int, uri)
                };
            assert(topics[k] == (layout::fnv(uri), t));
        }
    }
}

/// A new topic gets the first entry that is not in use, and none exactly if all are.
pub proof fn law_free_topic(c: PubSubConfig, m: Seq<u8>, from: int)
    requires
        0 <= from,
    ensures
        match pubsub::free_topic(c, m, from) {
            Some(t) => {
                &&& from <= t < c.max_topics
                &&& memory::u32_at(m, pubsub::topic_off(t as int)) == 0
                &&& forall|k: int|
                    from <= k < t ==> memory::u32_at(m, #[trigger] pubsub::topic_off(k)) != 0
            },
            None => forall|k: int|
                from <= k < c.max_topics ==> memory::u32_at(m, #[trigger] pubsub::topic_off(k))
                    != 0,
        },
        pubsub::topic_off(from) == 128 + from * 128,
    decreases c.max_topics - from,
{
    if from < c.max_topics {
        law_free_topic(c, m, from + 1);
        assert(pubsub::is_registered(m, from) == (memory::u32_at(m, pubsub::topic_off(from))
            != 0));
    }
}

/// A topic of a segment with rings of samples may be that of a URI: it is in use, and has
/// its hash.
pub open spec fn has_hash(m: Seq<u8>, topic: int, uri: Seq<u8>) -> bool {
    let t = 128 + topic * 128;
    &&& memory::u32_at(m, t) != 0
    &&& memory::u64_at(m, t + 16) == layout::fnv(uri)
}

/// A search for a topic finds the first entry in use that has the hash and the text of the
/// URI. It finds none only if there is none, and stops only at an entry with that hash whose
/// text would be longer than an entry has room for.
#[verifier::rlimit(50)]
pub proof fn law_topic_search(c: PubSubConfig, m: Seq<u8>, uri: Seq<u8>, from: int)
    requires
        0 <= from,
    ensures
        match pubsub::search_topic(c, m, uri, from) {
            TopicSearch::Found(t) => {
                &&& from <= t < c.max_topics
                &&& has_hash(m, t, uri)
                &&& has_text(m, t, uri)
                &&& forall|k: int|
                    from <= k < t ==> !(#[trigger] has_hash(m, k, uri)) || !has_text(m, k, uri)
            },
            TopicSearch::Broken(t, len) => {
                &&& from <= t < c.max_topics
                &&& has_hash(m, t, uri)
                &&& len == m[128 + t * 128 + 24]
                &&& len > 103
                &&& forall|k: int|
                    from <= k < t ==> !(#[trigger] has_hash(m, k, uri)) || !has_text(m, k, uri)
            },
            TopicSearch::Missing => forall|k: int|
                from <= k < c.max_topics ==> !(#[trigger] has_hash(m, k, uri)) || !has_text(
                    m,
                    k,
                    uri,
                ),
        },
    decreases c.max_topics - from,
{
    if from < c.max_topics {
        law_topic_search(c, m, uri, from + 1);
        assert(pubsub::holds_uri(m, from, uri) == has_text(m, from, uri));
        assert(has_hash(m, from, uri) == (pubsub::is_registered(m, from) && memory::u64_at(
            m,
            pubsub::topic_off(from) + pubsub::TE_URI_HASH,
        ) == layout::fnv(uri)));
    }
}

/// Where a sample is in a segment with rings of samples.
pub open spec fn sample_at(c: PubSubConfig, topic: int, seq: u64) -> int {
    128 + c.max_topics * 128 + (topic * c.ring_depth + seq as int % c.ring_depth as int)
        * sample_size(c.sample_capacity)
}

/// The ring of a topic holds a sample: its place has its number, and a length that there is
/// room for.
pub open spec fn has_sample(c: PubSubConfig, m: Seq<u8>, topic: int, seq: u64) -> bool {
    let s = sample_at(c, topic, seq);
    &&& memory::u64_at(m, s) == seq
    &&& memory::u32_at(m, s + 8) <= c.sample_capacity
}

/// A subscriber receives the sample behind the last one, as long as it is no further behind
/// than the ring is long and the ring holds it, and otherwise the newest one, if the ring
/// holds that; with the bytes that stand behind its head. It receives nothing exactly if it
/// has received the newest one already, or if neither is there.
pub proof fn law_what_a_ring_gives(c: PubSubConfig, m: Seq<u8>, topic: int, last: u64)
    requires
        c.ring_depth > 0,
    ensures
        ({
            let newest = memory::u64_at(m, 128 + topic * 128 + 8);
            let next = (last + 1) as u64;
            let in_reach = newest - last <= c.ring_depth;
            match pubsub::received_seq(c, m, topic, last) {
                Some(s) => {
                    &&& last < newest
                    &&& has_sample(c, m, topic, s)
                    &&& s == next && in_reach || s == newest
                    &&& in_reach && has_sample(c, m, topic, next) ==> s == next
                    &&& pubsub::sample_data(c, m, topic, s) == Some(
                        m.subrange(
                            sample_at(c, topic, s) + 16,
                            sample_at(c, topic, s) + 16 + memory::u32_at(
                                m,
                                sample_at(c, topic, s) + 8,
                            ),
                        ),
                    )
                },
                None => newest <= last || !has_sample(c, m, topic, newest) && (!in_reach
                    || !has_sample(c, m, topic, next)),
            }
        }),
        ({
            let newest = memory::u64_at(m, 128 + topic * 128 + 8);
            pubsub::latest_seq(c, m, topic, last) == if newest > last && has_sample(
                c,
                m,
                topic,
                newest,
            ) {
                Some(newest)
            } else {
                None
            }
        }),
{
    let newest = memory::u64_at(m, 128 + topic * 128 + 8);
    assert(newest == pubsub::write_seq(m, topic));
    lemma_has_sample(c, m, topic, newest);
    lemma_has_sample(c, m, topic, (last + 1) as u64);
}

proof fn lemma_has_sample(c: PubSubConfig, m: Seq<u8>, topic: int, seq: u64)
    requires
        c.ring_depth > 0,
    ensures
        pubsub::sample_data(c, m, topic, seq) is Some <==> has_sample(c, m, topic, seq),
        pubsub::sample_off(c, topic, pubsub::slot_of(c, seq)) == sample_at(c, topic, seq),
{
}

/// The header of a segment with a pool of samples is whole.
pub open spec fn pool_segment_is_whole(m: Seq<u8>) -> bool {
    let topics = memory::u32_at(m, 12);
    let blocks = memory::u32_at(m, 16);
    let size = memory::u32_at(m, 20);
    let depth = memory::u32_at(m, 24);
    &&& begins_with(m, seq![88u8, 66, 65, 82, 95, 90, 67, 0], 1)
    &&& 128 + topics * 128 + topics * depth * 16 + blocks * size <= room_in(m)
}

/// A segment with a pool of samples is connected to exactly if its header is whole and no
/// more time than the timeout that it names has passed since its heartbeat.
pub proof fn law_connecting_to_a_pool_segment(m: Seq<u8>, now: u64)
    ensures
        ({
            let late = now > memory::u64_at(m, 40) + memory::u64_at(m, 56);
            let h = pool_pubsub::header_config(m);
            &&& pool_segment_is_whole(m) && !late <==> pool_pubsub::connect_fault(m, now) is None
            &&& pool_segment_is_whole(m) && late <==> pool_pubsub::connect_fault(m, now) == Some(
                CrossbarErrorView::ShmServerDead,
            )
            &&& h.max_topics == memory::u32_at(m, 12)
            &&& h.block_count == memory::u32_at(m, 16)
            &&& h.block_size == memory::u32_at(m, 20)
            &&& h.ring_depth == memory::u32_at(m, 24)
            &&& h.stale_timeout_us == memory::u64_at(m, 56)
        }),
{
}

/// A segment with a pool of samples can be made exactly if a block has room for a byte
/// behind its head, there are rings, blocks and topics, and all of it fits the address space.
pub proof fn law_which_pool_segments_there_are(c: PoolPubSubConfig)
    ensures
        pool_pubsub::config_fault(c) is None <==> {
            &&& c.block_size >= 9
            &&& c.ring_depth >= 1
            &&& c.block_count >= 1
            &&& c.max_topics >= 1
            &&& 128 + c.max_topics * 128 + c.max_topics * c.ring_depth * 16 + c.block_count
                * c.block_size <= usize::MAX
        },
{
}

/// The entry of a topic, in a segment with a pool of samples, is that of a URI.
pub open spec fn names(m: Seq<u8>, topic: int, uri: Seq<u8>) -> bool {
    let t = 128 + topic * 128;
    &&& uri.len() <= 64
    &&& memory::u64_at(m, t + 16) == layout::fnv(uri)
    &&& memory::u32_at(m, t + 24) == uri.len()
    &&& m.subrange(t + 28, t + 28 + uri.len()) == uri
}

/// The entry of a topic is in use.
pub open spec fn in_use(m: Seq<u8>, topic: int) -> bool {
    memory::u32_at(m, 128 + topic * 128) == 1
}

/// A topic is registered in the first entry that is not in use or has its URI; it cannot be
/// registered exactly if every entry is in use with another URI.
pub proof fn law_place_for_a_topic(c: PoolPubSubConfig, m: Seq<u8>, uri: Seq<u8>, from: int)
    requires
        0 <= from,
    ensures
        match pool_pubsub::place_for(c, m, uri, from) {
            Some(t) => {
                &&& from <= t < c.max_topics
                &&& !in_use(m, t as int) || names(m, t as int, uri)
                &&& forall|k: int| from <= k < t ==> #[trigger] in_use(m, k) && !names(m, k, uri)
            },
            None => forall|k: int|
                from <= k < c.max_topics ==> #[trigger] in_use(m, k) && !names(m, k, uri),
        },
    decreases c.max_topics - from,
{
    if from < c.max_topics {
        law_place_for_a_topic(c, m, uri, from + 1);
        assert(pool_pubsub::holds_uri(m, from, uri) == names(m, from, uri));
        assert(pool_pubsub::is_registered(m, from) == in_use(m, from));
    }
}

/// A topic is found in the first entry in use that has its URI, and none is found exactly if
/// there is none.
pub proof fn law_named_topic(c: PoolPubSubConfig, m: Seq<u8>, uri: Seq<u8>, from: int)
    requires
        0 <= from,
    ensures
        match pool_pubsub::topic_named(c, m, uri, from) {
            Some(t) => {
                &&& from <= t < c.max_topics
                &&& in_use(m, t as int)
                &&& names(m, t as int, uri)
                &&& forall|k: int|
                    from <= k < t ==> !(#[trigger] in_use(m, k)) || !names(m, k, uri)
            },
            None => forall|k: int|
                from <= k < c.max_topics ==> !(#[trigger] in_use(m, k)) || !names(m, k, uri),
        },
    decreases c.max_topics - from,
{
    if from < c.max_topics {
        law_named_topic(c, m, uri, from + 1);
        assert(pool_pubsub::holds_uri(m, from, uri) == names(m, from, uri));
        assert(pool_pubsub::is_registered(m, from) == in_use(m, from));
    }
}

/// A publisher renews its heartbeat with every 1024th loan, if the interval has passed since
/// the last time.
pub proof fn law_when_a_pool_publisher_beats<M: SharedMemory>(p: ShmPoolPublisher<M>, clock: u64)
    ensures
        p.beat_due(clock) <==> p.loan_count % 1024 == 1023 && clock >= p.last_heartbeat
            + p.region.config.heartbeat_interval_us,
{
}

/// The ring of a topic holds a sample of the pool: the entry has its number, names a block
/// that there is, with a length that the block has room for, and the block is referred to.
pub open spec fn has_block(c: PoolPubSubConfig, m: Seq<u8>, topic: int, seq: u64) -> bool {
    let rings = 128 + c.max_topics * 128;
    let e = rings + (topic * c.ring_depth + seq as int % c.ring_depth as int) * 16;
    let block = memory::u32_at(m, e + 8);
    let b = rings + c.max_topics * c.ring_depth * 16 + block * c.block_size;
    &&& memory::u64_at(m, e) == seq
    &&& block < c.block_count
    &&& memory::u32_at(m, e + 12) + 8 <= c.block_size
    &&& 0 < memory::u32_at(m, b + 4) < u32::MAX
}

proof fn lemma_has_block(c: PoolPubSubConfig, m: Seq<u8>, topic: int, seq: u64)
    requires
        c.ring_depth > 0,
        pool_pubsub::region_size(c) <= usize::MAX,
    ensures
        pool_pubsub::readable(c, m, topic, seq) <==> has_block(c, m, topic, seq),
{
    assert(c.max_topics * c.ring_depth >= 0) by (nonlinear_arith);
    assert(c.block_count * c.block_size >= 0) by (nonlinear_arith);
    assert(pool_pubsub::pool_of(c).base == pool_pubsub::pool_off(c));
}

/// A subscriber of a pool receives the sample behind the last one, as long as it is no
/// further behind than the ring is long and the ring holds it, and otherwise the newest one,
/// if the ring holds that. It receives nothing exactly if it has received the newest one
/// already, or if neither is there.
pub proof fn law_what_a_pool_gives(c: PoolPubSubConfig, m: Seq<u8>, topic: int, last: u64)
    requires
        c.ring_depth > 0,
        pool_pubsub::region_size(c) <= usize::MAX,
    ensures
        ({
            let newest = memory::u64_at(m, 128 + topic * 128 + 8);
            let next = (last + 1) as u64;
            let in_reach = newest - last <= c.ring_depth;
            match pool_pubsub::received_seq(c, m, topic, last) {
                Some(s) => {
                    &&& last < newest
                    &&& has_block(c, m, topic, s)
                    &&& s == next && in_reach || s == newest
                    &&& in_reach && has_block(c, m, topic, next) ==> s == next
                },
                None => newest <= last || !has_block(c, m, topic, newest) && (!in_reach
                    || !has_block(c, m, topic, next)),
            }
        }),
{
    let newest = memory::u64_at(m, 128 + topic * 128 + 8);
    assert(newest == pool_pubsub::write_seq(m, topic));
    lemma_has_block(c, m, topic, newest);
    lemma_has_block(c, m, topic, (last + 1) as u64);
}

/// A segment for requests can be made exactly if there are slots and blocks, a block has 64
/// bytes at least, and all of it fits the address space; and it is opened exactly if it has
/// the magic bytes and the version, and its header announces no more than there is, in
/// blocks of that size.
pub proof fn law_which_request_segments_there_are(c: ShmConfig, m: Seq<u8>)
    ensures
        region::config_fault(c) is None <==> {
            &&& c.slot_count > 0
            &&& c.block_count > 0
            &&& c.block_size >= 64
            &&& 128 + c.slot_count * 64 + c.block_count * c.block_size <= usize::MAX
        },
        region::header_fault(m) is None <==> {
            let slots = memory::u32_at(m, 12);
            let blocks = memory::u32_at(m, 16);
            let size = memory::u32_at(m, 20);
            &&& begins_with(m, seq![88u8, 66, 65, 82, 95, 86, 50, 0], 2)
            &&& size >= 64
            &&& 128 + slots * 64 + blocks * size <= room_in(m)
        },
        region::header_config(m).slot_count == memory::u32_at(m, 12),
        region::header_config(m).block_count == memory::u32_at(m, 16),
        region::header_config(m).block_size == memory::u32_at(m, 20),
{
    let slots = memory::u32_at(m, 12);
    let blocks = memory::u32_at(m, 16);
    let size = memory::u32_at(m, 20);
    assert(blocks * size >= 0) by (nonlinear_arith);
}

/// The state of a slot, of which zero is that of a free one.
pub open spec fn slot_state(m: Seq<u8>, slot: int) -> u32 {
    memory::u32_at(m, 128 + slot * 64)
}

/// A client gets the first free slot behind the one that was taken last, going round, and
/// none exactly if none is free.
#[verifier::rlimit(50)]
pub proof fn law_which_slot_a_client_gets(m: Seq<u8>, n: u32)
    requires
        n > 0,
    ensures
        match region::acquired(m, n) {
            Some(i) => {
                let hint = memory::u32_at(m, 52) % n;
                &&& i < n
                &&& slot_state(m, i as int) == 0
                &&& i >= hint ==> forall|k: int|
                    hint <= k < i ==> #[trigger] slot_state(m, k) != 0
                &&& i < hint ==> forall|k: int|
                    hint <= k < n || 0 <= k < i ==> #[trigger] slot_state(m, k) != 0
            },
            None => forall|k: int| 0 <= k < n ==> #[trigger] slot_state(m, k) != 0,
        },
{
    let hint: u32 = memory::u32_at(m, 52) % n;
    lemma_first_free(m, n, hint, 0);
    match region::acquired(m, n) {
        Some(i) => {
            let o = choose|o: int|
                {
                    &&& 0 <= o < n
                    &&& i == round(n, hint, o)
                    &&& slot_state(m, #[trigger] round(n, hint, o)) == 0
                    &&& forall|j: int|
                        0 <= j < o ==> slot_state(m, #[trigger] round(n, hint, j)) != 0
                };
            if i >= hint {
                assert forall|k: int| hint <= k < i implies #[trigger] slot_state(m, k) != 0 by {
                    assert(round(n, hint, k - hint) == k);
                }
            } else {
                assert forall|k: int| hint <= k < n || 0 <= k < i implies #[trigger] slot_state(
                    m,
                    k,
                ) != 0 by {
                    if k >= hint {
                        assert(round(n, hint, k - hint) == k);
                    } else {
                        assert(round(n, hint, k - hint + n) == k);
                    }
                }
            }
        },
        None => {
            assert forall|k: int| 0 <= k < n implies #[trigger] slot_state(m, k) != 0 by {
                if k >= hint {
                    assert(round(n, hint, k - hint) == k);
                } else {
                    assert(round(n, hint, k - hint + n) == k);
                }
            }
        },
    }
}

/// A slot that a client has got is being written, is that of the client, and has the time;
/// the next client begins behind it. Other slots stay as they are.
#[verifier::rlimit(50)]
pub proof fn law_slot_of_a_client(m: Seq<u8>, i: u32, client_id: u64, now: u64)
    requires
        128 + (i + 1) * 64 <= m.len(),
        i < u32::MAX,
    ensures
        ({
            let r = region::after_acquire(m, i, client_id, now);
            let s = 128 + i * 64;
            &&& slot_state(r, i as int) == 4
            &&& memory::u64_at(r, s + 8) == client_id
            &&& memory::u64_at(r, s + 16) == now
            &&& memory::u32_at(r, s + 4) == (memory::u32_at(m, s + 4) + 1) % 0x1_0000_0000
            &&& memory::u32_at(r, 52) == i + 1
            &&& r.len() == m.len()
            &&& forall|k: int|
                128 <= k < m.len() && !(s <= k < s + 64) ==> #[trigger] r[k] == m[k]
        }),
{
    let s = 128 + i * 64;
    assert(region::slot_off(i as int) == s);
    let m1 = memory::put32(m, s, 4);
    let m2 = memory::put64(m1, s + 8, client_id);
    assert(memory::u32_at(m2, s + 4) == memory::u32_at(m, s + 4));
    let m3 = memory::put32(
        m2,
        s + 4,
        memory::wrapping_sum_u32(memory::u32_at(m2, s + 4), 1),
    );
    let m4 = memory::put64(m3, s + 16, now);
    let m5 = memory::put32(m4, 52, memory::wrapping_sum_u32(i, 1));
    assert(m5 == region::after_acquire(m, i, client_id, now));
    assert(memory::u32_at(m5, s) == memory::u32_at(m4, s));
    assert(memory::u32_at(m4, s) == memory::u32_at(m3, s));
    assert(memory::u64_at(m5, s + 8) == memory::u64_at(m4, s + 8));
    assert(memory::u64_at(m5, s + 16) == memory::u64_at(m4, s + 16));
    assert(memory::u32_at(m5, s + 4) == memory::u32_at(m4, s + 4));
}

/// The slot that comes `o` behind another one, going round.
pub open spec fn round(n: u32, start: u32, o: int) -> int {
    if start + o < n {
        start + o
    } else {
        start + o - n
    }
}

#[verifier::rlimit(50)]
proof fn lemma_first_free(m: Seq<u8>, n: u32, start: u32, from: nat)
    requires
        start < n,
        from <= n,
    ensures
        match region::free_from(m, n, start, from) {
            Some(i) => exists|o: int|
                {
                    &&& from <= o < n
                    &&& i == round(n, start, o)
                    &&& slot_state(m, #[trigger] round(n, start, o)) == 0
                    &&& forall|j: int|
                        from <= j < o ==> slot_state(m, #[trigger] round(n, start, j)) != 0
                },
            None => forall|j: int|
                from <= j < n ==> slot_state(m, #[trigger] round(n, start, j)) != 0,
        },
    decreases n - from,
{
    if from < n {
        assert(region::cyclic(n, start, from) == round(n, start, from as int)) by {
            lemma_round(n as int, start + from);
        }
        lemma_first_free(m, n, start, from + 1);
        let r = region::free_from(m, n, start, from + 1);
        if slot_state(m, round(n, start, from as int)) == 0 {
        } else if r is Some {
            let i = r->0;
            let o = choose|o: int|
                {
                    &&& from + 1 <= o < n
                    &&& i == round(n, start, o)
                    &&& slot_state(m, #[trigger] round(n, start, o)) == 0
                    &&& forall|j: int|
                        from + 1 <= j < o ==> slot_state(m, #[trigger] round(n, start, j)) != 0
                };
            assert(slot_state(m, round(n, start, o)) == 0);
        }
    }
}

#[verifier::rlimit(50)]
proof fn lemma_round(n: int, x: int)
    requires
        0 < n,
        0 <= x < 2 * n,
    ensures
        x % n == if x < n {
            x
        } else {
            x - n
        },
{
    if x < n {
        vstd::arithmetic::div_mod::lemma_small_mod(x as nat, n as nat);
    } else {
        vstd::arithmetic::div_mod::lemma_mod_sub_multiples_vanish(x, n);
        vstd::arithmetic::div_mod::lemma_small_mod((x - n) as nat, n as nat);
    }
}

/// The header of a segment of the ring exchange is whole.
pub open spec fn exchange_is_whole(m: Seq<u8>) -> bool {
    let clients = memory::u32_at(m, 12);
    let blocks = memory::u32_at(m, 16);
    let size = memory::u32_at(m, 20);
    let depth = memory::u32_at(m, 24);
    &&& begins_with(m, seq![88u8, 66, 65, 82, 95, 82, 67, 0], 1)
    &&& 128 + clients * 64 + 2 * (clients * depth * 16) + blocks * size <= room_in(m)
}

/// A segment of the ring exchange is accepted exactly if its header is whole.
pub proof fn law_which_exchange_is_accepted(m: Seq<u8>)
    ensures
        pubsub_rpc::header_fault(m) is None <==> exchange_is_whole(m),
        pubsub_rpc::header_config(m).max_clients == memory::u32_at(m, 12),
        pubsub_rpc::header_config(m).block_count == memory::u32_at(m, 16),
        pubsub_rpc::header_config(m).block_size == memory::u32_at(m, 20),
        pubsub_rpc::header_config(m).ring_depth == memory::u32_at(m, 24),
        pubsub_rpc::header_config(m).stale_timeout_us == memory::u64_at(m, 64),
        !(pubsub_rpc::header_fault(m) matches Some(CrossbarErrorView::ShmServerDead)),
        !(pubsub_rpc::header_fault(m) matches Some(CrossbarErrorView::ShmSlotsFull)),
{
}

/// An entry of a client is taken.
pub open spec fn is_taken(m: Seq<u8>, client: int) -> bool {
    memory::u32_at(m, 128 + client * 64) != 0
}

proof fn lemma_free_client(c: PubSubRpcConfig, m: Seq<u8>, from: int)
    requires
        0 <= from,
    ensures
        match pubsub_rpc::free_client(c, m, from) {
            Some(i) => {
                &&& from <= i < c.max_clients
                &&& !is_taken(m, i as int)
                &&& forall|k: int| from <= k < i ==> #[trigger] is_taken(m, k)
            },
            None => forall|k: int| from <= k < c.max_clients ==> #[trigger] is_taken(m, k),
        },
    decreases c.max_clients - from,
{
    if from < c.max_clients {
        lemma_free_client(c, m, from + 1);
        assert(pubsub_rpc::active(m, from) == 0 <==> !is_taken(m, from));
    }
}

/// A client of the ring exchange is connected exactly if the header is whole, no more time
/// than the timeout has passed since the heartbeat of the server, and an entry is free; it
/// gets the first free one. A late server is reported as dead, and a lack of entries as such.
pub proof fn law_connecting_to_an_exchange<M: SharedMemory>(
    mem: M,
    now: u64,
    pid: u32,
    client_id: u64,
    r: Result<PubSubRpcClient<M>, crate::error::CrossbarError>,
)
    requires
        pubsub_rpc::connected(mem, now, pid, client_id, r),
    ensures
        ({
            let m = mem.image();
            let clients = memory::u32_at(m, 12) as int;
            let late = now > memory::u64_at(m, 40) + memory::u64_at(m, 64);
            let free = exists|k: int| 0 <= k < clients && !(#[trigger] is_taken(m, k));
            &&& r is Ok <==> exchange_is_whole(m) && !late && free
            &&& exchange_is_whole(m) && late ==> r->Err_0@ == CrossbarErrorView::ShmServerDead
            &&& exchange_is_whole(m) && !late && !free ==> r->Err_0@
                == CrossbarErrorView::ShmSlotsFull
            &&& r matches Ok(s) ==> {
                &&& s.client_idx < clients
                &&& !is_taken(m, s.client_idx as int)
                &&& forall|k: int| 0 <= k < s.client_idx ==> #[trigger] is_taken(m, k)
            }
        }),
{
    let m = mem.image();
    law_which_exchange_is_accepted(m);
    lemma_free_client(pubsub_rpc::header_config(m), m, 0);
}

/// A server forgets a client that has left, and the one that comes after it in its entry
/// starts from the beginning; as long as a client stays, what was seen of it is kept.
pub proof fn law_clients_come_and_go(s: ClientState, active: u32)
    requires
        active != 0,
    ensures
        s.known_active ==> s.seen(active) == s,
        s.known_active ==> s.seen(0).seen(active) == (ClientState {
            known_active: true,
            last_req_seq: 0,
            resp_seq: 0,
        }),
        !s.known_active ==> s.seen(0) == s && s.seen(active) == (ClientState {
            known_active: true,
            last_req_seq: 0,
            resp_seq: 0,
        }),
        !s.seen(0).known_active,
{
}

/// A client of the ring exchange that waits in vain spins 2048 times, yields 16 times, and
/// then sleeps until an answer comes. It gives up exactly if it is to sleep and as much time
/// as the timeout has passed since it first was.
pub proof fn law_waiting_for_an_answer<M: SharedMemory>(
    before: PubSubRpcClient<M>,
    after: PubSubRpcClient<M>,
    wait: RpcWait,
    wait_after: RpcWait,
    now: u64,
    r: RpcTurn,
)
    requires
        before.waited(&after, wait, wait_after, now, r),
        before.region.mem.image().len() >= 128 + (before.client_idx + 1) * 64,
    ensures
        ({
            let m = before.region.mem.image();
            let n = after.region.mem.image();
            let s = 128 + before.client_idx * 64;
            let end = match wait.deadline {
                Some(d) => d as int,
                None => if now + before.stale_timeout_us > u64::MAX {
                    u64::MAX as int
                } else {
                    now + before.stale_timeout_us
                },
            };
            &&& r is Spin <==> wait.turn < 2048
            &&& r is Yield <==> 2048 <= wait.turn < 2064
            &&& r is Sleep <==> wait.turn >= 2064 && now < end
            &&& r is Done <==> wait.turn >= 2064 && now >= end
            &&& r matches RpcTurn::Done(o) ==> (o matches Err(e) && e@
                == CrossbarErrorView::ShmServerDead)
            &&& wait.turn < 2064 ==> wait_after.turn == wait.turn + 1 && wait_after.deadline
                == wait.deadline
            &&& wait.turn >= 2064 ==> wait_after.turn == wait.turn && wait_after.deadline is Some
                && wait_after.deadline->0 == end
            &&& r !is Sleep ==> n == m
            &&& r matches RpcTurn::Sleep(word) ==> {
                &&& word == memory::u32_at(m, s + 32)
                &&& memory::u32_at(n, s + 36) == (memory::u32_at(m, s + 36) + 1) % 0x1_0000_0000
                &&& n.len() == m.len()
                &&& forall|i: int|
                    0 <= i < m.len() && !(s + 36 <= i < s + 40) ==> #[trigger] n[i] == m[i]
            }
        }),
{
}

/// The entry that holds a message of a client: behind the entries of the clients, for
/// requests, and behind the rings of the requests, for responses.
pub open spec fn message_at(c: PubSubRpcConfig, client: int, seq: int, answer: bool) -> int {
    let rings = c.max_clients * c.ring_depth * 16;
    128 + c.max_clients * 64 + (if answer {
        rings
    } else {
        0
    }) + (client * c.ring_depth + seq % c.ring_depth as int) * 16
}

/// A server takes the request that comes next, in their order, exactly if the client has
/// announced it, and its entry has its number and names a block; and so does a client with
/// the responses.
pub proof fn law_messages_are_taken_in_order(
    c: PubSubRpcConfig,
    m: Seq<u8>,
    client: int,
    last: u64,
)
    requires
        c.ring_depth > 0,
        last < u64::MAX,
    ensures
        ({
            let e = message_at(c, client, last + 1, false);
            let there = memory::u64_at(m, 128 + client * 64 + 16) > last && memory::u64_at(m, e)
                == last + 1 && memory::u32_at(m, e + 8) != 0xFFFF_FFFF;
            pubsub_rpc::next_request(c, m, client, last) == if there {
                Some((memory::u32_at(m, e + 8), memory::u32_at(m, e + 12)))
            } else {
                None
            }
        }),
        ({
            let e = message_at(c, client, last + 1, true);
            let there = memory::u64_at(m, 128 + client * 64 + 24) > last && memory::u64_at(m, e)
                == last + 1 && memory::u32_at(m, e + 8) != 0xFFFF_FFFF;
            pubsub_rpc::next_response(c, m, client, last) == if there {
                Some((memory::u32_at(m, e + 8), memory::u32_at(m, e + 12)))
            } else {
                None
            }
        }),
{
    let seq = (last + 1) as u64;
    assert(pubsub_rpc::req_off(c, client, seq) == message_at(c, client, last + 1, false));
    assert(pubsub_rpc::resp_off(c, client, seq) == message_at(c, client, last + 1, true));
}

/// What a subscriber of a ring gets is the data of the sample that it receives, and it goes
/// on behind that sample; if it receives none it stays where it is.
#[verifier::rlimit(50)]
pub proof fn law_received_from_a_ring<M: SharedMemory>(
    before: ShmSubscription<M>,
    after: ShmSubscription<M>,
    data: Option<Seq<u8>>,
)
    requires
        before.config.ring_depth > 0,
        before.last_seq < u64::MAX,
        before.received(
            &after,
            pubsub::received_seq(
                before.config,
                before.mem.image(),
                before.topic_idx as int,
                before.last_seq,
            ),
            data,
        ),
    ensures
        ({
            let c = before.config;
            let m = before.mem.image();
            let s = sample_at(c, before.topic_idx as int, after.last_seq);
            &&& data is None ==> after.last_seq == before.last_seq
            &&& data matches Some(d) ==> {
                &&& after.last_seq > before.last_seq
                &&& has_sample(c, m, before.topic_idx as int, after.last_seq)
                &&& d == m.subrange(s + 16, s + 16 + memory::u32_at(m, s + 8))
            }
        }),
{
    law_what_a_ring_gives(
        before.config,
        before.mem.image(),
        before.topic_idx as int,
        before.last_seq,
    );
}

/// What a subscriber of a pool gets of the sample that it receives is the block and the
/// length that the entry names. The block is referred to once more, nothing else changes, and
/// the subscriber goes on behind that sample. If it receives none, nothing changes.
#[verifier::rlimit(50)]
pub proof fn law_received_from_a_pool<M: SharedMemory>(
    before: ShmPoolSubscription<M>,
    after: ShmPoolSubscription<M>,
    r: Option<ShmPoolSampleGuard>,
)
    requires
        before.wf(),
        before.last_seq < u64::MAX,
        before.received(&after, r),
    ensures
        ({
            let c = before.region.config;
            let m = before.region.mem.image();
            let n = after.region.mem.image();
            let rings = 128 + c.max_topics * 128;
            match r {
                Some(g) => {
                    let e = rings + (before.topic_idx * c.ring_depth + after.last_seq as int
                        % c.ring_depth as int) * 16;
                    let count = rings + c.max_topics * c.ring_depth * 16 + g.block_idx
                        * c.block_size + 4;
                    &&& after.last_seq > before.last_seq
                    &&& g.block_idx == memory::u32_at(m, e + 8)
                    &&& g.len == memory::u32_at(m, e + 12)
                    &&& memory::u32_at(n, count) == memory::u32_at(m, count) + 1
                    &&& n.len() == m.len()
                    &&& forall|i: int|
                        0 <= i < m.len() && !(count <= i < count + 4) ==> #[trigger] n[i] == m[i]
                },
                None => n == m && after.last_seq == before.last_seq,
            }
        }),
{
    let c = before.region.config;
    let m = before.region.mem.image();
    let t = before.topic_idx as int;
    law_what_a_pool_gives(c, m, t, before.last_seq);
    if r is Some {
        let g = r->0;
        assert(has_block(c, m, t, after.last_seq));
        pool_pubsub::lemma_parts(c);
        pool_pubsub::lemma_block(c, g.block_idx as int);
        lemma_has_block(c, m, t, after.last_seq);
        assert(c.max_topics * c.ring_depth >= 0) by (nonlinear_arith);
        assert(c.block_count * c.block_size >= 0) by (nonlinear_arith);
        assert(pool_pubsub::pool_of(c).base == pool_pubsub::pool_off(c));
        let count = pool_pubsub::refcount_off(c, g.block_idx as int);
        assert(memory::u32_at(m, count) < u32::MAX);
    }
}

/// A client that looks for its answer takes the response that comes next, if there is one,
/// and gives its block back; what cannot be read is reported, and its block is not given
/// back. If there is none nothing changes.
#[verifier::rlimit(50)]
pub proof fn law_looking_for_an_answer<M: SharedMemory>(
    before: PubSubRpcClient<M>,
    after: PubSubRpcClient<M>,
    r: Result<Option<Response>, crate::error::CrossbarError>,
)
    requires
        before.looked(&after, r),
        before.region.config.ring_depth > 0,
        before.last_resp_seq < u64::MAX,
    ensures
        ({
            let c = before.region.config;
            let m = before.region.mem.image();
            let k = before.client_idx as int;
            let seq = before.last_resp_seq + 1;
            let e = message_at(c, k, seq, true);
            let there = memory::u64_at(m, 128 + k * 64 + 24) > before.last_resp_seq
                && memory::u64_at(m, e) == seq && memory::u32_at(m, e + 8) != 0xFFFF_FFFF;
            let block = memory::u32_at(m, e + 8);
            let read = pubsub_rpc::response_at(c, m, block, memory::u32_at(m, e + 12));
            &&& !there ==> {
                &&& r matches Ok(o) && o is None
                &&& after.last_resp_seq == before.last_resp_seq
                &&& after.region.mem.image() == m
            }
            &&& there ==> after.last_resp_seq == seq
            &&& there && block >= c.block_count ==> r is Err
            &&& there && read is Ok ==> {
                &&& r matches Ok(Some(resp)) && resp@ == read->Ok_0.0
                &&& after.region.mem.image() == pubsub_rpc::pool_of(c).after_free(m, block)
            }
            &&& there && read is Err ==> {
                &&& r matches Err(x) && x@ == read->Err_0
                &&& after.region.mem.image() == m
            }
        }),
{
    law_messages_are_taken_in_order(
        before.region.config,
        before.region.mem.image(),
        before.client_idx as int,
        before.last_resp_seq,
    );
}

/// A topic says that it is in use only when all of its entry is written, in a segment with
/// rings of samples as in one with a pool.
#[verifier::rlimit(50)]
pub proof fn law_topics_appear_whole(topic: int, uri: Seq<u8>)
    requires
        0 <= topic,
        uri.len() <= 64,
    ensures
        ({
            let t = 128 + topic * 128;
            let ops = pubsub::topic_stores(topic, uri);
            &&& ops.len() > 0
            &&& ops.last() == (Access::Word32 { off: t, v: 1 })
            &&& forall|k: int|
                0 <= k < ops.len() - 1 ==> t + 8 <= begins_at(#[trigger] ops[k]) < t + 128
            &&& ops.contains(Access::Bytes { off: t + 25, data: uri })
            &&& ops.contains(Access::Word64 { off: t + 8, v: 0 })
        }),
        ({
            let t = 128 + topic * 128;
            let ops = pool_pubsub::topic_stores(topic, uri);
            &&& ops.len() > 0
            &&& ops.last() == (Access::Word32 { off: t, v: 1 })
            &&& forall|k: int|
                0 <= k < ops.len() - 1 ==> t + 8 <= begins_at(#[trigger] ops[k]) < t + 128
            &&& ops.contains(Access::Bytes { off: t + 28, data: uri })
            &&& ops.contains(Access::Word64 { off: t + 8, v: 0 })
        }),
{
    let t = 128 + topic * 128;
    let a = pubsub::topic_stores(topic, uri);
    assert(a[2] == (Access::Bytes { off: t + 25, data: uri }));
    assert(a[3] == (Access::Word64 { off: t + 8, v: 0 }));
    let b = pool_pubsub::topic_stores(topic, uri);
    assert(b[2] == (Access::Bytes { off: t + 28, data: uri }));
    assert(b[3] == (Access::Word64 { off: t + 8, v: 0 }));
}

/// A slot says that its request is ready only when the request is written: what is stored
/// before that is the rest of the slot and the block, and behind it the server is told.
#[verifier::rlimit(50)]
pub proof fn law_request_is_written_before_it_is_ready(
    c: ShmConfig,
    ops: Accesses,
    slot: int,
    block: u32,
    v: RequestView,
)
    requires
        service::submits(c, ops, slot, block, v),
        0 <= slot < c.slot_count,
        block < c.block_count,
        region::segment_size(c.slot_count as int, c.block_count as int, c.block_size as int)
            <= usize::MAX,
        message_laws::request_is_small(v, c.block_size as nat),
    ensures
        ({
            let s = 128 + slot * 64;
            let n = ops.len() as int;
            &&& n >= 2
            &&& ops[n - 2] == (Access::Word32 { off: s, v: 1 })
            &&& ops[n - 1] == (Access::Word32 { off: 48, v: 1 })
            &&& forall|k: int|
                0 <= k < n - 2 ==> s + 24 <= begins_at(#[trigger] ops[k]) < s + 64 || begins_at(
                    ops[k],
                ) >= 128 + c.slot_count * 64
            &&& exists|k: int|
                0 <= k < n - 2 && #[trigger] ops[k] == (Access::Word32 { off: s + 40, v: block })
        }),
{
    message_laws::law_request_is_refused_if_too_large(v, c.block_size as nat);
    let b = region::pool_of(c).block(block as int);
    assert(c.block_count * c.block_size >= 0) by (nonlinear_arith);
    assert(block * c.block_size >= 0) by (nonlinear_arith);
    assert(region::pool_of(c).base == 128 + c.slot_count * 64);
    let head = exchange::request_block_stores(c, block, v);
    assert(head.len() == 2);
    let s = 128 + slot * 64;
    assert(ops.len() == 9);
    assert(ops[6] == (Access::Word32 { off: s + 40, v: block }));
}

/// A slot says that its response is ready only when the response is written: that is stored
/// last.
pub proof fn law_response_is_written_before_it_is_ready(
    c: ShmConfig,
    ops: Accesses,
    slot: int,
    v: ResponseView,
)
    requires
        service::answers(c, ops, slot, v),
    ensures
        ops.len() > 0,
        ops.last() == (Access::Word32 { off: 128 + slot * 64, v: 3 }),
{
}

/// An entry of a ring has no number while it is written, and gets its number last; and a
/// message is announced only when its entry is written.
pub proof fn law_messages_are_announced_last(
    c: PubSubRpcConfig,
    client: int,
    block: u32,
    len: u32,
    seq: u64,
)
    requires
        c.ring_depth > 0,
    ensures
        ({
            let e = message_at(c, client, seq as int, false);
            let ops = pubsub_rpc::request_stores(c, client, block, len, seq);
            ops == seq![
                Access::Word64 { off: e, v: 0 },
                Access::Word32 { off: e + 8, v: block },
                Access::Word32 { off: e + 12, v: len },
                Access::Word64 { off: e, v: seq },
                Access::Word64 { off: 128 + client * 64 + 16, v: seq },
            ]
        }),
        ({
            let e = message_at(c, client, seq as int, true);
            let ops = pubsub_rpc::response_stores(c, client, block, len, seq);
            ops == seq![
                Access::Word64 { off: e, v: 0 },
                Access::Word32 { off: e + 8, v: block },
                Access::Word32 { off: e + 12, v: len },
                Access::Word64 { off: e, v: seq },
                Access::Word64 { off: 128 + client * 64 + 24, v: seq },
            ]
        }),
{
    assert(pubsub_rpc::req_off(c, client, seq) == message_at(c, client, seq as int, false));
    assert(pubsub_rpc::resp_off(c, client, seq) == message_at(c, client, seq as int, true));
}

} // verus!
