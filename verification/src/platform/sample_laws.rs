//! What publishers and subscribers do, stated over the bytes of the segment and over plain
//! arithmetic.

use crate::error::Error;
use crate::memory::{self, Access, SharedMemory};
use crate::platform::channel::Channel;
use crate::platform::laws::segment;
use crate::platform::loan::Topic;
use crate::platform::pod_bus::{self, PodBus};
use crate::platform::shm::{self, Clock, ShmPublisher, Stock};
use crate::platform::subscription::{self, RecvTurn, RecvWait, SlotRead, Subscription};
use crate::pod::Pod;
use crate::protocol::config::PubSubConfig;
use crate::protocol::header;
use crate::protocol::laws::doubled;
use crate::protocol::laws::law_powers_of_two;
use crate::protocol::layout;
use crate::protocol::pool::{self, PoolLayout, NO_BLOCK};
use crate::protocol::reading;
use crate::protocol::region;
use crate::wait::{self, WaitStrategy};
use vstd::prelude::*;

verus! {

broadcast use crate::memory::group_memory;

/// Where the entry of a topic begins: behind a header of 128 bytes, with 128 bytes for every
/// topic before it.
pub open spec fn topic_at(topic: int) -> int {
    128 + topic * 128
}

/// Where the entry of a sample is in the ring of its topic: behind the topics, with 16 bytes
/// for every entry before it.
pub open spec fn entry_at(c: PubSubConfig, topic: int, seq: int) -> int {
    128 + c.max_topics * 128 + (topic * c.ring_depth + seq % c.ring_depth as int) * 16
}

/// Where a block begins: behind the rings and the blocks before it.
pub open spec fn block_at(c: PubSubConfig, block: int) -> int {
    128 + c.max_topics * 128 + c.max_topics * c.ring_depth * 16 + block * c.block_size
}

/// The ring of a topic holds a sample: the entry has its number, names a block that there
/// is, with a length that the block has room for, and the block is referred to.
pub open spec fn stands(c: PubSubConfig, m: Seq<u8>, topic: int, seq: int) -> bool {
    let e = entry_at(c, topic, seq);
    let block = memory::u32_at(m, e + 8);
    &&& memory::u64_at(m, e) == seq
    &&& block < c.block_count
    &&& memory::u32_at(m, e + 12) + 8 <= c.block_size
    &&& 0 < memory::u32_at(m, block_at(c, block as int) + 4) < u32::MAX
}

/// The number of the newest sample of a topic.
pub open spec fn newest(m: Seq<u8>, topic: int) -> u64 {
    memory::u64_at(m, topic_at(topic) + 8)
}

proof fn lemma_stands(c: PubSubConfig, m: Seq<u8>, topic: int, seq: u64)
    requires
        segment(c, m),
    ensures
        subscription::readable(c, m, topic, seq) == stands(c, m, topic, seq as int),
{
    layout::lemma_layout(c);
}

proof fn lemma_first(c: PubSubConfig, m: Seq<u8>, topic: int, from: int, to: int)
    requires
        segment(c, m),
        0 <= from,
        to <= u64::MAX,
    ensures
        match subscription::first_readable(c, m, topic, from, to) {
            Some(s) => {
                &&& from <= s <= to
                &&& stands(c, m, topic, s as int)
                &&& forall|u: int| from <= u < s ==> !#[trigger] stands(c, m, topic, u)
            },
            None => forall|u: int| from <= u <= to ==> !#[trigger] stands(c, m, topic, u),
        },
    decreases to - from + 1,
{
    if from <= to {
        lemma_stands(c, m, topic, from as u64);
        lemma_first(c, m, topic, from + 1, to);
    }
}

/// A subscriber receives the oldest sample that it has not received and that the ring still
/// holds; none is received exactly if there is no such sample.
#[verifier::rlimit(50)]
pub proof fn law_next_sample(c: PubSubConfig, m: Seq<u8>, topic: int, last: u64)
    requires
        segment(c, m),
    ensures
        match subscription::next_readable(c, m, topic, last) {
            Some(s) => {
                &&& last < s <= newest(m, topic)
                &&& newest(m, topic) - s < c.ring_depth
                &&& stands(c, m, topic, s as int)
                &&& forall|u: int|
                    last < u < s && newest(m, topic) - u < c.ring_depth ==> !#[trigger] stands(
                        c,
                        m,
                        topic,
                        u,
                    )
            },
            None => forall|u: int|
                last < u <= newest(m, topic) && newest(m, topic) - u < c.ring_depth
                    ==> !#[trigger] stands(c, m, topic, u),
        },
{
    layout::lemma_layout(c);
    let n = newest(m, topic);
    if n > last {
        lemma_first(
            c,
            m,
            topic,
            subscription::window_start(c.ring_depth, n, last),
            n as int,
        );
    }
}

/// What a subscriber gets of a sample is the block and the length that its entry names. The
/// block is referred to once more, nothing else changes, and the subscriber goes on behind
/// that sample. If there is none, nothing changes.
#[verifier::rlimit(50)]
pub proof fn law_received_sample<M: SharedMemory>(
    before: Subscription<M>,
    after: Subscription<M>,
    r: Option<SlotRead>,
)
    requires
        segment(before.region.config, before.region.mem.image()),
        before.topic_idx < before.region.config.max_topics,
        before.received(&after, r),
    ensures
        ({
            let c = before.region.config;
            let m = before.region.mem.image();
            let n = after.region.mem.image();
            match r {
                Some(s) => {
                    let e = entry_at(c, before.topic_idx as int, after.last_seq as int);
                    let count = block_at(c, s.block_idx as int) + 4;
                    &&& before.last_seq < after.last_seq <= newest(m, before.topic_idx as int)
                    &&& s.block_idx == memory::u32_at(m, e + 8)
                    &&& s.data_len == memory::u32_at(m, e + 12)
                    &&& memory::u32_at(n, count) == memory::u32_at(m, count) + 1
                    &&& n.len() == m.len()
                    &&& forall|i: int|
                        0 <= i < m.len() && !(count <= i < count + 4) ==> #[trigger] n[i] == m[i]
                },
                None => n == m && after.last_seq == before.last_seq,
            }
        }),
{
    let c = before.region.config;
    let m = before.region.mem.image();
    let t = before.topic_idx as int;
    law_next_sample(c, m, t, before.last_seq);
    layout::lemma_layout(c);
    if r is Some {
        let s = r->0;
        assert(stands(c, m, t, after.last_seq as int));
        region::lemma_block_parts(c, s.block_idx as int);
        pool::lemma_block(layout::pool_of(c), s.block_idx as int, m.len());
    }
}

/// A topic stands in an entry: the entry is in use, and has the text of the URI, its length
/// and its hash.
pub open spec fn is_of(m: Seq<u8>, topic: int, uri: Seq<u8>) -> bool {
    let t = topic_at(topic);
    &&& memory::u32_at(m, t) == 1
    &&& memory::u32_at(m, t + 20) == uri.len()
    &&& uri.len() <= 64
    &&& m.subrange(t + 32, t + 32 + uri.len()) == uri
    &&& memory::u64_at(m, t + 24) == layout::fnv(uri)
}

/// A search for a topic finds the first entry in which it stands, and none exactly if it
/// stands in none.
pub proof fn law_topic_is_found_by_its_uri(m: Seq<u8>, from: int, count: int, uri: Seq<u8>)
    requires
        0 <= from,
    ensures
        match shm::find_topic(m, from, count, uri) {
            Some(i) => {
                &&& from <= i < count
                &&& is_of(m, i, uri)
                &&& forall|k: int| from <= k < i ==> !#[trigger] is_of(m, k, uri)
            },
            None => forall|k: int| from <= k < count ==> !#[trigger] is_of(m, k, uri),
        },
    decreases count - from,
{
    if from < count {
        law_topic_is_found_by_its_uri(m, from + 1, count, uri);
        assert(shm::topic_matches(m, from, uri) == is_of(m, from, uri));
    }
}

/// A new topic gets the first entry that is free, and none exactly if none is free.
pub proof fn law_first_free_entry(m: Seq<u8>, from: int, count: int)
    requires
        0 <= from,
    ensures
        match shm::find_free(m, from, count) {
            Some(i) => {
                &&& from <= i < count
                &&& memory::u32_at(m, topic_at(i)) == 0
                &&& forall|k: int|
                    from <= k < i ==> memory::u32_at(m, #[trigger] topic_at(k)) != 0
            },
            None => forall|k: int|
                from <= k < count ==> memory::u32_at(m, #[trigger] topic_at(k)) != 0,
        },
    decreases count - from,
{
    if from < count {
        law_first_free_entry(m, from + 1, count);
        assert(shm::topic_free(m, from) == (memory::u32_at(m, topic_at(from)) == 0));
    }
}

/// An entry that is taken for a topic has its URI, no samples, and the size of its type;
/// nothing outside of the entry changes, and in it neither the number of sleepers nor that
/// of the subscribers does.
pub proof fn law_entry_of_a_new_topic(
    m: Seq<u8>,
    topic: int,
    uri: Seq<u8>,
    type_size: u32,
)
    requires
        0 <= topic,
        topic_at(topic) + 128 <= m.len(),
        uri.len() <= 64,
    ensures
        ({
            let n = shm::with_topic(m, topic, uri, type_size);
            let t = topic_at(topic);
            &&& n.len() == m.len()
            &&& is_of(n, topic, uri)
            &&& newest(n, topic) == 0
            &&& memory::u32_at(n, t + 96) == type_size
            &&& memory::u32_at(n, t + 16) == memory::u32_at(m, t + 16)
            &&& memory::u32_at(n, t + 120) == memory::u32_at(m, t + 120)
            &&& forall|i: int|
                0 <= i < m.len() && !(t <= i < t + 128) ==> #[trigger] n[i] == m[i]
        }),
{
    let n = shm::with_topic(m, topic, uri, type_size);
    let t = topic_at(topic);
    assert(n.subrange(t + 32, t + 32 + uri.len()) =~= uri);
}

/// Registering a topic gives the entry in which it stands already, and changes nothing, or
/// else the first free one, which is made the entry of that topic. It fails exactly if the
/// URI is too long, or if the topic stands nowhere and no entry is free.
#[verifier::rlimit(50)]
pub proof fn law_registering<M: SharedMemory>(
    before: ShmPublisher<M>,
    after: ShmPublisher<M>,
    uri: Seq<char>,
    type_size: u32,
    r: Result<Topic, Error>,
)
    requires
        before.region.mem.exclusive(),
        before.registered(&after, uri, type_size, r),
    ensures
        ({
            let b = vstd::utf8::encode_utf8(uri);
            let m = before.region.mem.image();
            let n = before.region.config.max_topics as int;
            let there = exists|k: int| 0 <= k < n && #[trigger] is_of(m, k, b);
            let free = exists|k: int|
                0 <= k < n && memory::u32_at(m, #[trigger] topic_at(k)) == 0;
            &&& b.len() > 64 ==> {
                &&& r matches Err(Error::UriTooLong { len, max })
                &&& len == b.len()
                &&& max == 64
                &&& after.region.mem == before.region.mem
            }
            &&& b.len() <= 64 && (there || free) ==> r is Ok
            &&& b.len() <= 64 && !there && !free ==> (r matches Err(e) && e is MaxTopicsReached)
            &&& r matches Ok(t) ==> {
                &&& t.topic_idx < n
                &&& t.publisher_id == before.id
                &&& there ==> is_of(m, t.topic_idx as int, b) && after.region.mem.image() == m
                &&& !there ==> {
                    &&& memory::u32_at(m, topic_at(t.topic_idx as int)) == 0
                    &&& after.region.mem.image() == shm::with_topic(
                        m,
                        t.topic_idx as int,
                        b,
                        type_size,
                    )
                }
            }
        }),
{
    let b = vstd::utf8::encode_utf8(uri);
    let m = before.region.mem.image();
    let n = before.region.config.max_topics as int;
    law_topic_is_found_by_its_uri(m, 0, n, b);
    law_first_free_entry(m, 0, n);
    if shm::find_topic(m, 0, n, b) is Some {
        assert(is_of(m, shm::find_topic(m, 0, n, b)->0, b));
    }
    if shm::find_free(m, 0, n) is Some {
        let k = shm::find_free(m, 0, n)->0;
        assert(memory::u32_at(m, topic_at(k)) == 0);
    }
}

/// The hash of a URI: that of the empty text is the offset of the function, and a byte more
/// is taken in by an exclusive or and a multiplication with its prime, modulo two to the
/// power of 64.
pub proof fn law_hash_takes_in_every_byte(b: Seq<u8>, x: u8)
    ensures
        layout::fnv(Seq::empty()) == 0xcbf29ce484222325,
        layout::fnv(b.push(x)) == ((layout::fnv(b) ^ (x as u64)) * 0x100000001b3)
            % 0x1_0000_0000_0000_0000,
{
    assert(b.push(x).drop_last() =~= b);
    let h = layout::fnv(b) ^ (x as u64);
    let p = h.wrapping_mul(0x0100_0000_01b3);
    assert(layout::fnv(b.push(x)) == p);
    assert(p == (h * 0x100000001b3) % 0x1_0000_0000_0000_0000);
}

/// A segment can be made with some parameters exactly if a block has room for a byte behind
/// its head, the depth of the rings is a power of two, there are blocks and topics, and all
/// of it fits the address space. The first parameter that is not as it should be is named.
#[verifier::rlimit(50)]
pub proof fn law_which_segments_there_are(c: PubSubConfig)
    ensures
        ({
            let depth = exists|k: nat| c.ring_depth == #[trigger] doubled(k);
            let size = 128 + c.max_topics * 128 + c.max_topics * c.ring_depth * 16
                + c.block_count * c.block_size;
            let fault = header::config_fault(c);
            &&& fault is None <==> c.block_size >= 9 && depth && c.block_count >= 1
                && c.max_topics >= 1 && size <= usize::MAX
            &&& c.block_size < 9 <==> fault == Some(header::ConfigFault::BlockSize(c.block_size))
            &&& c.block_size >= 9 && !depth <==> fault == Some(
                header::ConfigFault::RingDepth(c.ring_depth),
            )
            &&& c.block_size >= 9 && depth && c.block_count == 0 <==> fault == Some(
                header::ConfigFault::BlockCount,
            )
            &&& c.block_size >= 9 && depth && c.block_count > 0 && c.max_topics == 0 <==> fault
                == Some(header::ConfigFault::MaxTopics)
            &&& layout::valid_config(c) <==> fault is None
        }),
{
    let d = c.ring_depth as int;
    law_powers_of_two(d, 0);
    if exists|k: nat| d == #[trigger] doubled(k) {
        let k = choose|k: nat| d == #[trigger] doubled(k);
        law_powers_of_two(0, k);
    }
}

#[verifier::rlimit(50)]
proof fn lemma_refilled(p: PoolLayout, m: Seq<u8>, cache: Seq<u32>, list: Seq<u32>)
    requires
        p.fits(m.len()),
        p.is_free_list(m, list),
        cache.len() <= 8,
    ensures
        ({
            let room = 8 - cache.len();
            let k = if list.len() < room {
                list.len() as int
            } else {
                room
            };
            let r = shm::refilled(p, m, cache);
            &&& r.1 == cache + list.subrange(0, k)
            &&& p.is_free_list(r.0, list.subrange(k, list.len() as int))
        }),
    decreases 8 - cache.len(),
{
    pool::law_alloc_takes_the_head(p, m, list);
    let room = 8 - cache.len();
    let k = if list.len() < room {
        list.len() as int
    } else {
        room
    };
    let r = shm::refilled(p, m, cache);
    if room == 0 || list.len() == 0 {
        assert(list.subrange(k, list.len() as int) =~= list);
        assert(cache + list.subrange(0, k) =~= cache);
    } else {
        let rest = list.subrange(1, list.len() as int);
        lemma_refilled(p, p.after_alloc(m), cache.push(list[0]), rest);
        assert(rest.subrange(k - 1, rest.len() as int) =~= list.subrange(k, list.len() as int));
        assert(cache.push(list[0]) + rest.subrange(0, k - 1) =~= cache + list.subrange(0, k));
    }
}

/// Which block is lent: the one that was given back last, if it is kept; else the newest of
/// those that were taken ahead; else up to eight are taken from the free list, in its order,
/// and the last of them is lent. There is none exactly if there is none anywhere.
#[verifier::rlimit(50)]
pub proof fn law_which_block_is_lent(p: PoolLayout, s: Stock, list: Seq<u32>)
    requires
        p.fits(s.image.len()),
        p.is_free_list(s.image, list),
    ensures
        ({
            let r = shm::taken(p, s);
            let k = if list.len() < 8 {
                list.len() as int
            } else {
                8
            };
            &&& s.warm != NO_BLOCK ==> r == (
                Some(s.warm),
                Stock { image: s.image, warm: NO_BLOCK, cache: s.cache },
            )
            &&& s.warm == NO_BLOCK && s.cache.len() > 0 ==> r == (
                Some(s.cache.last()),
                Stock { image: s.image, warm: NO_BLOCK, cache: s.cache.drop_last() },
            )
            &&& s.warm == NO_BLOCK && s.cache.len() == 0 && list.len() > 0 ==> {
                &&& r.0 == Some(list[k - 1])
                &&& r.1.cache == list.subrange(0, k - 1)
                &&& r.1.warm == NO_BLOCK
                &&& p.is_free_list(r.1.image, list.subrange(k, list.len() as int))
            }
            &&& s.warm == NO_BLOCK && s.cache.len() == 0 && list.len() == 0 ==> {
                &&& r.0 is None
                &&& r.1.cache.len() == 0
                &&& r.1.image == s.image
            }
        }),
{
    if s.warm == NO_BLOCK && s.cache.len() == 0 {
        lemma_refilled(p, s.image, s.cache, list);
        let k = if list.len() < 8 {
            list.len() as int
        } else {
            8
        };
        assert(s.cache + list.subrange(0, k) =~= list.subrange(0, k));
        pool::law_alloc_takes_the_head(p, s.image, list);
        if list.len() > 0 {
            assert(list.subrange(0, k).last() == list[k - 1]);
            assert(list.subrange(0, k).drop_last() =~= list.subrange(0, k - 1));
        }
    }
}

/// Blocks that are given back one after the other are the first ones of the free list then,
/// the last one in front.
#[verifier::rlimit(40)]
pub proof fn law_all_blocks_go_back(p: PoolLayout, m: Seq<u8>, list: Seq<u32>, blocks: Seq<u32>)
    requires
        p.fits(m.len()),
        p.is_free_list(m, list),
        blocks.no_duplicates(),
        forall|i: int|
            0 <= i < blocks.len() ==> #[trigger] blocks[i] < p.block_count && !list.contains(
                blocks[i],
            ),
    ensures
        p.is_free_list(shm::all_freed(p, m, blocks), blocks.reverse() + list),
        shm::all_freed(p, m, blocks).len() == m.len(),
    decreases blocks.len(),
{
    if blocks.len() == 0 {
        assert(blocks.reverse() + list =~= list);
    } else {
        let front = blocks.drop_last();
        let last = blocks.last();
        assert forall|i: int| 0 <= i < front.len() implies #[trigger] front[i] < p.block_count
            && !list.contains(front[i]) by {
            assert(front[i] == blocks[i]);
        }
        law_all_blocks_go_back(p, m, list, front);
        let n = shm::all_freed(p, m, front);
        let all = front.reverse() + list;
        if all.contains(last) {
            let i = choose|i: int| 0 <= i < all.len() && all[i] == last;
            if i < front.len() {
                assert(all[i] == blocks[front.len() - 1 - i]);
            } else {
                assert(all[i] == list[i - front.len()]);
                assert(list.contains(blocks[blocks.len() - 1]));
            }
        }
        assert(last == blocks[blocks.len() - 1]);
        pool::law_free_pushes_the_head(p, n, all, last);
        assert(seq![last] + all =~= blocks.reverse() + list);
    }
}

/// What a publisher gives back at its end is every block that it has pinned, kept or taken
/// ahead, and nothing else.
#[verifier::rlimit(50)]
pub proof fn law_what_a_publisher_holds<M: SharedMemory>(p: ShmPublisher<M>, block: u32)
    requires
        block != NO_BLOCK,
    ensures
        p.held_blocks().contains(block) <==> p.pinned_blocks@.contains(block)
            || p.region.last_freed == block || p.block_cache@.contains(block),
        p.wf() ==> !p.held_blocks().contains(NO_BLOCK),
{
    let pins = p.pinned_blocks@;
    let pred = |b: u32| b != NO_BLOCK;
    let held = p.held_blocks();
    let a = shm::named(pins);
    assert(a == pins.filter(pred));
    let w = if p.region.last_freed != NO_BLOCK {
        seq![p.region.last_freed]
    } else {
        Seq::<u32>::empty()
    };
    let k = p.block_cache@;
    assert(held == a + w + k);
    broadcast use vstd::seq_lib::group_filter_ensures;

    lemma_in_three(a, w, k, block);
    lemma_in_three(a, w, k, NO_BLOCK);
    if pins.contains(block) {
        let i = choose|i: int| 0 <= i < pins.len() && pins[i] == block;
        assert(pred(pins[i]));
        assert(a.contains(pins[i]));
    }
    if a.contains(block) {
        pins.lemma_filter_contains_rev(pred, block);
    }
    if p.region.last_freed == block {
        assert(w[0] == block);
        assert(w.contains(block));
    }
    if a.contains(NO_BLOCK) {
        let i = choose|i: int| 0 <= i < a.len() && a[i] == NO_BLOCK;
        assert(pred(a[i]));
    }
    if p.wf() && k.contains(NO_BLOCK) {
        let i = choose|i: int| 0 <= i < k.len() && k[i] == NO_BLOCK;
        assert(k[i] < p.region.config.block_count);
    }
}

#[verifier::rlimit(50)]
proof fn lemma_in_three(a: Seq<u32>, b: Seq<u32>, c: Seq<u32>, x: u32)
    ensures
        (a + b + c).contains(x) <==> a.contains(x) || b.contains(x) || c.contains(x),
{
    let all = a + b + c;
    if a.contains(x) {
        let i = choose|i: int| 0 <= i < a.len() && a[i] == x;
        assert(all[i] == x);
    }
    if b.contains(x) {
        let i = choose|i: int| 0 <= i < b.len() && b[i] == x;
        assert(all[a.len() + i] == x);
    }
    if c.contains(x) {
        let i = choose|i: int| 0 <= i < c.len() && c[i] == x;
        assert(all[a.len() + b.len() + i] == x);
    }
    if all.contains(x) {
        let i = choose|i: int| 0 <= i < all.len() && all[i] == x;
        if i < a.len() {
            assert(a[i] == x);
        } else if i < a.len() + b.len() {
            assert(b[i - a.len()] == x);
        } else {
            assert(c[i - a.len() - b.len()] == x);
        }
    }
}

/// A publisher renews its heartbeat with every 1024th loan, if the interval has passed since
/// the last time and the clock can be read.
pub proof fn law_when_a_publisher_beats<M: SharedMemory>(p: ShmPublisher<M>, clock: Clock)
    ensures
        p.beats(clock) <==> {
            let due = p.last_heartbeat + p.region.config.heartbeat_interval_us;
            &&& p.loan_count % 1024 == 1023
            &&& clock.mono_us >= due || p.region.config.heartbeat_interval_us == 0
            &&& clock.wall_us is Some
        },
{
}

/// The heartbeat is set to the time, unless it is later than that already. Nothing else in
/// the segment changes.
pub proof fn law_heartbeat_moves_forward(m: Seq<u8>, now: u64)
    requires
        m.len() >= 128,
    ensures
        ({
            let n = shm::with_heartbeat(m, now);
            let was = memory::u64_at(m, 40);
            let beat = memory::u64_at(n, 40);
            &&& beat >= was
            &&& beat >= now
            &&& beat == was || beat == now
            &&& n.len() == m.len()
            &&& forall|i: int| 0 <= i < m.len() && !(40 <= i < 48) ==> #[trigger] n[i] == m[i]
        }),
{
}

/// A receiver sleeps for a third of the timeout, in whole milliseconds, but for one at least
/// and for fifty at most.
pub proof fn law_longest_sleep(stale_timeout_us: u64)
    ensures
        ({
            let ms = subscription::poll_interval(stale_timeout_us);
            &&& 1 <= ms <= 50
            &&& 3000 <= stale_timeout_us < 153_000 ==> 3000 * ms <= stale_timeout_us < 3000 * (ms
                + 1)
            &&& stale_timeout_us < 3000 ==> ms == 1
            &&& stale_timeout_us >= 150_000 ==> ms == 50
        }),
{
}

/// How many hints an iteration issues: none if it spins bare, one if it yields, and twice as
/// many as the one before, up to 64, if it backs off. An adaptive receiver spins bare as
/// often as it is told to, then yields as often as it is told to, and only then sleeps; no
/// other receiver ever sleeps.
pub proof fn law_how_a_receiver_waits(w: RecvWait, i: u32, spins: u32, yields: u32)
    ensures
        wait::hints_of(WaitStrategy::BusySpin, i) == 0,
        wait::hints_of(WaitStrategy::YieldSpin, i) == 1,
        wait::hints_of(WaitStrategy::BackoffSpin, 0) == 1,
        i < 6 ==> wait::hints_of(WaitStrategy::BackoffSpin, (i + 1) as u32) == 2
            * wait::hints_of(WaitStrategy::BackoffSpin, i),
        i >= 6 ==> wait::hints_of(WaitStrategy::BackoffSpin, i) == 64,
        ({
            let s = WaitStrategy::Adaptive { spin_iters: spins, yield_iters: yields };
            let hints = wait::hints_of(s, i);
            &&& i < spins ==> hints == 0
            &&& spins <= i < spins + yields && i < u32::MAX ==> hints == 1
            &&& i >= spins + yields ==> hints == 0
            &&& w.strategy == s && spins + yields <= u32::MAX ==> (w.sleeps() <==> w.iter >= spins
                + yields)
            &&& w.strategy == s && w.sleeps() ==> wait::hints_of(s, w.iter) == 0
        }),
        !(w.strategy is Adaptive) ==> !w.sleeps(),
{
    reveal_with_fuel(wait::doubled, 8);
}

/// A receiver that finds nothing gives up only if the clock cannot be read, or if more time
/// than the timeout has passed since the heartbeat of the publisher; it looks after that in
/// every 1024th iteration, and then does give up. One that is to sleep says so, and is
/// counted among the sleepers.
pub proof fn law_receiver_gives_up<M: SharedMemory, G>(
    before: Subscription<M>,
    after: Subscription<M>,
    wait: RecvWait,
    wait_after: RecvWait,
    now: Option<u64>,
    r: RecvTurn<G>,
)
    requires
        before.waited(&after, wait, wait_after, now, r),
        topic_at(before.topic_idx as int) + 128 <= before.region.mem.image().len(),
    ensures
        ({
            let m = before.region.mem.image();
            let n = after.region.mem.image();
            let dead = now matches Some(t) && t > memory::u64_at(m, 40)
                + before.region.config.stale_timeout_us;
            let sleepers = topic_at(before.topic_idx as int) + 16;
            &&& after.last_seq == before.last_seq
            &&& wait_after.strategy == wait.strategy
            &&& wait_after.poll_ms == wait.poll_ms
            &&& r !is Got
            &&& r matches RecvTurn::Failed(e) ==> if now is None {
                e is ClockError
            } else {
                e is PublisherDead && dead
            }
            &&& r is Failed <==> !wait.sleeps() && wait_after.iter % 1024 == 0 && (now is None
                || dead)
            &&& r is Sleep <==> wait.sleeps()
            &&& r matches RecvTurn::Sleep { seen, millis } ==> {
                &&& millis == wait.poll_ms
                &&& seen == memory::u32_at(m, topic_at(before.topic_idx as int) + 8)
                &&& wait_after.iter == wait.iter
                &&& memory::u32_at(n, sleepers) == (memory::u32_at(m, sleepers) + 1)
                    % 0x1_0000_0000
                &&& n.len() == m.len()
                &&& forall|i: int|
                    0 <= i < m.len() && !(sleepers <= i < sleepers + 4) ==> #[trigger] n[i]
                        == m[i]
            }
            &&& r !is Sleep ==> n == m && (wait.iter < u32::MAX ==> wait_after.iter == wait.iter
                + 1)
        }),
{
}

/// A sample of a header and an array is read as one of `count` entries exactly if its last
/// four bytes say so and it is as long as the header, that many entries and those four bytes.
pub proof fn law_how_many_entries(data: Seq<u8>, header_size: nat, entry_size: nat, count: nat)
    ensures
        subscription::structured_count(data, header_size, entry_size) == Some(count) <==> {
            &&& data.len() >= header_size + 4
            &&& memory::u32_at(data, data.len() - 4) == count
            &&& data.len() == header_size + count * entry_size + 4
        },
{
}

/// A pinned sample can be received exactly if there is one, its number is above the last one
/// received, its block is one that there is, with room for its length, and a reader more can
/// be counted. Its number is the upper half of the word, and its length the lower one.
pub proof fn law_which_pinned_sample(c: PubSubConfig, m: Seq<u8>, topic: int, last: u64)
    ensures
        subscription::pinned_readable(c, m, topic, last) <==> {
            let word = memory::u64_at(m, topic_at(topic) + 112);
            &&& word != 0
            &&& word / 0x1_0000_0000 > last
            &&& memory::u32_at(m, topic_at(topic) + 100) < c.block_count
            &&& word % 0x1_0000_0000 + 8 <= c.block_size
            &&& memory::u32_at(m, topic_at(topic) + 104) < 0xFFFF_FFFE
        },
{
}

/// A publisher lends nothing for a topic of another publisher, and is not changed by the
/// attempt. Otherwise it counts the loan, notes the time of a heartbeat if it gave one with
/// the loan, and fails only if the pool is exhausted.
#[verifier::rlimit(60)]
pub proof fn law_loans_are_counted<M: SharedMemory>(
    before: ShmPublisher<M>,
    after: ShmPublisher<M>,
    handle: Topic,
    clock: Clock,
    r: Result<u32, Error>,
    borrowed: Option<(region::Region<M>, region::Region<M>)>,
)
    requires
        before.loaned(&after, handle, clock, r, borrowed),
    ensures
        handle.publisher_id != before.id ==> after == before && (r matches Err(e) && e
            is HandleMismatch),
        handle.publisher_id == before.id ==> {
            let interval = before.region.config.heartbeat_interval_us;
            let beats = before.loan_count % 1024 == 1023 && clock.wall_us is Some && (
            clock.mono_us >= before.last_heartbeat + interval || interval == 0);
            &&& after.loan_count == (before.loan_count + 1) % 0x1_0000_0000
            &&& after.last_heartbeat == if beats {
                clock.mono_us
            } else {
                before.last_heartbeat
            }
            &&& r matches Err(e) ==> e is PoolExhausted
        },
        after.id == before.id,
        after.is_owner == before.is_owner,
        after.pinned_blocks == before.pinned_blocks,
{
    law_when_a_publisher_beats(before, clock);
    lemma_one_more(before.loan_count);
}

proof fn lemma_one_more(k: u32)
    ensures
        memory::wrapping_sum_u32(k, 1) == (k + 1) % 0x1_0000_0000,
{
}

/// Where an access begins.
pub open spec fn begins_at(a: Access) -> int {
    match a {
        Access::Look32 { off, .. } => off,
        Access::Look64 { off, .. } => off,
        Access::Copied { off, .. } => off,
        Access::Bytes { off, .. } => off,
        Access::Word32 { off, .. } => off,
        Access::Word64 { off, .. } => off,
        Access::Exchange32 { off, .. } => off,
        Access::Exchange64 { off, .. } => off,
        Access::Add32 { off, .. } => off,
        Access::Subtract32 { off, .. } => off,
        Access::Add64 { off, .. } => off,
        Access::Raise64 { off, .. } => off,
    }
}

/// An entry says that it is in use only when all of it is written: what is stored before that
/// lies behind the word that says so, and that word is stored last.
pub proof fn law_topic_appears_whole(topic: int, uri: Seq<u8>, type_size: u32)
    requires
        0 <= topic,
        uri.len() <= 64,
    ensures
        ({
            let ops = shm::topic_stores(topic, uri, type_size);
            let t = topic_at(topic);
            &&& ops.len() > 0
            &&& ops.last() == (Access::Word32 { off: t, v: 1 })
            &&& forall|k: int|
                0 <= k < ops.len() - 1 ==> t + 8 <= begins_at(#[trigger] ops[k]) < t + 128
            &&& exists|k: int|
                0 <= k < ops.len() && #[trigger] ops[k] == (Access::Bytes { off: t + 32, data: uri })
            &&& exists|k: int|
                0 <= k < ops.len() && #[trigger] ops[k] == (Access::Word64 { off: t + 8, v: 0 })
        }),
{
    let ops = shm::topic_stores(topic, uri, type_size);
    let t = topic_at(topic);
    assert(ops[2] == (Access::Bytes { off: t + 32, data: uri }));
    assert(ops[3] == (Access::Word64 { off: t + 8, v: 0 }));
}

/// A bus is made exactly if its name is a name for a segment, its values need no more than
/// eight bytes of alignment, and the clock can be read.
pub proof fn law_making_a_bus<T: Pod, M: SharedMemory>(
    name: Seq<char>,
    ring_size: usize,
    watermark: Option<u64>,
    mem: M,
    pid: u64,
    now: Option<u64>,
    r: Result<PodBus<T, M>, Error>,
)
    requires
        pod_bus::created_as(name, ring_size, watermark, mem, pid, now, r),
    ensures
        ({
            let named = layout::valid_segment_name(name);
            &&& r is Ok <==> named && T::align() <= 8 && now is Some
            &&& !named ==> (r matches Err(Error::SegmentNameInvalid(n)) && n@ == name)
            &&& named && T::align() > 8 ==> (r matches Err(Error::AlignmentError { align, max })
                && align == T::align() && max == 8)
            &&& named && T::align() <= 8 && now is None ==> (r matches Err(e) && e is ClockError)
            &&& r matches Ok(bus) ==> bus.ring_size == ring_size && bus.watermark == watermark
                && bus.name@ == name
        }),
{
}

/// Sending over a channel succeeds exactly if there is a block, and the data fits behind its
/// head of eight bytes. If there is none the pool is exhausted; and data that does not fit
/// is reported with its size and with the room that there is.
pub proof fn law_what_can_be_sent<M: SharedMemory>(
    before: Channel<M>,
    after: Channel<M>,
    data: Seq<u8>,
    clock: Clock,
    r: Result<bool, Error>,
    list: Seq<u32>,
)
    requires
        before.sent(&after, data, clock, r),
        ({
            let p = layout::pool_of(before.tx_pub.region.config);
            let m = before.tx_pub.stock_after_beat(clock).image;
            p.fits(m.len()) && p.is_free_list(m, list)
        }),
    ensures
        ({
            let size = before.tx_pub.region.config.block_size;
            let there = before.tx_pub.region.last_freed != NO_BLOCK
                || before.tx_pub.block_cache@.len() > 0 || list.len() > 0;
            &&& r is Ok <==> there && data.len() + 8 <= size
            &&& r matches Err(e) ==> if there {
                e matches Error::DataTooLarge { size: n, capacity } && n == data.len()
                    && capacity + 8 == size
            } else {
                e is PoolExhausted
            }
        }),
{
    law_which_block_is_lent(
        layout::pool_of(before.tx_pub.region.config),
        before.tx_pub.stock_after_beat(clock),
        list,
    );
}

/// A reference is taken only of a block that is referred to already, and only if one more can
/// be counted: by the last exchange, which counts one more, while those before it failed. A
/// reader of a pinned block is counted only while nobody writes it; and a publisher takes an
/// entry for writing only if nobody else is writing it.
pub proof fn law_references_are_counted(tries: Seq<Access>, off: int)
    ensures
        reading::takes_reference(tries, off, true) ==> tries.len() > 0 && counts_one_more(
            tries.last(),
            off,
            1,
            0xFFFF_FFFE,
        ),
        subscription::enters(tries, off, true) ==> tries.len() > 0 && counts_one_more(
            tries.last(),
            off,
            0,
            0xFFFF_FFFD,
        ),
        region::claims(tries, off) ==> tries.len() > 0 && (tries.last()
            matches Access::Exchange64 { off: at, current, new, found } && at == off && current
            != u64::MAX && new == u64::MAX && found is Ok),
{
    if tries.len() > 0 {
        let last = tries[tries.len() - 1];
        assert(last == tries.last());
    }
}

/// An exchange has counted one more, from a count between two bounds.
pub open spec fn counts_one_more(a: Access, off: int, low: u32, high: u32) -> bool {
    a matches Access::Exchange32 { off: at, current, new, found } && at == off && low <= current
        <= high && new == current + 1 && found is Ok
}

} // verus!
