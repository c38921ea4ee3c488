//! What holds of calls as they follow each other.
//!
//! The values that a law speaks of are those before and after a call, and what
//! it requires of them is what the call promises.

use crate::error::Error;
use crate::memory::{self, SharedMemory};
use crate::platform::account_runs::{self, Action, State};
use crate::platform::accounting;
use crate::platform::channel::{self, Channel, ChannelEnd};
use crate::platform::laws;
use crate::platform::loan::Topic;
use crate::platform::publisher_laws;
use crate::platform::shm::{self, Clock, ShmPublisher, Stock};
use crate::platform::subscription::{self, SampleGuard, SlotRead, Subscription};
use crate::pod::Pod;
use crate::protocol::config::PubSubConfig;
use crate::protocol::header;
use crate::protocol::layout;
use crate::protocol::pool::NO_BLOCK;
use crate::protocol::region::{self, Region};
use vstd::multiset::Multiset;
use vstd::prelude::*;

verus! {

broadcast use crate::memory::group_memory;

/// The messages are in the ring of a topic, numbered from 1 on, and what is held
/// of a block has these bytes.
spec fn fine(
    c: PubSubConfig,
    m: Seq<u8>,
    held: Multiset<u32>,
    topic: int,
    messages: Seq<Seq<u8>>,
    block: u32,
    bytes: Seq<u8>,
) -> bool {
    &&& forall|j: int|
        1 <= j <= messages.len() ==> #[trigger] account_runs::in_ring(
            c,
            m,
            topic,
            j,
            messages[j - 1],
        )
    &&& held.contains(block) ==> region::block_data(c, m, block as int, bytes.len() as int)
        == bytes
}

/// An action keeps what is fine, unless it publishes more than a ring holds.
proof fn lemma_action_is_fine(
    c: PubSubConfig,
    s: State,
    a: Action,
    t: State,
    topic: int,
    messages: Seq<Seq<u8>>,
    block: u32,
    bytes: Seq<u8>,
)
    requires
        account_runs::in_order(c, s),
        account_runs::acts(c, s, a, t),
        0 <= topic < c.max_topics,
        block < c.block_count,
        bytes.len() <= region::capacity_of(c),
        fine(c, s.image, s.held, topic, messages, block, bytes),
        account_runs::publishes_on(a, topic) ==> messages.len() == 0 || (messages.len()
            == region::write_seq(s.image, topic) && messages.len() < c.ring_depth),
    ensures
        t.held == s.held ==> fine(c, t.image, t.held, topic, messages, block, bytes),
        fine(c, t.image, Multiset::empty(), topic, messages, block, bytes),
        !account_runs::publishes_on(a, topic) && !(a is Elsewhere) ==> region::write_seq(
            t.image,
            topic,
        ) == region::write_seq(s.image, topic),
{
    layout::lemma_layout(c);
    assert forall|j: int| 1 <= j <= messages.len() implies #[trigger] account_runs::in_ring(
        c,
        t.image,
        topic,
        j,
        messages[j - 1],
    ) by {
        assert(account_runs::in_ring(c, s.image, topic, j, messages[j - 1]));
        account_runs::lemma_slot_exists(c, j as u64);
        if account_runs::publishes_on(a, topic) {
            account_runs::lemma_slots_differ(c, j, messages.len() as int + 1);
        }
        account_runs::lemma_message_stays(c, s, a, t, topic, j, messages[j - 1]);
    }
    account_runs::lemma_action_keeps(c, s, a, t, block, bytes.len() as int, topic, 0);
    if s.held.contains(block) {
        assert(accounting::references(c, s.image, s.held, block) > 0);
    }
}

/// A heartbeat keeps what is fine.
proof fn lemma_beat_is_fine(
    c: PubSubConfig,
    s: State,
    now: u64,
    topic: int,
    messages: Seq<Seq<u8>>,
    block: u32,
    bytes: Seq<u8>,
)
    requires
        account_runs::in_order(c, s),
        0 <= topic < c.max_topics,
        block < c.block_count,
        bytes.len() <= region::capacity_of(c),
        fine(c, s.image, s.held, topic, messages, block, bytes),
    ensures
        ({
            let n = shm::with_heartbeat(s.image, now);
            &&& fine(c, n, s.held, topic, messages, block, bytes)
            &&& region::write_seq(n, topic) == region::write_seq(s.image, topic)
        }),
{
    layout::lemma_layout(c);
    layout::lemma_topic(c, topic);
    let t = State { image: shm::with_heartbeat(s.image, now), ..s };
    lemma_action_is_fine(c, s, Action::Elsewhere, t, topic, messages, block, bytes);
}

/// Filling a cache keeps what is fine.
proof fn lemma_refill_is_fine(
    c: PubSubConfig,
    m: Seq<u8>,
    cache: Seq<u32>,
    free: Seq<u32>,
    others: Set<u32>,
    held: Multiset<u32>,
    topic: int,
    messages: Seq<Seq<u8>>,
    block: u32,
    bytes: Seq<u8>,
)
    requires
        publisher_laws::in_order(
            c,
            Stock { image: m, warm: NO_BLOCK, cache },
            free,
            others,
            held,
        ),
        0 <= topic < c.max_topics,
        block < c.block_count,
        bytes.len() <= region::capacity_of(c),
        fine(c, m, held, topic, messages, block, bytes),
    ensures
        ({
            let n = shm::refilled(layout::pool_of(c), m, cache).0;
            &&& fine(c, n, held, topic, messages, block, bytes)
            &&& region::write_seq(n, topic) == region::write_seq(m, topic)
        }),
    decreases shm::CACHE_SIZE - cache.len(),
{
    let p = layout::pool_of(c);
    layout::lemma_layout(c);
    crate::protocol::pool::law_alloc_takes_the_head(p, m, free);
    if cache.len() < shm::CACHE_SIZE && free.len() > 0 {
        let first = free[0];
        let rest = free.subrange(1, free.len() as int);
        let s = publisher_laws::state(
            Stock { image: m, warm: NO_BLOCK, cache },
            free,
            others,
            held,
        );
        let t = State { image: p.after_alloc(m), free: rest, own: s.own.insert(first), held };
        lemma_action_is_fine(c, s, Action::Take, t, topic, messages, block, bytes);
        publisher_laws::lemma_one_taken(c, m, cache, free, others, held);
        lemma_refill_is_fine(
            c,
            p.after_alloc(m),
            cache.push(first),
            rest,
            others,
            held,
            topic,
            messages,
            block,
            bytes,
        );
    }
}

/// Taking a block for a loan keeps what is fine.
proof fn lemma_taken_is_fine(
    c: PubSubConfig,
    s: Stock,
    free: Seq<u32>,
    others: Set<u32>,
    held: Multiset<u32>,
    topic: int,
    messages: Seq<Seq<u8>>,
    block: u32,
    bytes: Seq<u8>,
)
    requires
        publisher_laws::in_order(c, s, free, others, held),
        0 <= topic < c.max_topics,
        block < c.block_count,
        bytes.len() <= region::capacity_of(c),
        fine(c, s.image, held, topic, messages, block, bytes),
    ensures
        ({
            let n = shm::taken(layout::pool_of(c), s).1.image;
            &&& fine(c, n, held, topic, messages, block, bytes)
            &&& region::write_seq(n, topic) == region::write_seq(s.image, topic)
        }),
{
    if s.warm == NO_BLOCK && s.cache.len() == 0 {
        lemma_refill_is_fine(
            c,
            s.image,
            s.cache,
            free,
            others,
            held,
            topic,
            messages,
            block,
            bytes,
        );
    }
}

/// Writing into a block that is lent, and publishing it, keeps what is fine.
proof fn lemma_publish_is_fine(
    c: PubSubConfig,
    s: Stock,
    free: Seq<u32>,
    others: Set<u32>,
    held: Multiset<u32>,
    topic: int,
    lent: u32,
    data: Seq<u8>,
    messages: Seq<Seq<u8>>,
    block: u32,
    bytes: Seq<u8>,
)
    requires
        publisher_laws::in_order(c, s, free, others, held),
        others.contains(lent),
        0 <= topic < c.max_topics,
        data.len() <= region::capacity_of(c),
        block < c.block_count,
        bytes.len() <= region::capacity_of(c),
        fine(c, s.image, held, topic, messages, block, bytes),
        messages.len() == 0 || (messages.len() == region::write_seq(s.image, topic)
            && messages.len() < c.ring_depth),
    ensures
        ({
            let w = memory::put(s.image, region::data_off(c, lent as int), data);
            let n = region::after_commit(c, w, s.warm, topic, lent, data.len() as u32).0;
            fine(c, n, held, topic, messages, block, bytes)
        }),
{
    let x = publisher_laws::state(s, free, others, held);
    assert(x.own.contains(lent));
    let w = memory::put(s.image, region::data_off(c, lent as int), data);
    lemma_write_is_fine(c, x, topic, lent, data, messages, block, bytes);
    if s.warm != NO_BLOCK {
        assert(publisher_laws::stock_blocks(s)[0] == s.warm);
        assert(publisher_laws::stock_blocks(s).contains(s.warm));
        assert(publisher_laws::stock_blocks(s).to_set().contains(s.warm));
    }
    lemma_commit_is_fine(
        c,
        State { image: w, ..x },
        topic,
        lent,
        data.len() as u32,
        s.warm,
        messages,
        block,
        bytes,
    );
}

/// Writing into a block of a publisher keeps what is fine.
proof fn lemma_write_is_fine(
    c: PubSubConfig,
    s: State,
    topic: int,
    lent: u32,
    data: Seq<u8>,
    messages: Seq<Seq<u8>>,
    block: u32,
    bytes: Seq<u8>,
)
    requires
        account_runs::in_order(c, s),
        lent < c.block_count,
        s.own.contains(lent),
        0 <= topic < c.max_topics,
        data.len() <= region::capacity_of(c),
        block < c.block_count,
        bytes.len() <= region::capacity_of(c),
        fine(c, s.image, s.held, topic, messages, block, bytes),
    ensures
        ({
            let w = memory::put(s.image, region::data_off(c, lent as int), data);
            &&& account_runs::in_order(c, State { image: w, ..s })
            &&& fine(c, w, s.held, topic, messages, block, bytes)
            &&& region::write_seq(w, topic) == region::write_seq(s.image, topic)
        }),
{
    let w = memory::put(s.image, region::data_off(c, lent as int), data);
    let t = State { image: w, ..s };
    let write = Action::Write { block: lent, off: 0, data };
    assert(region::data_off(c, lent as int) + 0 == region::data_off(c, lent as int));
    assert(account_runs::acts(c, s, write, t));
    lemma_action_is_fine(c, s, write, t, topic, messages, block, bytes);
    account_runs::law_action_keeps_order(c, s, write, t);
}

/// Publishing a block of a publisher keeps what is fine.
proof fn lemma_commit_is_fine(
    c: PubSubConfig,
    s: State,
    topic: int,
    lent: u32,
    len: u32,
    warm: u32,
    messages: Seq<Seq<u8>>,
    block: u32,
    bytes: Seq<u8>,
)
    requires
        account_runs::in_order(c, s),
        lent < c.block_count,
        s.own.contains(lent),
        warm == NO_BLOCK || (warm < c.block_count && s.own.contains(warm) && warm != lent),
        0 <= topic < c.max_topics,
        len <= region::capacity_of(c),
        block < c.block_count,
        bytes.len() <= region::capacity_of(c),
        fine(c, s.image, s.held, topic, messages, block, bytes),
        messages.len() == 0 || (messages.len() == region::write_seq(s.image, topic)
            && messages.len() < c.ring_depth),
    ensures
        fine(
            c,
            region::after_commit(c, s.image, warm, topic, lent, len).0,
            s.held,
            topic,
            messages,
            block,
            bytes,
        ),
{
    let publish = Action::Publish { topic, block: lent, len, warm };
    let t = State {
        image: region::after_commit(c, s.image, warm, topic, lent, len).0,
        free: accounting::free_after_publish(c, s.image, s.free, s.held, warm, topic),
        own: accounting::own_after_publish(c, s.image, s.own, s.held, warm, topic, lent),
        held: s.held,
    };
    assert(account_runs::acts(c, s, publish, t));
    lemma_action_is_fine(c, s, publish, t, topic, messages, block, bytes);
}

/// Giving a block back that was lent keeps what is fine.
proof fn lemma_discard_is_fine(
    c: PubSubConfig,
    s: Stock,
    free: Seq<u32>,
    others: Set<u32>,
    held: Multiset<u32>,
    topic: int,
    lent: u32,
    messages: Seq<Seq<u8>>,
    block: u32,
    bytes: Seq<u8>,
)
    requires
        publisher_laws::in_order(c, s, free, others, held),
        others.contains(lent),
        0 <= topic < c.max_topics,
        block < c.block_count,
        bytes.len() <= region::capacity_of(c),
        fine(c, s.image, held, topic, messages, block, bytes),
    ensures
        ({
            let n = layout::pool_of(c).after_free(s.image, lent);
            &&& fine(c, n, held, topic, messages, block, bytes)
            &&& region::write_seq(n, topic) == region::write_seq(s.image, topic)
        }),
{
    let x = publisher_laws::state(s, free, others, held);
    assert(x.own.contains(lent));
    let y = State {
        image: layout::pool_of(c).after_free(s.image, lent),
        free: seq![lent] + free,
        own: x.own.remove(lent),
        held,
    };
    lemma_action_is_fine(
        c,
        x,
        Action::GiveBack { block: lent },
        y,
        topic,
        messages,
        block,
        bytes,
    );
}

/// A channel sent something: its topic, or nothing, has one message more, and
/// everything is in order. What is returned is the free list.
proof fn lemma_send<M: SharedMemory>(
    x: Channel<M>,
    y: Channel<M>,
    data: Seq<u8>,
    clock: Clock,
    r: Result<bool, Error>,
    free: Seq<u32>,
    others: Set<u32>,
    held: Multiset<u32>,
    messages: Seq<Seq<u8>>,
    block: u32,
    bytes: Seq<u8>,
) -> (rest: Seq<u32>)
    requires
        sends(x, y, data, clock, r),
        publisher_laws::in_order(
            x.tx_pub.region.config,
            x.tx_pub.stock(),
            free,
            others,
            held,
        ),
        ({
            let c = x.tx_pub.region.config;
            let m = x.tx_pub.region.mem.image();
            let t = x.tx_topic.topic_idx as int;
            &&& block < c.block_count
            &&& bytes.len() <= region::capacity_of(c)
            &&& fine(c, m, held, t, messages, block, bytes)
            &&& region::write_seq(m, t) < u64::MAX
            &&& messages.len() == 0 || (messages.len() == region::write_seq(m, t)
                && messages.len() < c.ring_depth)
        }),
    ensures
        publisher_laws::in_order(
            x.tx_pub.region.config,
            y.tx_pub.stock(),
            rest,
            others,
            held,
        ),
        ({
            let c = x.tx_pub.region.config;
            let m = x.tx_pub.region.mem.image();
            let n = y.tx_pub.region.mem.image();
            let t = x.tx_topic.topic_idx as int;
            &&& fine(c, n, held, t, messages, block, bytes)
            &&& r is Err ==> region::write_seq(n, t) == region::write_seq(m, t)
            &&& r is Ok ==> region::write_seq(n, t) == region::write_seq(m, t) + 1
                && account_runs::in_ring(c, n, t, region::write_seq(m, t) + 1, data)
        }),
{
    reveal(sends);
    let c = x.tx_pub.region.config;
    let p = layout::pool_of(c);
    let t = x.tx_topic.topic_idx as int;
    let s0 = x.tx_pub.stock();
    let s1 = x.tx_pub.stock_after_beat(clock);
    if x.tx_pub.beats(clock) {
        let now = clock.wall_us->0;
        lemma_beat_is_fine(
            c,
            publisher_laws::state(s0, free, others, held),
            now,
            t,
            messages,
            block,
            bytes,
        );
        publisher_laws::law_heartbeat_keeps_order(c, s0, free, others, held, now);
    }
    let free1 = publisher_laws::law_loan_takes_an_unused_block(c, s1, free, others, held);
    lemma_taken_is_fine(c, s1, free, others, held, t, messages, block, bytes);
    let (lent, s2) = shm::taken(p, s1);
    match lent {
        None => free,
        Some(b) => {
            let more = others.insert(b);
            assert(more.remove(b) =~= others);
            if data.len() > region::capacity_of(c) {
                publisher_laws::law_discarded_loan_comes_back(c, s2, free1, more, held, b);
                lemma_discard_is_fine(c, s2, free1, more, held, t, b, messages, block, bytes);
                seq![b] + free1
            } else {
                let rest = publisher_laws::law_published_bytes_are_received(
                    c,
                    s2,
                    free1,
                    more,
                    held,
                    t,
                    b,
                    data,
                );
                lemma_publish_is_fine(c, s2, free1, more, held, t, b, data, messages, block, bytes);
                lemma_delivered_is_in_ring(c, s2.image, y.tx_pub.region.mem.image(), t, b, data);
                rest
            }
        },
    }
}

/// What is delivered is in the ring.
proof fn lemma_delivered_is_in_ring(
    c: PubSubConfig,
    m: Seq<u8>,
    n: Seq<u8>,
    topic: int,
    block: u32,
    data: Seq<u8>,
)
    requires
        publisher_laws::is_delivered(c, m, n, topic, block, data),
        region::write_seq(m, topic) < u64::MAX,
        c.ring_depth >= 1,
    ensures
        account_runs::in_ring(c, n, topic, region::write_seq(m, topic) + 1, data),
{
    let last = region::write_seq(m, topic);
    let seq = (last + 1) as u64;
    let from = subscription::window_start(c.ring_depth, seq, last);
    lemma_first_is_readable(c, n, topic, from, seq as int);
}

/// The first sample that can be received can be received.
proof fn lemma_first_is_readable(c: PubSubConfig, m: Seq<u8>, topic: int, from: int, to: int)
    requires
        subscription::first_readable(c, m, topic, from, to) is Some,
    ensures
        subscription::readable(
            c,
            m,
            topic,
            subscription::first_readable(c, m, topic, from, to)->0,
        ),
    decreases to - from + 1,
{
    if from <= to && !subscription::readable(c, m, topic, from as u64) {
        lemma_first_is_readable(c, m, topic, from + 1, to);
    }
}

/// One end of a channel sends: the values before and after the call, its
/// arguments, and what it returns.
#[verifier::opaque]
pub open spec fn sends<M: SharedMemory>(
    x: Channel<M>,
    y: Channel<M>,
    data: Seq<u8>,
    clock: Clock,
    r: Result<bool, Error>,
) -> bool {
    &&& x.wf()
    &&& y.wf()
    &&& x.tx_pub.region.mem.exclusive()
    &&& x.tx_pub.same_publisher(&y.tx_pub)
    &&& y.tx_topic == x.tx_topic
    &&& x.sent(&y, data, clock, r)
}

/// The calls of a sender, one after the other, that all succeed.
pub open spec fn sends_all<M: SharedMemory>(
    xs: Seq<Channel<M>>,
    data: Seq<Seq<u8>>,
    clocks: Seq<Clock>,
    wakes: Seq<bool>,
) -> bool {
    &&& xs.len() == data.len() + 1
    &&& clocks.len() == data.len()
    &&& wakes.len() == data.len()
    &&& forall|i: int|
        0 <= i < data.len() ==> #[trigger] sends(
            xs[i],
            xs[i + 1],
            data[i],
            clocks[i],
            Ok(wakes[i]),
        )
}

/// A receiver looks for the next message: the values before and after the call,
/// and what it finds.
pub open spec fn receives<M: SharedMemory>(
    y: Subscription<M>,
    z: Subscription<M>,
    got: Option<SlotRead>,
) -> bool {
    &&& y.wf()
    &&& z.wf()
    &&& y.region.mem.exclusive()
    &&& y.same_stream(&z)
    &&& y.received(&z, got)
}

/// What was found in a segment is a sample with these bytes.
pub open spec fn gives<M: SharedMemory>(
    got: Option<SlotRead>,
    region: Region<M>,
    data: Seq<u8>,
) -> bool {
    match got {
        Some(g) => (SampleGuard { block_idx: g.block_idx, len: g.data_len as usize }).data(&region)
            == data,
        None => false,
    }
}

/// The calls of a receiver, one after the other.
pub open spec fn receives_all<M: SharedMemory>(
    ys: Seq<Subscription<M>>,
    gots: Seq<Option<SlotRead>>,
) -> bool {
    &&& ys.len() == gots.len() + 1
    &&& forall|i: int| 0 <= i < gots.len() ==> #[trigger] receives(ys[i], ys[i + 1], gots[i])
}

/// No reference count is full.
pub open spec fn counts_have_room(c: PubSubConfig, m: Seq<u8>) -> bool {
    forall|b: int| 0 <= b < c.block_count ==> #[trigger] region::refcount(c, m, b) < u32::MAX
}

/// All messages of a sender are in the ring, and its blocks in order.
#[verifier::opaque]
spec fn has_sent<M: SharedMemory>(
    x: Channel<M>,
    free: Seq<u32>,
    others: Set<u32>,
    held: Multiset<u32>,
    messages: Seq<Seq<u8>>,
) -> bool {
    let c = x.tx_pub.region.config;
    let m = x.tx_pub.region.mem.image();
    let t = x.tx_topic.topic_idx as int;
    &&& publisher_laws::in_order(c, x.tx_pub.stock(), free, others, held)
    &&& messages.len() == region::write_seq(m, t)
    &&& fine(c, m, held, t, messages, 0, Seq::empty())
}

/// After some calls of a sender its messages are in the ring.
proof fn lemma_all_sent<M: SharedMemory>(
    xs: Seq<Channel<M>>,
    data: Seq<Seq<u8>>,
    clocks: Seq<Clock>,
    wakes: Seq<bool>,
    free: Seq<u32>,
    others: Set<u32>,
    held: Multiset<u32>,
    n: nat,
) -> (rest: Seq<u32>)
    requires
        sends_all(xs, data, clocks, wakes),
        n <= data.len() <= xs[0].tx_pub.region.config.ring_depth,
        has_sent(xs[0], free, others, held, Seq::empty()),
    ensures
        xs[n as int].tx_pub.region.config == xs[0].tx_pub.region.config,
        xs[n as int].tx_topic == xs[0].tx_topic,
        has_sent(xs[n as int], rest, others, held, data.subrange(0, n as int)),
    decreases n,
{
    if n == 0 {
        assert(data.subrange(0, 0) =~= Seq::<Seq<u8>>::empty());
        free
    } else {
        let k = (n - 1) as nat;
        let before = lemma_all_sent(xs, data, clocks, wakes, free, others, held, k);
        assert(sends(
            xs[k as int],
            xs[k as int + 1],
            data[k as int],
            clocks[k as int],
            Ok(wakes[k as int]),
        ));
        let sent = data.subrange(0, k as int);
        assert(data.subrange(0, n as int) =~= sent.push(data[k as int]));
        lemma_one_sent(
            xs[k as int],
            xs[n as int],
            data[k as int],
            clocks[k as int],
            wakes[k as int],
            before,
            others,
            held,
            sent,
        )
    }
}

/// One call of a sender whose messages are all in the ring.
proof fn lemma_one_sent<M: SharedMemory>(
    x: Channel<M>,
    y: Channel<M>,
    data: Seq<u8>,
    clock: Clock,
    wake: bool,
    free: Seq<u32>,
    others: Set<u32>,
    held: Multiset<u32>,
    messages: Seq<Seq<u8>>,
) -> (rest: Seq<u32>)
    requires
        sends(x, y, data, clock, Ok(wake)),
        messages.len() < x.tx_pub.region.config.ring_depth,
        has_sent(x, free, others, held, messages),
    ensures
        y.tx_pub.region.config == x.tx_pub.region.config,
        y.tx_topic == x.tx_topic,
        has_sent(y, rest, others, held, messages.push(data)),
{
    reveal(has_sent);
    let c = x.tx_pub.region.config;
    let t = x.tx_topic.topic_idx as int;
    layout::lemma_layout(c);
    assert(y.tx_pub.region.config == c && y.tx_topic == x.tx_topic) by {
        reveal(sends);
    }
    let rest = lemma_send(
        x,
        y,
        data,
        clock,
        Ok(wake),
        free,
        others,
        held,
        messages,
        0,
        Seq::empty(),
    );
    lemma_one_more(c, y.tx_pub.region.mem.image(), held, t, messages, data);
    rest
}

/// A sender whose topic has no messages yet has sent none.
proof fn lemma_none_sent<M: SharedMemory>(
    x: Channel<M>,
    free: Seq<u32>,
    others: Set<u32>,
    held: Multiset<u32>,
)
    requires
        publisher_laws::in_order(
            x.tx_pub.region.config,
            x.tx_pub.stock(),
            free,
            others,
            held,
        ),
        region::write_seq(x.tx_pub.region.mem.image(), x.tx_topic.topic_idx as int) == 0,
    ensures
        has_sent(x, free, others, held, Seq::empty()),
{
    reveal(has_sent);
    lemma_nothing_is_fine(
        x.tx_pub.region.config,
        x.tx_pub.region.mem.image(),
        held,
        x.tx_topic.topic_idx as int,
        Seq::empty(),
    );
}

/// With one message more in the ring.
proof fn lemma_one_more(
    c: PubSubConfig,
    m: Seq<u8>,
    held: Multiset<u32>,
    topic: int,
    messages: Seq<Seq<u8>>,
    data: Seq<u8>,
)
    requires
        fine(c, m, held, topic, messages, 0, Seq::empty()),
        account_runs::in_ring(c, m, topic, messages.len() as int + 1, data),
    ensures
        fine(c, m, held, topic, messages.push(data), 0, Seq::empty()),
{
    let all = messages.push(data);
    assert forall|j: int| 1 <= j <= all.len() implies #[trigger] account_runs::in_ring(
        c,
        m,
        topic,
        j,
        all[j - 1],
    ) by {
        if j <= messages.len() {
            assert(account_runs::in_ring(c, m, topic, j, messages[j - 1]));
        }
    }
}

/// A receiver that is behind gets the next message.
proof fn lemma_next_message(
    c: PubSubConfig,
    s: State,
    topic: int,
    messages: Seq<Seq<u8>>,
    j: u64,
)
    requires
        account_runs::in_order(c, s),
        0 <= topic < c.max_topics,
        region::write_seq(s.image, topic) == messages.len(),
        messages.len() <= c.ring_depth,
        j < messages.len(),
        account_runs::in_ring(c, s.image, topic, j + 1, messages[j as int]),
        counts_have_room(c, s.image),
    ensures
        subscription::next_readable(c, s.image, topic, j) == Some((j + 1) as u64),
        ({
            let slot = layout::slot_of(c, (j + 1) as u64);
            let block = region::ring_block(c, s.image, topic, slot);
            &&& 0 <= slot < c.ring_depth
            &&& accounting::references(c, s.image, s.held, block) > 0
            &&& region::refcount(c, s.image, block as int) < u32::MAX
        }),
{
    let next = (j + 1) as u64;
    layout::lemma_layout(c);
    account_runs::lemma_slot_exists(c, next);
    let slot = layout::slot_of(c, next);
    let block = region::ring_block(c, s.image, topic, slot);
    accounting::lemma_named_is_referenced(c, s.image, s.held, topic, slot);
    assert(accounting::placed(c, s.image, s.free, s.own, s.held, block));
    assert(region::refcount(c, s.image, block as int) < u32::MAX);
    assert(subscription::readable(c, s.image, topic, next));
}

/// One call of a receiver that is behind.
proof fn lemma_one_received<M: SharedMemory>(
    y: Subscription<M>,
    z: Subscription<M>,
    got: Option<SlotRead>,
    s: State,
    messages: Seq<Seq<u8>>,
) -> (t: State)
    requires
        receives(y, z, got),
        account_runs::in_order(y.region.config, s),
        s.image == y.region.mem.image(),
        y.topic_idx < y.region.config.max_topics,
        region::write_seq(s.image, y.topic_idx as int) == messages.len(),
        messages.len() <= y.region.config.ring_depth,
        y.last_seq < messages.len(),
        fine(
            y.region.config,
            s.image,
            Multiset::empty(),
            y.topic_idx as int,
            messages,
            0,
            Seq::empty(),
        ),
        counts_have_room(y.region.config, s.image),
    ensures
        account_runs::in_order(y.region.config, t),
        t.image == z.region.mem.image(),
        region::write_seq(t.image, y.topic_idx as int) == messages.len(),
        fine(
            y.region.config,
            t.image,
            Multiset::empty(),
            y.topic_idx as int,
            messages,
            0,
            Seq::empty(),
        ),
        z.last_seq == y.last_seq + 1,
        gives(got, z.region, messages[y.last_seq as int]),
{
    lemma_receive_step(y.region.config, s, y.topic_idx as int, messages, y.last_seq)
}

/// A reference to the next message is taken.
proof fn lemma_receive_step(
    c: PubSubConfig,
    s: State,
    topic: int,
    messages: Seq<Seq<u8>>,
    j: u64,
) -> (t: State)
    requires
        account_runs::in_order(c, s),
        0 <= topic < c.max_topics,
        region::write_seq(s.image, topic) == messages.len(),
        messages.len() <= c.ring_depth,
        j < messages.len(),
        fine(c, s.image, Multiset::empty(), topic, messages, 0, Seq::empty()),
        counts_have_room(c, s.image),
    ensures
        account_runs::in_order(c, t),
        subscription::next_readable(c, s.image, topic, j) == Some((j + 1) as u64),
        ({
            let slot = layout::slot_of(c, (j + 1) as u64);
            let block = region::ring_block(c, s.image, topic, slot);
            let len = region::ring_len(c, s.image, topic, slot) as int;
            &&& t.image == subscription::after_acquire(c, s.image, block)
            &&& region::block_data(c, t.image, block as int, len) == messages[j as int]
        }),
        region::write_seq(t.image, topic) == messages.len(),
        fine(c, t.image, Multiset::empty(), topic, messages, 0, Seq::empty()),
{
    assert(account_runs::in_ring(c, s.image, topic, j + 1, messages[j + 1 - 1]));
    lemma_next_message(c, s, topic, messages, j);
    let slot = layout::slot_of(c, (j + 1) as u64);
    let block = region::ring_block(c, s.image, topic, slot);
    let t = State {
        image: subscription::after_acquire(c, s.image, block),
        held: s.held.insert(block),
        ..s
    };
    lemma_reference_taken(c, s, t, topic, messages, j);
    t
}

proof fn lemma_reference_taken(
    c: PubSubConfig,
    s: State,
    t: State,
    topic: int,
    messages: Seq<Seq<u8>>,
    j: u64,
)
    requires
        account_runs::in_order(c, s),
        0 <= topic < c.max_topics,
        j < messages.len(),
        fine(c, s.image, Multiset::empty(), topic, messages, 0, Seq::empty()),
        account_runs::in_ring(c, s.image, topic, j + 1, messages[j as int]),
        ({
            let slot = layout::slot_of(c, (j + 1) as u64);
            let block = region::ring_block(c, s.image, topic, slot);
            &&& 0 <= slot < c.ring_depth
            &&& accounting::references(c, s.image, s.held, block) > 0
            &&& region::refcount(c, s.image, block as int) < u32::MAX
            &&& t == State {
                image: subscription::after_acquire(c, s.image, block),
                held: s.held.insert(block),
                ..s
            }
        }),
    ensures
        account_runs::in_order(c, t),
        ({
            let slot = layout::slot_of(c, (j + 1) as u64);
            let block = region::ring_block(c, s.image, topic, slot);
            let len = region::ring_len(c, s.image, topic, slot) as int;
            region::block_data(c, t.image, block as int, len) == messages[j as int]
        }),
        region::write_seq(t.image, topic) == region::write_seq(s.image, topic),
        fine(c, t.image, Multiset::empty(), topic, messages, 0, Seq::empty()),
{
    let slot = layout::slot_of(c, (j + 1) as u64);
    let block = region::ring_block(c, s.image, topic, slot);
    let len = region::ring_len(c, s.image, topic, slot) as int;
    let a = Action::Receive { block };
    assert(account_runs::acts(c, s, a, t));
    account_runs::law_action_keeps_order(c, s, a, t);
    account_runs::lemma_action_keeps(c, s, a, t, block, len, topic, slot);
    layout::lemma_layout(c);
    lemma_nothing_is_fine(c, s.image, s.held, topic, messages);
    lemma_action_is_fine(c, s, a, t, topic, messages, 0, Seq::empty());
}

/// Of nothing there is nothing to keep.
proof fn lemma_nothing_is_fine(
    c: PubSubConfig,
    m: Seq<u8>,
    held: Multiset<u32>,
    topic: int,
    messages: Seq<Seq<u8>>,
)
    requires
        laws::segment(c, m),
        fine(c, m, Multiset::empty(), topic, messages, 0, Seq::empty()),
    ensures
        fine(c, m, held, topic, messages, 0, Seq::empty()),
{
    layout::lemma_layout(c);
    region::lemma_block_parts(c, 0);
    assert(region::block_data(c, m, 0, 0) =~= Seq::<u8>::empty());
}

/// After some calls of a receiver it has received as many messages.
proof fn lemma_all_received<M: SharedMemory>(
    ys: Seq<Subscription<M>>,
    gots: Seq<Option<SlotRead>>,
    s: State,
    messages: Seq<Seq<u8>>,
    n: nat,
) -> (t: State)
    requires
        receives_all(ys, gots),
        n <= messages.len() <= gots.len(),
        account_runs::in_order(ys[0].region.config, s),
        s.image == ys[0].region.mem.image(),
        ys[0].topic_idx < ys[0].region.config.max_topics,
        ys[0].last_seq == 0,
        region::write_seq(s.image, ys[0].topic_idx as int) == messages.len(),
        messages.len() <= ys[0].region.config.ring_depth,
        fine(
            ys[0].region.config,
            s.image,
            Multiset::empty(),
            ys[0].topic_idx as int,
            messages,
            0,
            Seq::empty(),
        ),
        forall|i: int|
            0 <= i < messages.len() ==> counts_have_room(
                ys[0].region.config,
                (#[trigger] ys[i]).region.mem.image(),
            ),
    ensures
        ys[n as int].region.config == ys[0].region.config,
        ys[n as int].topic_idx == ys[0].topic_idx,
        ys[n as int].last_seq == n,
        account_runs::in_order(ys[0].region.config, t),
        t.image == ys[n as int].region.mem.image(),
        region::write_seq(t.image, ys[0].topic_idx as int) == messages.len(),
        fine(
            ys[0].region.config,
            t.image,
            Multiset::empty(),
            ys[0].topic_idx as int,
            messages,
            0,
            Seq::empty(),
        ),
        forall|i: int|
            0 <= i < n ==> gives(#[trigger] gots[i], ys[i + 1].region, messages[i]),
    decreases n,
{
    if n == 0 {
        s
    } else {
        let k = (n - 1) as nat;
        let before = lemma_all_received(ys, gots, s, messages, k);
        assert(receives(ys[k as int], ys[k as int + 1], gots[k as int]));
        let y = ys[k as int];
        assert(counts_have_room(ys[0].region.config, y.region.mem.image()));
        lemma_one_received(y, ys[n as int], gots[k as int], before, messages)
    }
}

/// Messages come out of a channel in order, each once. One end has sent as many
/// messages as a ring has room for, or fewer, since its topic was registered; the
/// other end, which may have come after that, has received nothing yet. Then its
/// calls give the messages in the order in which they were sent, and after the
/// last one there is nothing.
pub proof fn law_channel_messages_come_in_order<M: SharedMemory>(
    xs: Seq<Channel<M>>,
    data: Seq<Seq<u8>>,
    clocks: Seq<Clock>,
    wakes: Seq<bool>,
    free: Seq<u32>,
    others: Set<u32>,
    held: Multiset<u32>,
    ys: Seq<Subscription<M>>,
    gots: Seq<Option<SlotRead>>,
)
    requires
        sends_all(xs, data, clocks, wakes),
        xs[0].wf(),
        data.len() <= xs[0].tx_pub.region.config.ring_depth,
        publisher_laws::in_order(
            xs[0].tx_pub.region.config,
            xs[0].tx_pub.stock(),
            free,
            others,
            held,
        ),
        region::write_seq(
            xs[0].tx_pub.region.mem.image(),
            xs[0].tx_topic.topic_idx as int,
        ) == 0,
        receives_all(ys, gots),
        gots.len() == data.len() + 1,
        ys[0].region.config == xs[0].tx_pub.region.config,
        ys[0].topic_idx == xs[0].tx_topic.topic_idx,
        ys[0].region.mem.image() == xs.last().tx_pub.region.mem.image(),
        ys[0].last_seq == 0,
        forall|i: int|
            0 <= i < data.len() ==> counts_have_room(
                ys[0].region.config,
                (#[trigger] ys[i]).region.mem.image(),
            ),
    ensures
        forall|i: int|
            0 <= i < data.len() ==> gives(#[trigger] gots[i], ys[i + 1].region, data[i]),
        gots.last() is None,
{
    let c = xs[0].tx_pub.region.config;
    let t = xs[0].tx_topic.topic_idx as int;
    let k = data.len();
    layout::lemma_layout(c);
    lemma_none_sent(xs[0], free, others, held);
    let rest = lemma_all_sent(xs, data, clocks, wakes, free, others, held, k);
    assert(data.subrange(0, k as int) =~= data);
    reveal(has_sent);
    let s = publisher_laws::state(xs[k as int].tx_pub.stock(), rest, others, held);
    let end = lemma_all_received(ys, gots, s, data, k);
    assert(receives(ys[k as int], ys[k as int + 1], gots[k as int]));
}

/// An end of a channel that was just made, in memory that holds no such topic
/// yet, is in order: every block is free, and nothing was sent.
pub proof fn law_new_channel_end_is_in_order<M: SharedMemory>(
    name: Seq<char>,
    c: PubSubConfig,
    mem: M,
    pid: u64,
    id: u64,
    clock: Clock,
    e: ChannelEnd<M>,
)
    requires
        laws::segment(c, mem.image()),
        mem.exclusive(),
        channel::end_created(name, c, mem, pid, id, clock, Ok(e)),
        shm::find_topic(
            header::created(c, mem.image(), pid, clock.wall_us->0),
            0,
            c.max_topics as int,
            channel::channel_uri(),
        ) is None,
    ensures
        publisher_laws::in_order(
            c,
            e.tx_pub.stock(),
            layout::pool_of(c).full_list(),
            Set::empty(),
            Multiset::empty(),
        ),
        region::write_seq(e.tx_pub.region.mem.image(), e.tx_topic.topic_idx as int) == 0,
{
    let now = clock.wall_us->0;
    let m = header::created(c, mem.image(), pid, now);
    publisher_laws::law_new_publisher_is_in_order(c, mem.image(), pid, now);
    channel::lemma_channel_uri();
    publisher_laws::law_registration_keeps_order(
        c,
        Stock { image: m, warm: NO_BLOCK, cache: Seq::empty() },
        layout::pool_of(c).full_list(),
        Set::empty(),
        Multiset::empty(),
        e.tx_topic.topic_idx as int,
        channel::channel_uri(),
        0,
    );
}

/// What a loan gives. There is no block exactly when every block of the segment
/// is in use: lent, pinned, in the stock of another publisher, or a sample that is
/// in a ring or held. The block of a loan is used by nobody else, and it has room
/// for as many bytes as a block without its head.
pub proof fn law_loan_call<M: SharedMemory>(
    p: ShmPublisher<M>,
    after: ShmPublisher<M>,
    handle: Topic,
    clock: Clock,
    r: Result<u32, Error>,
    borrowed: Option<(Region<M>, Region<M>)>,
    free: Seq<u32>,
    others: Set<u32>,
    held: Multiset<u32>,
) -> (rest: Seq<u32>)
    requires
        p.wf(),
        p.region.mem.exclusive(),
        handle.publisher_id == p.id,
        p.loaned(&after, handle, clock, r, borrowed),
        r is Ok <==> borrowed is Some,
        publisher_laws::in_order(p.region.config, p.stock(), free, others, held),
    ensures
        r is Err ==> r->Err_0 is PoolExhausted,
        r is Err <==> forall|b: u32|
            b < p.region.config.block_count ==> #[trigger] publisher_laws::in_use(
                p.region.config,
                p.stock(),
                others,
                held,
                b,
            ),
        r matches Ok(b) ==> {
            &&& b < p.region.config.block_count
            &&& !publisher_laws::in_use(p.region.config, p.stock(), others, held, b)
            &&& region::capacity_of(p.region.config) == p.region.config.block_size - 8
            &&& publisher_laws::in_order(
                p.region.config,
                stock_of((borrowed->0).0, after.block_cache@),
                rest,
                others.insert(b),
                held,
            )
        },
{
    let beat = if p.beats(clock) {
        clock.wall_us
    } else {
        None
    };
    lemma_loan_after_beat(p.region.config, p.stock(), beat, free, others, held)
}

/// The stock of a publisher after a heartbeat, if there is one.
spec fn beaten(s: Stock, beat: Option<u64>) -> Stock {
    match beat {
        Some(now) => Stock { image: shm::with_heartbeat(s.image, now), ..s },
        None => s,
    }
}

/// A loan with a heartbeat before it.
proof fn lemma_loan_after_beat(
    c: PubSubConfig,
    s: Stock,
    beat: Option<u64>,
    free: Seq<u32>,
    others: Set<u32>,
    held: Multiset<u32>,
) -> (rest: Seq<u32>)
    requires
        publisher_laws::in_order(c, s, free, others, held),
    ensures
        ({
            let (lent, after) = shm::taken(layout::pool_of(c), beaten(s, beat));
            &&& lent is None <==> forall|b: u32|
                b < c.block_count ==> #[trigger] publisher_laws::in_use(c, s, others, held, b)
            &&& lent matches Some(b) ==> {
                &&& b < c.block_count
                &&& !publisher_laws::in_use(c, s, others, held, b)
                &&& publisher_laws::in_order(c, after, rest, others.insert(b), held)
            }
        }),
{
    let t = beaten(s, beat);
    if let Some(now) = beat {
        publisher_laws::law_heartbeat_keeps_order(c, s, free, others, held, now);
    }
    assert forall|b: u32| b < c.block_count implies #[trigger] publisher_laws::in_use(
        c,
        s,
        others,
        held,
        b,
    ) == publisher_laws::in_use(c, t, others, held, b) by {
        lemma_same_use(c, s, t, free, others, held, b);
    }
    let rest = publisher_laws::law_loan_takes_an_unused_block(c, t, free, others, held);
    let lent = shm::taken(layout::pool_of(c), t).0;
    if lent is None {
        assert forall|b: u32| b < c.block_count implies #[trigger] publisher_laws::in_use(
            c,
            s,
            others,
            held,
            b,
        ) by {
            assert(publisher_laws::in_use(c, t, others, held, b));
        }
    } else {
        assert(!publisher_laws::in_use(c, s, others, held, lent->0));
    }
    rest
}

/// What a segment and a cache are to a publisher.
pub open spec fn stock_of<M: SharedMemory>(region: Region<M>, cache: Seq<u32>) -> Stock {
    Stock { image: region.mem.image(), warm: region.last_freed, cache }
}

/// The same blocks are in use where the same blocks are free and in stock.
proof fn lemma_same_use(
    c: PubSubConfig,
    s: Stock,
    t: Stock,
    free: Seq<u32>,
    others: Set<u32>,
    held: Multiset<u32>,
    b: u32,
)
    requires
        publisher_laws::in_order(c, s, free, others, held),
        publisher_laws::in_order(c, t, free, others, held),
        t.warm == s.warm,
        t.cache == s.cache,
        b < c.block_count,
    ensures
        publisher_laws::in_use(c, s, others, held, b) == publisher_laws::in_use(
            c,
            t,
            others,
            held,
            b,
        ),
{
    let own = publisher_laws::all_own(s, others);
    assert(publisher_laws::all_own(t, others) == own);
    assert(accounting::placed(c, s.image, free, own, held, b));
    assert(accounting::placed(c, t.image, free, own, held, b));
}

/// A loan that is given back: its block is available again, and the peer was sent
/// nothing.
pub proof fn law_discard_call<M: SharedMemory>(
    start: Region<M>,
    end: Region<M>,
    cache: Seq<u32>,
    block: u32,
    free: Seq<u32>,
    others: Set<u32>,
    held: Multiset<u32>,
    topic: int,
)
    requires
        publisher_laws::in_order(start.config, stock_of(start, cache), free, others, held),
        others.contains(block),
        0 <= topic < start.config.max_topics,
        end.config == start.config,
        end.last_freed == start.last_freed,
        end.mem.image() == layout::pool_of(start.config).after_free(start.mem.image(), block),
    ensures
        publisher_laws::in_order(
            start.config,
            stock_of(end, cache),
            seq![block] + free,
            others.remove(block),
            held,
        ),
        !publisher_laws::in_use(
            start.config,
            stock_of(end, cache),
            others.remove(block),
            held,
            block,
        ),
        region::write_seq(end.mem.image(), topic) == region::write_seq(start.mem.image(), topic),
{
    let c = start.config;
    let s = stock_of(start, cache);
    publisher_laws::law_discarded_loan_comes_back(c, s, free, others, held, block);
    account_runs::lemma_counts_only(c, start.mem.image(), block);
}

/// The bytes that are written into a loan and published are received by a
/// subscription that had nothing pending: whole, once, and with nothing on other
/// topics. `start` is the segment as the loan finds it, `end` as publishing leaves
/// it; the calls of the subscription follow.
pub proof fn law_publish_call<M: SharedMemory>(
    start: Region<M>,
    end: Region<M>,
    cache: Seq<u32>,
    topic: u32,
    block: u32,
    data: Seq<u8>,
    free: Seq<u32>,
    others: Set<u32>,
    held: Multiset<u32>,
    x: Subscription<M>,
    y: Subscription<M>,
    z: Subscription<M>,
    got: Option<SlotRead>,
    then_got: Option<SlotRead>,
) -> (rest: Seq<u32>)
    requires
        publisher_laws::in_order(start.config, stock_of(start, cache), free, others, held),
        others.contains(block),
        topic < start.config.max_topics,
        data.len() <= region::capacity_of(start.config),
        region::write_seq(start.mem.image(), topic as int) < u64::MAX,
        end.config == start.config,
        publishes(start, end, topic, block, data),
        receives(x, y, got),
        receives(y, z, then_got),
        x.region.config == start.config,
        x.topic_idx == topic,
        x.region.mem.image() == end.mem.image(),
        x.last_seq == region::write_seq(start.mem.image(), topic as int),
    ensures
        got matches Some(g) && g.block_idx == block && g.data_len == data.len(),
        gives(got, y.region, data),
        then_got is None,
        region::write_seq(end.mem.image(), topic as int) == region::write_seq(
            start.mem.image(),
            topic as int,
        ) + 1,
        forall|t: int|
            0 <= t < start.config.max_topics && t != topic ==> #[trigger] region::write_seq(
                end.mem.image(),
                t,
            ) == region::write_seq(start.mem.image(), t),
        publisher_laws::in_order(
            start.config,
            stock_of(end, cache),
            rest,
            others.remove(block),
            held,
        ),
        !rest.contains(block),
{
    let c = start.config;
    let s = stock_of(start, cache);
    let t = topic as int;
    let rest = publisher_laws::law_published_bytes_are_received(
        c,
        s,
        free,
        others,
        held,
        t,
        block,
        data,
    );
    let m = end.mem.image();
    let n = y.region.mem.image();
    account_runs::lemma_counts_only(c, m, block);
    lemma_same_sample(c, m, n, t, block, data.len() as int);
    rest
}

/// Data is written into a block and published.
pub open spec fn publishes<M: SharedMemory>(
    start: Region<M>,
    end: Region<M>,
    topic: u32,
    block: u32,
    data: Seq<u8>,
) -> bool {
    (end.mem.image(), end.last_freed) == region::after_commit(
        start.config,
        memory::put(start.mem.image(), region::data_off(start.config, block as int), data),
        start.last_freed,
        topic as int,
        block,
        data.len() as u32,
    )
}

/// A count that changes leaves the data and the newest number alone.
proof fn lemma_same_sample(
    c: PubSubConfig,
    m: Seq<u8>,
    n: Seq<u8>,
    topic: int,
    block: u32,
    len: int,
)
    requires
        laws::segment(c, m),
        laws::has_other_count(c, m, n, block as int),
        0 <= topic < c.max_topics,
        block < c.block_count,
        0 <= len <= region::capacity_of(c),
    ensures
        region::block_data(c, n, block as int, len) == region::block_data(c, m, block as int, len),
        region::write_seq(n, topic) == region::write_seq(m, topic),
{
}

/// The value that is written into a typed loan and published is what a
/// subscription gets that had nothing pending: as a value of the type, or as a
/// sample of as many bytes as the type has.
pub proof fn law_typed_publish_call<M: SharedMemory, T: Pod>(
    start: Region<M>,
    end: Region<M>,
    cache: Seq<u32>,
    topic: u32,
    block: u32,
    value: T,
    free: Seq<u32>,
    others: Set<u32>,
    held: Multiset<u32>,
    x: Subscription<M>,
    y: Subscription<M>,
    z: Subscription<M>,
    got: Option<SlotRead>,
    then_got: Option<SlotRead>,
    v: T,
)
    requires
        publisher_laws::in_order(start.config, stock_of(start, cache), free, others, held),
        others.contains(block),
        topic < start.config.max_topics,
        T::size() <= region::capacity_of(start.config),
        region::write_seq(start.mem.image(), topic as int) < u64::MAX,
        end.config == start.config,
        publishes(start, end, topic, block, value.encode()),
        receives(x, y, got),
        receives(y, z, then_got),
        x.region.config == start.config,
        x.topic_idx == topic,
        x.region.mem.image() == end.mem.image(),
        x.last_seq == region::write_seq(start.mem.image(), topic as int),
        v.encode() == region::block_data(
            start.config,
            y.region.mem.image(),
            got->0.block_idx as int,
            T::size() as int,
        ),
    ensures
        got matches Some(g) && g.block_idx == block && g.data_len == T::size(),
        gives(got, y.region, value.encode()),
        v == value,
        then_got is None,
{
    value.encode_size();
    let rest = law_publish_call(
        start,
        end,
        cache,
        topic,
        block,
        value.encode(),
        free,
        others,
        held,
        x,
        y,
        z,
        got,
        then_got,
    );
    T::encode_injective(v, value);
}

/// The calls of a sender, one after the other, whatever their outcome.
pub open spec fn sends_on<M: SharedMemory>(
    xs: Seq<Channel<M>>,
    data: Seq<Seq<u8>>,
    clocks: Seq<Clock>,
    rs: Seq<Result<bool, Error>>,
) -> bool {
    &&& xs.len() == data.len() + 1
    &&& clocks.len() == data.len()
    &&& rs.len() == data.len()
    &&& forall|i: int|
        0 <= i < data.len() ==> #[trigger] sends(xs[i], xs[i + 1], data[i], clocks[i], rs[i])
}

/// A sample that is held keeps its bytes over any number of calls that send more,
/// more than a ring holds included: its block stays out of the pool, and no
/// publisher has it.
pub proof fn law_held_sample_call<M: SharedMemory>(
    xs: Seq<Channel<M>>,
    data: Seq<Seq<u8>>,
    clocks: Seq<Clock>,
    rs: Seq<Result<bool, Error>>,
    free: Seq<u32>,
    others: Set<u32>,
    held: Multiset<u32>,
    g: SampleGuard,
    bytes: Seq<u8>,
    n: nat,
) -> (rest: Seq<u32>)
    requires
        sends_on(xs, data, clocks, rs),
        n <= data.len(),
        xs[0].wf(),
        publisher_laws::in_order(
            xs[0].tx_pub.region.config,
            xs[0].tx_pub.stock(),
            free,
            others,
            held,
        ),
        held.contains(g.block_idx),
        g.of(&xs[0].tx_pub.region),
        g.data(&xs[0].tx_pub.region) == bytes,
        forall|i: int|
            0 <= i < data.len() ==> region::write_seq(
                (#[trigger] xs[i]).tx_pub.region.mem.image(),
                xs[0].tx_topic.topic_idx as int,
            ) < u64::MAX,
    ensures
        xs[n as int].tx_pub.region.config == xs[0].tx_pub.region.config,
        xs[n as int].tx_topic == xs[0].tx_topic,
        g.data(&xs[n as int].tx_pub.region) == bytes,
        publisher_laws::in_order(
            xs[0].tx_pub.region.config,
            xs[n as int].tx_pub.stock(),
            rest,
            others,
            held,
        ),
        !rest.contains(g.block_idx),
        !publisher_laws::all_own(xs[n as int].tx_pub.stock(), others).contains(g.block_idx),
    decreases n,
{
    let c = xs[0].tx_pub.region.config;
    if n == 0 {
        lemma_held_is_referenced(c, xs[0].tx_pub.stock(), free, others, held, g.block_idx);
        free
    } else {
        let k = n - 1;
        let before = law_held_sample_call(
            xs,
            data,
            clocks,
            rs,
            free,
            others,
            held,
            g,
            bytes,
            k as nat,
        );
        assert(sends(xs[k], xs[k + 1], data[k], clocks[k], rs[k]));
        lemma_block_has_len(c, xs[0].tx_pub.region.mem.image(), g, bytes);
        let rest = lemma_one_more_sent(
            xs[k],
            xs[k + 1],
            data[k],
            clocks[k],
            rs[k],
            before,
            others,
            held,
            g.block_idx,
            bytes,
        );
        lemma_held_is_referenced(c, xs[n as int].tx_pub.stock(), rest, others, held, g.block_idx);
        rest
    }
}

proof fn lemma_block_has_len(c: PubSubConfig, m: Seq<u8>, g: SampleGuard, bytes: Seq<u8>)
    requires
        laws::segment(c, m),
        g.block_idx < c.block_count,
        g.len <= region::capacity_of(c),
        region::block_data(c, m, g.block_idx as int, g.len as int) == bytes,
    ensures
        bytes.len() == g.len,
{
    layout::lemma_layout(c);
    region::lemma_block_parts(c, g.block_idx as int);
}

/// One call that sends keeps the bytes of a block that is held.
proof fn lemma_one_more_sent<M: SharedMemory>(
    x: Channel<M>,
    y: Channel<M>,
    data: Seq<u8>,
    clock: Clock,
    r: Result<bool, Error>,
    free: Seq<u32>,
    others: Set<u32>,
    held: Multiset<u32>,
    block: u32,
    bytes: Seq<u8>,
) -> (rest: Seq<u32>)
    requires
        sends(x, y, data, clock, r),
        publisher_laws::in_order(
            x.tx_pub.region.config,
            x.tx_pub.stock(),
            free,
            others,
            held,
        ),
        held.contains(block),
        block < x.tx_pub.region.config.block_count,
        bytes.len() <= region::capacity_of(x.tx_pub.region.config),
        region::block_data(
            x.tx_pub.region.config,
            x.tx_pub.region.mem.image(),
            block as int,
            bytes.len() as int,
        ) == bytes,
        region::write_seq(x.tx_pub.region.mem.image(), x.tx_topic.topic_idx as int) < u64::MAX,
    ensures
        y.tx_pub.region.config == x.tx_pub.region.config,
        y.tx_topic == x.tx_topic,
        publisher_laws::in_order(
            x.tx_pub.region.config,
            y.tx_pub.stock(),
            rest,
            others,
            held,
        ),
        region::block_data(
            x.tx_pub.region.config,
            y.tx_pub.region.mem.image(),
            block as int,
            bytes.len() as int,
        ) == bytes,
{
    assert(y.tx_pub.region.config == x.tx_pub.region.config && y.tx_topic == x.tx_topic) by {
        reveal(sends);
    }
    lemma_send(
        x,
        y,
        data,
        clock,
        r,
        free,
        others,
        held,
        Seq::empty(),
        block,
        bytes,
    )
}

/// A block that is held is neither free nor a publisher's own.
proof fn lemma_held_is_referenced(
    c: PubSubConfig,
    s: Stock,
    free: Seq<u32>,
    others: Set<u32>,
    held: Multiset<u32>,
    block: u32,
)
    requires
        publisher_laws::in_order(c, s, free, others, held),
        held.contains(block),
        block < c.block_count,
    ensures
        !free.contains(block),
        !publisher_laws::all_own(s, others).contains(block),
{
    assert(accounting::placed(
        c,
        s.image,
        free,
        publisher_laws::all_own(s, others),
        held,
        block,
    ));
}

/// A pinned block that was published can be lent again: the publisher is sound, the
/// block is the same, nothing has to be taken for it, and nobody reads it yet. `m` is
/// the segment as the loan found it, and `q` the publisher after the call.
pub proof fn law_pinned_loan_again<M: SharedMemory>(
    q: ShmPublisher<M>,
    m: Seq<u8>,
    topic: int,
    data: Seq<u8>,
)
    requires
        q.region.wf(),
        q.holds_blocks_of(q.region.config),
        0 <= topic < q.region.config.max_topics,
        q.pinned_blocks@[topic] < q.region.config.block_count,
        data.len() <= region::capacity_of(q.region.config),
        m.len() == q.region.mem.image().len(),
        shm::pins_agree(m, q.pinned_blocks@),
        q.region.mem.image() == memory::put32(
            region::after_commit_pinned(
                memory::put(
                    m,
                    region::data_off(q.region.config, q.pinned_blocks@[topic] as int),
                    data,
                ),
                topic,
                data.len() as u32,
            ),
            layout::topic_off(topic) + layout::TE_PINNED_READERS,
            0,
        ),
    ensures
        q.wf(),
        q.pinned(topic) == (Some(q.pinned_blocks@[topic]), q.stock()),
        region::pinned_readers_of(q.region.mem.image(), topic) == 0,
        region::block_data(
            q.region.config,
            q.region.mem.image(),
            q.pinned_blocks@[topic] as int,
            data.len() as int,
        ) == data,
{
    let c = q.region.config;
    let block = q.pinned_blocks@[topic] as int;
    let w = memory::put(m, region::data_off(c, block), data);
    layout::lemma_layout(c);
    layout::lemma_topic(c, topic);
    region::lemma_block_parts(c, block);
    shm::lemma_pins_kept(c, m, w, q.pinned_blocks@);
    publisher_laws::lemma_pinned_keeps_pins(c, w, topic, data.len() as u32, q.pinned_blocks@);
    assert(region::block_data(c, w, block, data.len() as int) =~= data);
}

/// A new subscription sees only what is published from then on: nothing is there
/// for it. It counts as one subscriber more, and no longer when it ends. `m` is the
/// segment that it was opened on, `end` the one that it leaves.
pub proof fn law_subscribe_call<M: SharedMemory>(m: Seq<u8>, s: Subscription<M>, end: Seq<u8>)
    requires
        s.wf(),
        m.len() == s.region.mem.image().len(),
        s.last_seq == region::write_seq(m, s.topic_idx as int),
        ({
            let off = layout::topic_off(s.topic_idx as int) + layout::TE_SUBSCRIBER_COUNT;
            let n = s.region.mem.image();
            &&& n == memory::put32(
                m,
                off,
                memory::wrapping_sum_u32(memory::u32_at(m, off), 1),
            )
            &&& end == memory::put32(
                n,
                off,
                memory::wrapping_difference_u32(memory::u32_at(n, off), 1),
            )
        }),
    ensures
        subscription::next_readable(
            s.region.config,
            s.region.mem.image(),
            s.topic_idx as int,
            s.last_seq,
        ) is None,
        end == m,
{
    let c = s.region.config;
    let t = s.topic_idx as int;
    let off = layout::topic_off(t) + layout::TE_SUBSCRIBER_COUNT;
    layout::lemma_layout(c);
    layout::lemma_topic(c, t);
    memory::lemma_le32_of_u32_at(m, off);
    let count = memory::le32(memory::u32_at(m, off));
    assert(count =~= memory::bytes_at(m, off, 4));
    assert forall|i: int| 0 <= i < m.len() implies end[i] == m[i] by {
        if off <= i < off + 4 {
            assert(count[i - off] == m[i]);
        }
    }
    assert(end =~= m);
}

} // verus!
