//! What holds across publishing, receiving, registering and lending.

use crate::memory;
use crate::platform::loan;
use crate::platform::shm;
use crate::platform::subscription;
use crate::pod::{self, Pod};
use crate::protocol::config::PubSubConfig;
use crate::protocol::layout::{
    self, PINNED_WRITER_ACTIVE, TE_PINNED_READERS, TE_SUBSCRIBER_COUNT, TE_URI_MAX,
};
use crate::protocol::pool::{self, PoolLayout, NO_BLOCK};
use crate::protocol::region;
use vstd::prelude::*;

verus! {

broadcast use crate::memory::group_memory;

/// A block that can be published: it exists, no ring slot of the topic that is
/// about to be overwritten holds it, and it is not the warm block.
pub open spec fn fresh_block(
    c: PubSubConfig,
    m: Seq<u8>,
    warm: u32,
    topic: int,
    block: u32,
) -> bool {
    &&& block < c.block_count
    &&& block != region::ring_block(
        c,
        m,
        topic,
        layout::slot_of(c, region::next_seq(m, topic)),
    )
    &&& block != warm
}

/// A segment of this configuration.
pub open spec fn segment(c: PubSubConfig, m: Seq<u8>) -> bool {
    &&& layout::valid_config(c)
    &&& layout::region_size(c) <= m.len() <= usize::MAX
}

/// Letting a block go touches nothing in front of the pool but the list head,
/// no data, and no reference count but its own.
pub proof fn lemma_recycle_frame(c: PubSubConfig, m: Seq<u8>, warm: u32, block: u32)
    requires
        segment(c, m),
        warm == NO_BLOCK || warm < c.block_count,
    ensures
        ({
            let n = region::after_recycle(c, m, warm, block).0;
            &&& n.len() == m.len()
            &&& forall|i: int|
                layout::HEADER_SIZE <= i < layout::pool_off(c) ==> #[trigger] n[i] == m[i]
            &&& forall|b: int, i: int|
                0 <= b < c.block_count && region::data_off(c, b) <= i < region::data_off(c, b)
                    + region::capacity_of(c) ==> #[trigger] n[i] == m[i] && #[trigger] region::data_off(
                    c,
                    b,
                ) >= 0
            &&& forall|b: int|
                0 <= b < c.block_count && b != block ==> #[trigger] region::refcount(c, n, b)
                    == region::refcount(c, m, b)
        }),
{
    layout::lemma_layout(c);
    let p = layout::pool_of(c);
    let n = region::after_recycle(c, m, warm, block).0;
    if block < c.block_count {
        region::lemma_block_parts(c, block as int);
    }
    if warm < c.block_count {
        region::lemma_block_parts(c, warm as int);
    }
    assert forall|b: int, i: int|
        0 <= b < c.block_count && region::data_off(c, b) <= i < region::data_off(c, b)
            + region::capacity_of(c) implies #[trigger] n[i] == m[i] && #[trigger] region::data_off(
        c,
        b,
    ) >= 0 by {
        region::lemma_block_parts(c, b);
        lemma_apart(p, b, block as int);
        lemma_apart(p, b, warm as int);
    }
    assert forall|b: int| 0 <= b < c.block_count && b != block implies #[trigger] region::refcount(
        c,
        n,
        b,
    ) == region::refcount(c, m, b) by {
        region::lemma_block_parts(c, b);
        lemma_apart(p, b, block as int);
        lemma_apart(p, b, warm as int);
    }
}

/// Two different blocks do not overlap.
pub proof fn lemma_apart(p: PoolLayout, a: int, b: int)
    ensures
        a < b ==> p.block(a) + p.block_size <= p.block(b),
        b < a ==> p.block(b) + p.block_size <= p.block(a),
{
    if a < b {
        pool::lemma_blocks_apart(p, a, b);
    } else if b < a {
        pool::lemma_blocks_apart(p, b, a);
    }
}

/// `n` is `m` with a sample more: the topic's newest sequence number goes up by
/// one; the slot of that number holds the number, the block and the length; the
/// block has one reference; no data changes, no other slot changes, no other
/// topic changes, and no reference count but that of `replaced`.
pub open spec fn has_sample_more(
    c: PubSubConfig,
    m: Seq<u8>,
    n: Seq<u8>,
    topic: int,
    block: u32,
    len: u32,
    replaced: int,
) -> bool {
    let seq = region::next_seq(m, topic);
    let slot = layout::slot_of(c, seq);
    &&& n.len() == m.len()
    &&& region::write_seq(n, topic) == seq
    &&& region::ring_seq(c, n, topic, slot) == seq
    &&& region::ring_block(c, n, topic, slot) == block
    &&& region::ring_len(c, n, topic, slot) == len
    &&& region::refcount(c, n, block as int) == 1
    &&& forall|t: int, s: int|
        0 <= t < c.max_topics && 0 <= s < c.ring_depth && (t != topic || s != slot) ==> {
            &&& #[trigger] region::ring_seq(c, n, t, s) == region::ring_seq(c, m, t, s)
            &&& region::ring_block(c, n, t, s) == region::ring_block(c, m, t, s)
            &&& region::ring_len(c, n, t, s) == region::ring_len(c, m, t, s)
        }
    &&& forall|t: int|
        0 <= t < c.max_topics && t != topic ==> #[trigger] region::write_seq(n, t)
            == region::write_seq(m, t)
    &&& forall|b: int, l: int|
        0 <= b < c.block_count && 0 <= l <= region::capacity_of(c)
            ==> #[trigger] region::block_data(c, n, b, l) == region::block_data(c, m, b, l)
    &&& forall|b: int|
        0 <= b < c.block_count && b != block && b != replaced ==> #[trigger] region::refcount(
            c,
            n,
            b,
        ) == region::refcount(c, m, b)
}

/// `n` is `m` with another reference count of one block: rings, topics and data
/// are the same.
pub open spec fn has_other_count(c: PubSubConfig, m: Seq<u8>, n: Seq<u8>, block: int) -> bool {
    &&& n.len() == m.len()
    &&& forall|t: int, s: int|
        0 <= t < c.max_topics && 0 <= s < c.ring_depth ==> {
            &&& #[trigger] region::ring_seq(c, n, t, s) == region::ring_seq(c, m, t, s)
            &&& region::ring_block(c, n, t, s) == region::ring_block(c, m, t, s)
            &&& region::ring_len(c, n, t, s) == region::ring_len(c, m, t, s)
        }
    &&& forall|t: int|
        0 <= t < c.max_topics ==> #[trigger] region::write_seq(n, t) == region::write_seq(m, t)
    &&& forall|b: int, l: int|
        0 <= b < c.block_count && 0 <= l <= region::capacity_of(c)
            ==> #[trigger] region::block_data(c, n, b, l) == region::block_data(c, m, b, l)
    &&& forall|b: int|
        0 <= b < c.block_count && b != block ==> #[trigger] region::refcount(c, n, b)
            == region::refcount(c, m, b)
}

/// A sample more, and then another reference count.
proof fn lemma_sample_and_count(
    c: PubSubConfig,
    m: Seq<u8>,
    k: Seq<u8>,
    n: Seq<u8>,
    topic: int,
    block: u32,
    len: u32,
    replaced: int,
)
    requires
        layout::valid_config(c),
        0 <= topic < c.max_topics,
        block < c.block_count,
        block != replaced,
        has_sample_more(c, m, k, topic, block, len, -1),
        has_other_count(c, k, n, replaced),
    ensures
        has_sample_more(c, m, n, topic, block, len, replaced),
{
    assert forall|t: int, s: int|
        0 <= t < c.max_topics && 0 <= s < c.ring_depth && (t != topic || s != layout::slot_of(
            c,
            region::next_seq(m, topic),
        )) implies {
        &&& #[trigger] region::ring_seq(c, n, t, s) == region::ring_seq(c, m, t, s)
        &&& region::ring_block(c, n, t, s) == region::ring_block(c, m, t, s)
        &&& region::ring_len(c, n, t, s) == region::ring_len(c, m, t, s)
    } by {
        assert(region::ring_seq(c, k, t, s) == region::ring_seq(c, m, t, s));
        assert(region::ring_seq(c, n, t, s) == region::ring_seq(c, k, t, s));
        assert(region::ring_block(c, n, t, s) == region::ring_block(c, k, t, s));
        assert(region::ring_len(c, n, t, s) == region::ring_len(c, k, t, s));
    }
    let slot = layout::slot_of(c, region::next_seq(m, topic));
    assert(region::ring_seq(c, n, topic, slot) == region::ring_seq(c, k, topic, slot));
}

/// A slot that is filled is a sample more.
proof fn lemma_entry_effect(
    c: PubSubConfig,
    m: Seq<u8>,
    topic: int,
    block: u32,
    len: u32,
)
    requires
        segment(c, m),
        0 <= topic < c.max_topics,
        block < c.block_count,
    ensures
        has_sample_more(
            c,
            m,
            region::with_entry(c, m, topic, block, len),
            topic,
            block,
            len,
            -1,
        ),
{
    let slot = layout::slot_of(c, region::next_seq(m, topic));
    let n = region::with_entry(c, m, topic, block, len);
    layout::lemma_layout(c);
    layout::lemma_topic(c, topic);
    layout::lemma_ring(c, topic, slot);
    region::lemma_block_parts(c, block as int);
    assert forall|t: int, s: int|
        0 <= t < c.max_topics && 0 <= s < c.ring_depth && (t != topic || s != slot) implies {
        &&& #[trigger] region::ring_seq(c, n, t, s) == region::ring_seq(c, m, t, s)
        &&& region::ring_block(c, n, t, s) == region::ring_block(c, m, t, s)
        &&& region::ring_len(c, n, t, s) == region::ring_len(c, m, t, s)
    } by {
        layout::lemma_ring(c, t, s);
        layout::lemma_rings_apart(c, t, s, topic, slot);
    }
    assert forall|t: int| 0 <= t < c.max_topics && t != topic implies #[trigger] region::write_seq(
        n,
        t,
    ) == region::write_seq(m, t) by {
        layout::lemma_topic(c, t);
    }
    assert forall|b: int, l: int|
        0 <= b < c.block_count && 0 <= l <= region::capacity_of(
            c,
        ) implies #[trigger] region::block_data(c, n, b, l) == region::block_data(c, m, b, l) by {
        region::lemma_block_parts(c, b);
        lemma_apart(layout::pool_of(c), b, block as int);
    }
    assert forall|b: int| 0 <= b < c.block_count && b != block implies #[trigger] region::refcount(
        c,
        n,
        b,
    ) == region::refcount(c, m, b) by {
        region::lemma_block_parts(c, b);
        lemma_apart(layout::pool_of(c), b, block as int);
    }
}

/// A block that is let go has another reference count.
proof fn lemma_recycle_effect(c: PubSubConfig, m: Seq<u8>, warm: u32, block: u32)
    requires
        segment(c, m),
        warm == NO_BLOCK || warm < c.block_count,
    ensures
        has_other_count(c, m, region::after_recycle(c, m, warm, block).0, block as int),
{
    let n = region::after_recycle(c, m, warm, block).0;
    layout::lemma_layout(c);
    lemma_recycle_frame(c, m, warm, block);
    assert forall|t: int, s: int| 0 <= t < c.max_topics && 0 <= s < c.ring_depth implies {
        &&& #[trigger] region::ring_seq(c, n, t, s) == region::ring_seq(c, m, t, s)
        &&& region::ring_block(c, n, t, s) == region::ring_block(c, m, t, s)
        &&& region::ring_len(c, n, t, s) == region::ring_len(c, m, t, s)
    } by {
        layout::lemma_ring(c, t, s);
    }
    assert forall|t: int| 0 <= t < c.max_topics implies #[trigger] region::write_seq(n, t)
        == region::write_seq(m, t) by {
        layout::lemma_topic(c, t);
    }
    assert forall|b: int, l: int|
        0 <= b < c.block_count && 0 <= l <= region::capacity_of(
            c,
        ) implies #[trigger] region::block_data(c, n, b, l) == region::block_data(c, m, b, l) by {
        region::lemma_block_parts(c, b);
        assert forall|i: int|
            region::data_off(c, b) <= i < region::data_off(c, b) + l implies n[i] == m[i] by {
            assert(region::data_off(c, b) >= 0);
        }
        assert(region::block_data(c, n, b, l) =~= region::block_data(c, m, b, l));
    }
}

/// What publishing does, cell by cell: there is a sample more, and of the
/// reference counts only that of the sample it replaces changes.
pub proof fn law_publish_effect(
    c: PubSubConfig,
    m: Seq<u8>,
    warm: u32,
    topic: int,
    block: u32,
    len: u32,
)
    requires
        segment(c, m),
        warm == NO_BLOCK || warm < c.block_count,
        0 <= topic < c.max_topics,
        fresh_block(c, m, warm, topic, block),
    ensures
        has_sample_more(
            c,
            m,
            region::after_commit(c, m, warm, topic, block, len).0,
            topic,
            block,
            len,
            region::ring_block(c, m, topic, layout::slot_of(c, region::next_seq(m, topic))) as int,
        ),
{
    let slot = layout::slot_of(c, region::next_seq(m, topic));
    let k = region::with_entry(c, m, topic, block, len);
    let old_block = region::ring_block(c, m, topic, slot);
    let n = region::after_commit(c, m, warm, topic, block, len).0;
    lemma_entry_effect(c, m, topic, block, len);
    lemma_recycle_effect(c, k, warm, old_block);
    layout::lemma_layout(c);
    lemma_sample_and_count(c, m, k, n, topic, block, len, old_block as int);
}

/// A subscriber that was up to date receives the next published sample: its
/// block, its length, and the bytes that the publisher wrote.
pub proof fn law_publish_then_receive(
    c: PubSubConfig,
    m: Seq<u8>,
    warm: u32,
    topic: int,
    block: u32,
    len: u32,
)
    requires
        segment(c, m),
        warm == NO_BLOCK || warm < c.block_count,
        0 <= topic < c.max_topics,
        fresh_block(c, m, warm, topic, block),
        len <= region::capacity_of(c),
        region::write_seq(m, topic) < u64::MAX,
    ensures
        ({
            let n = region::after_commit(c, m, warm, topic, block, len).0;
            let seq = region::next_seq(m, topic);
            &&& subscription::next_readable(c, n, topic, region::write_seq(m, topic)) == Some(seq)
            &&& region::ring_block(c, n, topic, layout::slot_of(c, seq)) == block
            &&& region::ring_len(c, n, topic, layout::slot_of(c, seq)) == len
            &&& region::block_data(c, n, block as int, len as int) == region::block_data(
                c,
                m,
                block as int,
                len as int,
            )
        }),
{
    law_publish_effect(c, m, warm, topic, block, len);
    layout::lemma_layout(c);
    let n = region::after_commit(c, m, warm, topic, block, len).0;
    let seq = region::next_seq(m, topic);
    assert(subscription::readable(c, n, topic, seq));
}

/// The bytes that a publisher writes in its block and publishes are the bytes
/// that a subscriber who was up to date receives.
pub proof fn law_data_round_trip(
    c: PubSubConfig,
    m: Seq<u8>,
    warm: u32,
    topic: int,
    block: u32,
    data: Seq<u8>,
)
    requires
        segment(c, m),
        warm == NO_BLOCK || warm < c.block_count,
        0 <= topic < c.max_topics,
        fresh_block(c, m, warm, topic, block),
        data.len() <= region::capacity_of(c),
        region::write_seq(m, topic) < u64::MAX,
    ensures
        ({
            let w = memory::put(m, region::data_off(c, block as int), data);
            let n = region::after_commit(c, w, warm, topic, block, data.len() as u32).0;
            let seq = region::next_seq(m, topic);
            &&& subscription::next_readable(c, n, topic, region::write_seq(m, topic)) == Some(seq)
            &&& region::ring_block(c, n, topic, layout::slot_of(c, seq)) == block
            &&& region::ring_len(c, n, topic, layout::slot_of(c, seq)) == data.len()
            &&& region::block_data(c, n, block as int, data.len() as int) == data
        }),
{
    let w = memory::put(m, region::data_off(c, block as int), data);
    layout::lemma_layout(c);
    layout::lemma_topic(c, topic);
    layout::lemma_ring(c, topic, layout::slot_of(c, region::next_seq(m, topic)));
    region::lemma_block_parts(c, block as int);
    law_publish_then_receive(c, w, warm, topic, block, data.len() as u32);
    assert(region::block_data(c, w, block as int, data.len() as int) =~= data);
}

/// The value that a publisher sends is the value that a subscriber who was up
/// to date gets.
pub proof fn law_typed_round_trip<T: Pod>(
    c: PubSubConfig,
    m: Seq<u8>,
    warm: u32,
    topic: int,
    block: u32,
    value: T,
    got: T,
)
    requires
        segment(c, m),
        warm == NO_BLOCK || warm < c.block_count,
        0 <= topic < c.max_topics,
        fresh_block(c, m, warm, topic, block),
        T::size() <= region::capacity_of(c),
        region::write_seq(m, topic) < u64::MAX,
        ({
            let w = memory::put(m, region::data_off(c, block as int), value.encode());
            let n = region::after_commit(c, w, warm, topic, block, T::size() as u32).0;
            got.encode() == region::block_data(c, n, block as int, T::size() as int)
        }),
    ensures
        ({
            let w = memory::put(m, region::data_off(c, block as int), value.encode());
            let n = region::after_commit(c, w, warm, topic, block, T::size() as u32).0;
            let seq = region::next_seq(m, topic);
            &&& subscription::next_readable(c, n, topic, region::write_seq(m, topic)) == Some(seq)
            &&& region::ring_block(c, n, topic, layout::slot_of(c, seq)) == block
        }),
        got == value,
{
    value.encode_size();
    law_data_round_trip(c, m, warm, topic, block, value.encode());
    T::encode_injective(got, value);
}

/// A channel delivers its first message: the end that joins reads from the
/// beginning, so that it receives what was sent before it came.
pub proof fn law_first_message_is_delivered(
    c: PubSubConfig,
    m: Seq<u8>,
    warm: u32,
    topic: int,
    block: u32,
    data: Seq<u8>,
)
    requires
        segment(c, m),
        warm == NO_BLOCK || warm < c.block_count,
        0 <= topic < c.max_topics,
        fresh_block(c, m, warm, topic, block),
        data.len() <= region::capacity_of(c),
        region::write_seq(m, topic) == 0,
    ensures
        ({
            let w = memory::put(m, region::data_off(c, block as int), data);
            let n = region::after_commit(c, w, warm, topic, block, data.len() as u32).0;
            &&& subscription::next_readable(c, n, topic, 0) == Some(1u64)
            &&& region::ring_block(c, n, topic, layout::slot_of(c, 1)) == block
            &&& region::block_data(c, n, block as int, data.len() as int) == data
        }),
{
    law_data_round_trip(c, m, warm, topic, block, data);
}

/// A subscription that was opened and closed leaves the segment as it was, and
/// in between the topic has one subscriber more.
pub proof fn law_subscribe_then_close(c: PubSubConfig, m: Seq<u8>, topic: int)
    requires
        segment(c, m),
        0 <= topic < c.max_topics,
    ensures
        ({
            let off = layout::topic_off(topic) + TE_SUBSCRIBER_COUNT;
            let count = memory::u32_at(m, off);
            let n = memory::put32(m, off, memory::wrapping_sum_u32(count, 1));
            let during = memory::u32_at(n, off);
            &&& during == memory::wrapping_sum_u32(count, 1)
            &&& count < u32::MAX ==> during == count + 1
            &&& memory::put32(n, off, memory::wrapping_difference_u32(during, 1)) == m
        }),
{
    layout::lemma_layout(c);
    layout::lemma_topic(c, topic);
    let off = layout::topic_off(topic) + TE_SUBSCRIBER_COUNT;
    let count = memory::u32_at(m, off);
    let n = memory::put32(m, off, memory::wrapping_sum_u32(count, 1));
    let o = memory::put32(n, off, memory::wrapping_difference_u32(memory::u32_at(n, off), 1));
    assert(memory::wrapping_difference_u32(memory::wrapping_sum_u32(count, 1), 1) == count);
    memory::lemma_le32_of_u32_at(m, off);
    assert forall|i: int| 0 <= i < m.len() implies o[i] == m[i] by {
        if off <= i < off + 4 {
            assert(memory::bytes_at(m, off, 4)[i - off] == m[i]);
        }
    }
    assert(o =~= m);
}

/// A sample of another topic, or one of the same topic in another slot, that
/// could be received before a publication can be received after it.
pub proof fn law_publish_keeps_other_samples(
    c: PubSubConfig,
    m: Seq<u8>,
    warm: u32,
    topic: int,
    block: u32,
    len: u32,
    t: int,
    seq: u64,
)
    requires
        segment(c, m),
        warm == NO_BLOCK || warm < c.block_count,
        0 <= topic < c.max_topics,
        fresh_block(c, m, warm, topic, block),
        0 <= t < c.max_topics,
        subscription::readable(c, m, t, seq),
        t != topic || layout::slot_of(c, seq) != layout::slot_of(c, region::next_seq(m, topic)),
        region::ring_block(c, m, t, layout::slot_of(c, seq)) != block,
        region::ring_block(c, m, t, layout::slot_of(c, seq)) != region::ring_block(
            c,
            m,
            topic,
            layout::slot_of(c, region::next_seq(m, topic)),
        ),
    ensures
        subscription::readable(
            c,
            region::after_commit(c, m, warm, topic, block, len).0,
            t,
            seq,
        ),
{
    law_publish_effect(c, m, warm, topic, block, len);
    layout::lemma_layout(c);
    let n = region::after_commit(c, m, warm, topic, block, len).0;
    let slot = layout::slot_of(c, seq);
    assert(region::ring_seq(c, n, t, slot) == region::ring_seq(c, m, t, slot));
    let b = region::ring_block(c, m, t, slot) as int;
    assert(region::refcount(c, n, b) == region::refcount(c, m, b));
}

/// Samples are received in the order in which they were published: as long as
/// the next one can be received and the ring has not moved past it, it is the
/// one.
pub proof fn law_receive_in_order(c: PubSubConfig, m: Seq<u8>, topic: int, last: u64)
    requires
        last < region::write_seq(m, topic),
        region::write_seq(m, topic) - last <= c.ring_depth,
        subscription::readable(c, m, topic, (last + 1) as u64),
    ensures
        subscription::next_readable(c, m, topic, last) == Some((last + 1) as u64),
{
}

/// A subscriber that fell behind by more than the ring holds goes on with the
/// oldest sample that the ring still holds.
pub proof fn law_receive_skips_what_is_overwritten(
    c: PubSubConfig,
    m: Seq<u8>,
    topic: int,
    last: u64,
)
    requires
        c.ring_depth >= 1,
        last < region::write_seq(m, topic),
        region::write_seq(m, topic) - last > c.ring_depth,
        subscription::readable(
            c,
            m,
            topic,
            (region::write_seq(m, topic) - c.ring_depth + 1) as u64,
        ),
    ensures
        subscription::next_readable(c, m, topic, last) == Some(
            (region::write_seq(m, topic) - c.ring_depth + 1) as u64,
        ),
{
}

/// What is received is newer than what was received before, not newer than what
/// was published, and within reach of the ring.
pub proof fn law_receive_moves_forward(c: PubSubConfig, m: Seq<u8>, topic: int, last: u64)
    requires
        c.ring_depth >= 1,
    ensures
        subscription::next_readable(c, m, topic, last) matches Some(seq) ==> {
            &&& last < seq <= region::write_seq(m, topic)
            &&& region::write_seq(m, topic) - seq < c.ring_depth
            &&& subscription::readable(c, m, topic, seq)
        },
        region::write_seq(m, topic) <= last ==> subscription::next_readable(c, m, topic, last)
            is None,
{
    let newest = region::write_seq(m, topic);
    if newest > last {
        lemma_first_readable(
            c,
            m,
            topic,
            subscription::window_start(c.ring_depth, newest, last),
            newest as int,
        );
    }
}

proof fn lemma_first_readable(c: PubSubConfig, m: Seq<u8>, topic: int, from: int, to: int)
    requires
        0 <= from,
        to <= u64::MAX,
    ensures
        subscription::first_readable(c, m, topic, from, to) matches Some(seq) ==> from <= seq <= to
            && subscription::readable(c, m, topic, seq),
    decreases to - from + 1,
{
    if from <= to && !subscription::readable(c, m, topic, from as u64) {
        lemma_first_readable(c, m, topic, from + 1, to);
    }
}

/// Releasing a received sample undoes receiving it.
pub proof fn law_receive_then_release(c: PubSubConfig, m: Seq<u8>, block: u32)
    requires
        segment(c, m),
        block < c.block_count,
        0 < region::refcount(c, m, block as int) < u32::MAX,
    ensures
        region::after_release(c, subscription::after_acquire(c, m, block), block) == m,
{
    region::lemma_block_parts(c, block as int);
    let off = region::refcount_off(c, block as int);
    memory::lemma_le32_of_u32_at(m, off);
    let n = region::after_release(c, subscription::after_acquire(c, m, block), block);
    let b = memory::le32(memory::u32_at(m, off));
    assert(b =~= memory::bytes_at(m, off, 4));
    assert forall|i: int| 0 <= i < m.len() implies n[i] == m[i] by {
        if off <= i < off + 4 {
            assert(n[i] == b[i - off]);
            assert(b[i - off] == memory::bytes_at(m, off, 4)[i - off]);
        }
    }
    assert(n =~= m);
}

/// A sample that a subscriber holds survives being overwritten in the ring: its
/// block is neither freed nor made the warm block, and its data stays.
pub proof fn law_held_sample_survives(
    c: PubSubConfig,
    m: Seq<u8>,
    warm: u32,
    topic: int,
    block: u32,
    len: u32,
    list: Seq<u32>,
)
    requires
        segment(c, m),
        warm == NO_BLOCK || warm < c.block_count,
        0 <= topic < c.max_topics,
        fresh_block(c, m, warm, topic, block),
        layout::pool_of(c).is_free_list(m, list),
        region::ring_block(c, m, topic, layout::slot_of(c, region::next_seq(m, topic)))
            < c.block_count,
        region::refcount(
            c,
            m,
            region::ring_block(
                c,
                m,
                topic,
                layout::slot_of(c, region::next_seq(m, topic)),
            ) as int,
        ) >= 2,
    ensures
        ({
            let held = region::ring_block(
                c,
                m,
                topic,
                layout::slot_of(c, region::next_seq(m, topic)),
            );
            let (n, w) = region::after_commit(c, m, warm, topic, block, len);
            &&& w == warm
            &&& layout::pool_of(c).is_free_list(n, list)
            &&& region::refcount(c, n, held as int) == region::refcount(c, m, held as int) - 1
            &&& forall|l: int|
                0 <= l <= region::capacity_of(c) ==> #[trigger] region::block_data(
                    c,
                    n,
                    held as int,
                    l,
                ) == region::block_data(c, m, held as int, l)
        }),
{
    layout::lemma_layout(c);
    layout::lemma_topic(c, topic);
    let p = layout::pool_of(c);
    let seq = region::next_seq(m, topic);
    let slot = layout::slot_of(c, seq);
    layout::lemma_ring(c, topic, slot);
    let held = region::ring_block(c, m, topic, slot);
    region::lemma_block_parts(c, block as int);
    region::lemma_block_parts(c, held as int);
    lemma_apart(p, block as int, held as int);
    law_publish_effect(c, m, warm, topic, block, len);
    let k = region::with_entry(c, m, topic, block, len);
    assert(region::refcount(c, k, held as int) == region::refcount(c, m, held as int));
    lemma_entry_keeps_free_list(c, m, topic, block, len, list);
    let count = region::refcount(c, k, held as int);
    pool::law_block_writes_keep_free_list(
        p,
        k,
        list,
        held,
        region::refcount_off(c, held as int),
        memory::le32(memory::wrapping_difference_u32(count, 1)),
    );
}

/// Filling a ring entry leaves the free list alone.
proof fn lemma_entry_keeps_free_list(
    c: PubSubConfig,
    m: Seq<u8>,
    topic: int,
    block: u32,
    len: u32,
    list: Seq<u32>,
)
    requires
        segment(c, m),
        0 <= topic < c.max_topics,
        block < c.block_count,
        layout::pool_of(c).is_free_list(m, list),
    ensures
        layout::pool_of(c).is_free_list(region::with_entry(c, m, topic, block, len), list),
{
    layout::lemma_layout(c);
    layout::lemma_topic(c, topic);
    let p = layout::pool_of(c);
    let seq = region::next_seq(m, topic);
    layout::lemma_ring(c, topic, layout::slot_of(c, seq));
    region::lemma_block_parts(c, block as int);
    let m1 = memory::put64(m, layout::topic_off(topic) + layout::TE_WRITE_SEQ, seq);
    crate::protocol::laws::lemma_free_list_kept(p, m, m1, list);
    pool::law_block_writes_keep_free_list(
        p,
        m1,
        list,
        block,
        region::refcount_off(c, block as int),
        memory::le32(1),
    );
    let m2 = memory::put32(m1, region::refcount_off(c, block as int), 1);
    crate::protocol::laws::lemma_free_list_kept(
        p,
        m2,
        region::with_entry(c, m, topic, block, len),
        list,
    );
}

/// A sample whose last reference goes when it is overwritten becomes the warm
/// block, and the warm block before it goes back to the pool.
pub proof fn law_overwritten_sample_is_recycled(
    c: PubSubConfig,
    m: Seq<u8>,
    warm: u32,
    topic: int,
    block: u32,
    len: u32,
    list: Seq<u32>,
)
    requires
        segment(c, m),
        warm == NO_BLOCK || (warm < c.block_count && !list.contains(warm)),
        0 <= topic < c.max_topics,
        fresh_block(c, m, warm, topic, block),
        layout::pool_of(c).is_free_list(m, list),
        region::ring_block(c, m, topic, layout::slot_of(c, region::next_seq(m, topic)))
            < c.block_count,
        region::refcount(
            c,
            m,
            region::ring_block(
                c,
                m,
                topic,
                layout::slot_of(c, region::next_seq(m, topic)),
            ) as int,
        ) == 1,
    ensures
        ({
            let (n, w) = region::after_commit(c, m, warm, topic, block, len);
            &&& w == region::ring_block(
                c,
                m,
                topic,
                layout::slot_of(c, region::next_seq(m, topic)),
            )
            &&& layout::pool_of(c).is_free_list(
                n,
                if warm == NO_BLOCK {
                    list
                } else {
                    seq![warm] + list
                },
            )
        }),
{
    layout::lemma_layout(c);
    layout::lemma_topic(c, topic);
    let p = layout::pool_of(c);
    let seq = region::next_seq(m, topic);
    let slot = layout::slot_of(c, seq);
    layout::lemma_ring(c, topic, slot);
    let gone = region::ring_block(c, m, topic, slot);
    region::lemma_block_parts(c, block as int);
    region::lemma_block_parts(c, gone as int);
    lemma_apart(p, block as int, gone as int);
    let k = region::with_entry(c, m, topic, block, len);
    assert(region::refcount(c, k, gone as int) == region::refcount(c, m, gone as int));
    lemma_entry_keeps_free_list(c, m, topic, block, len, list);
    let k2 = memory::put32(k, region::refcount_off(c, gone as int), 0);
    pool::law_block_writes_keep_free_list(
        p,
        k,
        list,
        gone,
        region::refcount_off(c, gone as int),
        memory::le32(0),
    );
    if warm != NO_BLOCK {
        pool::law_free_pushes_the_head(p, k2, list, warm);
    }
}

/// While the publisher writes the pinned block, no subscriber gets in; while a
/// subscriber is in, the publisher does not get it.
pub proof fn law_pinned_exclusion(c: PubSubConfig, m: Seq<u8>, topic: int, last: u64)
    requires
        segment(c, m),
        0 <= topic < c.max_topics,
    ensures
        region::pinned_readers_of(m, topic) == PINNED_WRITER_ACTIVE
            ==> !subscription::pinned_readable(c, m, topic, last),
        subscription::pinned_readable(c, m, topic, last) ==> region::pinned_readers_of(
            memory::put32(
                m,
                layout::topic_off(topic) + TE_PINNED_READERS,
                (region::pinned_readers_of(m, topic) + 1) as u32,
            ),
            topic,
        ) != 0,
{
    layout::lemma_layout(c);
    layout::lemma_topic(c, topic);
}

/// A pinned sample that was published can be received, with the length that was
/// published, by a subscriber that has not seen its number yet.
pub proof fn law_pinned_publish_then_receive(
    c: PubSubConfig,
    m: Seq<u8>,
    topic: int,
    len: u32,
    last: u64,
)
    requires
        segment(c, m),
        0 <= topic < c.max_topics,
        len <= region::capacity_of(c),
        region::pinned_block_of(m, topic) < c.block_count,
        last < region::next_seq(m, topic) % 0x1_0000_0000,
    ensures
        ({
            let n = memory::put32(
                region::after_commit_pinned(m, topic, len),
                layout::topic_off(topic) + TE_PINNED_READERS,
                0,
            );
            &&& subscription::pinned_readable(c, n, topic, last)
            &&& pool::idx_of(region::pinned_seq_of(n, topic)) == len
            &&& region::pinned_block_of(n, topic) == region::pinned_block_of(m, topic)
            &&& forall|b: int, l: int|
                0 <= b < c.block_count && 0 <= l <= region::capacity_of(c)
                    ==> #[trigger] region::block_data(c, n, b, l) == region::block_data(c, m, b, l)
        }),
{
    layout::lemma_layout(c);
    layout::lemma_topic(c, topic);
    let seq = region::next_seq(m, topic);
    pool::law_pack_unpack((seq % 0x1_0000_0000) as u32, len, 0);
    let n = memory::put32(
        region::after_commit_pinned(m, topic, len),
        layout::topic_off(topic) + TE_PINNED_READERS,
        0,
    );
    assert forall|b: int, l: int|
        0 <= b < c.block_count && 0 <= l <= region::capacity_of(
            c,
        ) implies #[trigger] region::block_data(c, n, b, l) == region::block_data(c, m, b, l) by {
        region::lemma_block_parts(c, b);
    }
}

/// A topic entry depends on its own bytes.
proof fn lemma_topic_kept(m: Seq<u8>, n: Seq<u8>, i: int, uri: Seq<u8>)
    requires
        m.len() == n.len(),
        0 <= i,
        layout::topic_off(i) + layout::TOPIC_ENTRY_SIZE <= m.len(),
        forall|k: int|
            layout::topic_off(i) <= k < layout::topic_off(i) + layout::TOPIC_ENTRY_SIZE ==> m[k]
                == #[trigger] n[k],
    ensures
        shm::topic_matches(m, i, uri) == shm::topic_matches(n, i, uri),
        shm::topic_free(m, i) == shm::topic_free(n, i),
{
    if uri.len() <= TE_URI_MAX {
        assert(memory::bytes_at(m, layout::topic_off(i) + layout::TE_URI, uri.len() as int)
            =~= memory::bytes_at(n, layout::topic_off(i) + layout::TE_URI, uri.len() as int));
    }
}

/// What the searches of the topic table find.
proof fn lemma_find(m: Seq<u8>, from: int, count: int, uri: Seq<u8>)
    requires
        0 <= from,
    ensures
        match shm::find_topic(m, from, count, uri) {
            Some(i) => from <= i < count && shm::topic_matches(m, i, uri) && forall|j: int|
                from <= j < i ==> !#[trigger] shm::topic_matches(m, j, uri),
            None => forall|j: int| from <= j < count ==> !#[trigger] shm::topic_matches(m, j, uri),
        },
        match shm::find_free(m, from, count) {
            Some(i) => from <= i < count && shm::topic_free(m, i) && forall|j: int|
                from <= j < i ==> !#[trigger] shm::topic_free(m, j),
            None => forall|j: int| from <= j < count ==> !#[trigger] shm::topic_free(m, j),
        },
    decreases count - from,
{
    if from < count {
        lemma_find(m, from + 1, count, uri);
    }
}

/// The first match of a search is what the search finds.
proof fn lemma_found(m: Seq<u8>, from: int, i: int, count: int, uri: Seq<u8>)
    requires
        from <= i < count,
        shm::topic_matches(m, i, uri),
        forall|j: int| from <= j < i ==> !#[trigger] shm::topic_matches(m, j, uri),
    ensures
        shm::find_topic(m, from, count, uri) == Some(i),
    decreases i - from,
{
    if from < i {
        lemma_found(m, from + 1, i, count, uri);
    }
}

proof fn lemma_not_found(m: Seq<u8>, from: int, count: int, uri: Seq<u8>)
    requires
        forall|j: int| from <= j < count ==> !#[trigger] shm::topic_matches(m, j, uri),
    ensures
        shm::find_topic(m, from, count, uri) is None,
    decreases count - from,
{
    if from < count {
        lemma_not_found(m, from + 1, count, uri);
    }
}

/// A topic that was registered in a free entry is found under its URI, without
/// samples, and registering or subscribing again leads to the same entry. Other
/// topics are found where they were.
pub proof fn law_register_then_find(
    c: PubSubConfig,
    m: Seq<u8>,
    uri: Seq<u8>,
    type_size: u32,
    other: Seq<u8>,
)
    requires
        segment(c, m),
        uri.len() <= TE_URI_MAX,
        other != uri,
        shm::find_topic(m, 0, c.max_topics as int, uri) is None,
        shm::find_free(m, 0, c.max_topics as int) is Some,
    ensures
        ({
            let i = shm::find_free(m, 0, c.max_topics as int)->0;
            let n = shm::with_topic(m, i, uri, type_size);
            &&& shm::find_topic(n, 0, c.max_topics as int, uri) == Some(i)
            &&& region::write_seq(n, i) == 0
            &&& memory::u32_at(n, layout::topic_off(i) + layout::TE_TYPE_SIZE) == type_size
            &&& shm::find_topic(n, 0, c.max_topics as int, other) == shm::find_topic(
                m,
                0,
                c.max_topics as int,
                other,
            )
        }),
{
    let count = c.max_topics as int;
    layout::lemma_layout(c);
    lemma_find(m, 0, count, uri);
    let i = shm::find_free(m, 0, count)->0;
    layout::lemma_topic(c, i);
    let n = shm::with_topic(m, i, uri, type_size);
    let off = layout::topic_off(i);
    assert(uri.subrange(0, uri.len() as int) =~= uri);
    assert(shm::topic_matches(n, i, uri));
    assert forall|j: int| 0 <= j < count && j != i implies shm::topic_matches(n, j, uri)
        == shm::topic_matches(m, j, uri) && shm::topic_matches(n, j, other)
        == shm::topic_matches(m, j, other) by {
        layout::lemma_topic(c, j);
        lemma_topic_kept(m, n, j, uri);
        lemma_topic_kept(m, n, j, other);
    }
    lemma_found(n, 0, i, count, uri);
    lemma_find(m, 0, count, other);
    assert(!shm::topic_matches(m, i, other));
    assert(!shm::topic_matches(n, i, other));
    match shm::find_topic(m, 0, count, other) {
        Some(k) => {
            lemma_found(n, 0, k, count, other);
        },
        None => {
            lemma_not_found(n, 0, count, other);
        },
    }
}

/// Filling the cache moves blocks from the head of the free list into the
/// cache and leaves everything else where it is.
proof fn lemma_refilled(p: PoolLayout, m: Seq<u8>, cache: Seq<u32>, list: Seq<u32>)
    requires
        p.fits(m.len()),
        p.is_free_list(m, list),
    ensures
        exists|rest: Seq<u32>|
            {
                &&& #[trigger] p.is_free_list(shm::refilled(p, m, cache).0, rest)
                &&& shm::refilled(p, m, cache).1 + rest =~= cache + list
                &&& rest.len() <= list.len()
                &&& cache.len() == 0 && list.len() > 0 ==> shm::refilled(p, m, cache).1.len() > 0
            },
    decreases shm::CACHE_SIZE - cache.len(),
{
    pool::law_alloc_takes_the_head(p, m, list);
    if cache.len() >= shm::CACHE_SIZE || list.len() == 0 {
        assert(p.is_free_list(shm::refilled(p, m, cache).0, list));
    } else {
        let rest1 = list.subrange(1, list.len() as int);
        let next = cache.push(list[0]);
        lemma_refilled(p, p.after_alloc(m), next, rest1);
        let rest = choose|rest: Seq<u32>|
            {
                &&& #[trigger] p.is_free_list(
                    shm::refilled(p, p.after_alloc(m), next).0,
                    rest,
                )
                &&& shm::refilled(p, p.after_alloc(m), next).1 + rest =~= next + rest1
                &&& rest.len() <= rest1.len()
                &&& next.len() == 0 && rest1.len() > 0 ==> shm::refilled(
                    p,
                    p.after_alloc(m),
                    next,
                ).1.len() > 0
            };
        assert(next + rest1 =~= cache + list);
        assert(p.is_free_list(shm::refilled(p, m, cache).0, rest));
        let end = shm::refilled(p, m, cache).1;
        assert(end.len() > 0) by {
            assert((end + rest).len() == (cache + list).len());
        }
    }
}

/// One block was lent out of a stock and a free list: what is left of the two,
/// together with the block, is what there was, and the block is in neither.
/// None was lent only because there was none.
pub open spec fn one_lent(p: PoolLayout, s: shm::Stock, list: Seq<u32>, rest: Seq<u32>) -> bool {
    let (block, after) = shm::taken(p, s);
    &&& p.is_free_list(after.image, rest)
    &&& match block {
        Some(b) => {
            &&& !after.cache.contains(b)
            &&& !rest.contains(b)
            &&& after.warm == NO_BLOCK
            &&& b != NO_BLOCK
            &&& if s.warm != NO_BLOCK {
                b == s.warm && after.cache == s.cache && rest == list
            } else {
                after.cache + seq![b] + rest == s.cache + list
            }
        },
        None => s.warm == NO_BLOCK && s.cache.len() == 0 && list.len() == 0,
    }
}

/// A loan takes a block that nobody else has: what the publisher holds and the
/// free list together lose exactly the block that is lent. It finds none only
/// when there is none.
pub proof fn law_loan_takes_one_block(p: PoolLayout, s: shm::Stock, list: Seq<u32>)
    requires
        p.fits(s.image.len()),
        p.is_free_list(s.image, list),
        (if s.warm == NO_BLOCK {
            Seq::<u32>::empty()
        } else {
            seq![s.warm]
        } + s.cache + list).no_duplicates(),
        !s.cache.contains(NO_BLOCK),
    ensures
        exists|rest: Seq<u32>| #[trigger] one_lent(p, s, list, rest),
{
    let (block, after) = shm::taken(p, s);
    pool_blocks_are_real(p, s.image, list);
    if s.warm != NO_BLOCK {
        let all = seq![s.warm] + s.cache + list;
        assert(!s.cache.contains(s.warm)) by {
            if s.cache.contains(s.warm) {
                let i = choose|i: int| 0 <= i < s.cache.len() && s.cache[i] == s.warm;
                assert(all[0] == all[i + 1]);
            }
        }
        assert(!list.contains(s.warm)) by {
            if list.contains(s.warm) {
                let i = choose|i: int| 0 <= i < list.len() && list[i] == s.warm;
                assert(all[0] == all[s.cache.len() + i + 1]);
            }
        }
        assert(one_lent(p, s, list, list));
    } else {
        let all = Seq::<u32>::empty() + s.cache + list;
        assert(all =~= s.cache + list);
        if s.cache.len() > 0 {
            lemma_last_is_alone(s.cache, list);
            assert(one_lent(p, s, list, list));
        } else {
            lemma_refilled(p, s.image, s.cache, list);
            let rest = choose|rest: Seq<u32>|
                {
                    &&& #[trigger] p.is_free_list(shm::refilled(p, s.image, s.cache).0, rest)
                    &&& shm::refilled(p, s.image, s.cache).1 + rest =~= s.cache + list
                    &&& rest.len() <= list.len()
                    &&& s.cache.len() == 0 && list.len() > 0 ==> shm::refilled(
                        p,
                        s.image,
                        s.cache,
                    ).1.len() > 0
                };
            let full = shm::refilled(p, s.image, s.cache).1;
            assert(full + rest == s.cache + list);
            if full.len() > 0 {
                assert((full + rest).no_duplicates());
                lemma_last_is_alone(full, rest);
                assert((s.cache + list).contains(full.last())) by {
                    assert((full + rest)[full.len() - 1] == full.last());
                }
                assert(s.cache + list =~= list);
            }
            assert(one_lent(p, s, list, rest));
        }
    }
}

proof fn lemma_last_is_alone(cache: Seq<u32>, list: Seq<u32>)
    requires
        cache.len() > 0,
        (cache + list).no_duplicates(),
    ensures
        !cache.drop_last().contains(cache.last()),
        !list.contains(cache.last()),
        cache.drop_last() + seq![cache.last()] + list =~= cache + list,
{
    let all = cache + list;
    let k = cache.len() - 1;
    assert(all[k] == cache.last());
    if cache.drop_last().contains(cache.last()) {
        let i = choose|i: int| 0 <= i < k && cache.drop_last()[i] == cache.last();
        assert(all[i] == all[k]);
    }
    if list.contains(cache.last()) {
        let i = choose|i: int| 0 <= i < list.len() && list[i] == cache.last();
        assert(all[cache.len() + i] == all[k]);
    }
}

proof fn pool_blocks_are_real(p: PoolLayout, m: Seq<u8>, list: Seq<u32>)
    requires
        p.is_free_list(m, list),
    ensures
        !list.contains(NO_BLOCK),
{
    if list.contains(NO_BLOCK) {
        let i = choose|i: int| 0 <= i < list.len() && list[i] == NO_BLOCK;
        assert(list[i] < p.block_count);
    }
}

/// A header and an array that were written as one sample read back as they
/// were: the header from the front, and exactly the entries of the array.
pub proof fn law_structured_round_trip<T: Pod, E: Pod>(
    header: T,
    entries: Seq<E>,
    read_header: T,
    read_entries: Seq<E>,
)
    requires
        entries.len() <= u32::MAX,
        read_header.encode() == loan::structured(header, entries).subrange(0, T::size() as int),
        read_entries.len() == entries.len(),
        pod::flat(read_entries) == loan::structured(header, entries).subrange(
            T::size() as int,
            (T::size() + entries.len() * E::size()) as int,
        ),
    ensures
        subscription::structured_count(loan::structured(header, entries), T::size(), E::size())
            == Some(entries.len()),
        read_header == header,
        read_entries == entries,
{
    let data = loan::structured(header, entries);
    header.encode_size();
    pod::lemma_flat_len(entries);
    let n = (T::size() + entries.len() * E::size()) as int;
    assert(data.len() == n + 4);
    assert(data.subrange(0, T::size() as int) =~= header.encode());
    assert(data.subrange(T::size() as int, n) =~= pod::flat(entries));
    let count = entries.len() as u32;
    assert(data[n + 0] == memory::le32(count)[0]);
    assert(data[n + 1] == memory::le32(count)[1]);
    assert(data[n + 2] == memory::le32(count)[2]);
    assert(data[n + 3] == memory::le32(count)[3]);
    memory::lemma_u32_of(data, n, count);
    T::encode_injective(read_header, header);
    pod::lemma_flat_injective(read_entries, entries);
}

} // verus!
