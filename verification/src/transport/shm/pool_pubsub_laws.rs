//! What holds of topics whose samples are blocks of a pool.

use crate::memory;
use crate::protocol::layout;
use crate::protocol::pool;
use crate::transport::shm::cells;
use crate::transport::shm::pool_pubsub::{
    self, PoolPubSubConfig, GH_HEARTBEAT, GH_POOL_HEAD, HEADER_SIZE, TE_URI_HASH, TOPIC_ENTRY_SIZE,
};
use crate::transport::shm::pubsub_laws;
use crate::transport::shm::rings::{self, RING_ENTRY_SIZE};
use vstd::prelude::*;

verus! {

broadcast use crate::memory::group_memory;

/// A segment has room for its parts.
pub open spec fn fits(c: PoolPubSubConfig, m: Seq<u8>) -> bool {
    pool_pubsub::sound(c) && pool_pubsub::region_size(c) <= m.len() <= usize::MAX
}

/// Outside of the pool, two segments differ only in the head of the free list.
pub open spec fn same_but_pool(c: PoolPubSubConfig, a: Seq<u8>, b: Seq<u8>) -> bool {
    &&& a.len() == b.len()
    &&& forall|i: int|
        0 <= i < pool_pubsub::pool_off(c) && !(GH_POOL_HEAD <= i < GH_POOL_HEAD + 8)
            ==> #[trigger] a[i] == b[i]
}

/// Two segments hold the same in one block, its link aside.
pub open spec fn same_block(c: PoolPubSubConfig, a: Seq<u8>, b: Seq<u8>, block: int) -> bool {
    let o = pool_pubsub::pool_of(c).block(block);
    forall|i: int| o + 4 <= i < o + c.block_size ==> #[trigger] a[i] == b[i]
}

/// Letting go of a reference changes the pool only, and no block but that one.
proof fn lemma_release(c: PoolPubSubConfig, m: Seq<u8>, block: u32, other: int)
    requires
        fits(c, m),
        0 <= other < c.block_count,
    ensures
        same_but_pool(c, m, pool_pubsub::after_release(c, m, block)),
        other != block ==> same_block(
            c,
            m,
            pool_pubsub::after_release(c, m, block),
            other,
        ),
{
    pool_pubsub::lemma_parts(c);
    pool_pubsub::lemma_pool(c, m.len());
    if block < c.block_count {
        let p = pool_pubsub::pool_of(c);
        pool_pubsub::lemma_block(c, block as int);
        pool_pubsub::lemma_block(c, other);
        if other < block {
            pool::lemma_blocks_apart(p, other, block as int);
        } else if other > block {
            pool::lemma_blocks_apart(p, block as int, other);
        }
    }
}

/// Samples and sequence numbers are the same where rings and blocks are.
proof fn lemma_same_sample(
    c: PoolPubSubConfig,
    a: Seq<u8>,
    b: Seq<u8>,
    topic: int,
    seq: u64,
)
    requires
        fits(c, a),
        0 <= topic < c.max_topics,
        same_but_pool(c, a, b),
    ensures
        ({
            let e = pool_pubsub::ring_off(c, topic, pool_pubsub::slot_of(c, seq));
            &&& rings::entry_seq(a, e) == rings::entry_seq(b, e)
            &&& rings::entry_block(a, e) == rings::entry_block(b, e)
            &&& rings::entry_len(a, e) == rings::entry_len(b, e)
            &&& pool_pubsub::write_seq(a, topic) == pool_pubsub::write_seq(b, topic)
        }),
{
    pool_pubsub::lemma_topic(c, topic);
    pool_pubsub::lemma_ring(c, topic, pool_pubsub::slot_of(c, seq));
}

/// The data of a block is the same where the block is.
proof fn lemma_same_data(c: PoolPubSubConfig, a: Seq<u8>, b: Seq<u8>, block: int, len: int)
    requires
        fits(c, a),
        a.len() == b.len(),
        0 <= block < c.block_count,
        0 <= len <= pool_pubsub::capacity_of(c),
        same_block(c, a, b, block),
    ensures
        memory::bytes_at(a, pool_pubsub::data_off(c, block), len) == memory::bytes_at(
            b,
            pool_pubsub::data_off(c, block),
            len,
        ),
        pool_pubsub::refcount(c, a, block) == pool_pubsub::refcount(c, b, block),
{
    pool_pubsub::lemma_block(c, block);
    let o = pool_pubsub::data_off(c, block);
    assert(memory::bytes_at(a, o, len) =~= memory::bytes_at(b, o, len));
}

/// A sample that is published, in a block that the ring does not hold yet, can
/// be received, is the newest one of its topic, and has one reference.
pub proof fn law_publish_then_receive(
    c: PoolPubSubConfig,
    m: Seq<u8>,
    topic: int,
    block: u32,
    len: u32,
    seq: u64,
    last: u64,
)
    requires
        fits(c, m),
        0 <= topic < c.max_topics,
        block < c.block_count,
        len <= pool_pubsub::capacity_of(c),
        rings::entry_block(m, pool_pubsub::ring_off(c, topic, pool_pubsub::slot_of(c, seq)))
            != block,
        last + 1 == seq,
    ensures
        ({
            let n = pool_pubsub::after_commit(c, m, topic, block, len, seq);
            &&& pool_pubsub::write_seq(n, topic) == seq
            &&& pool_pubsub::received_seq(c, n, topic, last) == Some(seq)
            &&& pool_pubsub::sample_data(c, n, topic, seq) == memory::bytes_at(
                m,
                pool_pubsub::data_off(c, block as int),
                len as int,
            )
            &&& pool_pubsub::refcount(c, n, block as int) == 1
        }),
{
    let e = pool_pubsub::ring_off(c, topic, pool_pubsub::slot_of(c, seq));
    let replaced = rings::entry_block(m, e);
    pool_pubsub::lemma_topic(c, topic);
    pool_pubsub::lemma_ring(c, topic, pool_pubsub::slot_of(c, seq));
    pool_pubsub::lemma_block(c, block as int);
    let k = pool_pubsub::with_sample(c, m, topic, block, len, seq);
    let n = pool_pubsub::after_commit(c, m, topic, block, len, seq);
    let o = pool_pubsub::data_off(c, block as int);
    assert(memory::bytes_at(k, o, len as int) =~= memory::bytes_at(m, o, len as int));
    assert(pool_pubsub::refcount(c, k, block as int) == 1);
    assert(rings::entry_block(k, e) == block);
    assert(rings::entry_len(k, e) == len);
    assert(rings::entry_seq(k, e) == seq);
    lemma_release(c, k, replaced, block as int);
    lemma_same_sample(c, k, n, topic, seq);
    lemma_same_data(c, k, n, block as int, len as int);
}

/// A sample that a subscriber holds survives, whatever is published in other
/// blocks: its data stays as it is, and it keeps the reference of its holder.
pub proof fn law_held_sample_survives(
    c: PoolPubSubConfig,
    m: Seq<u8>,
    topic: int,
    block: u32,
    len: u32,
    seq: u64,
    held: u32,
    held_len: int,
)
    requires
        fits(c, m),
        0 <= topic < c.max_topics,
        block < c.block_count,
        held < c.block_count,
        held != block,
        0 <= held_len <= pool_pubsub::capacity_of(c),
        pool_pubsub::refcount(c, m, held as int) >= 2,
    ensures
        ({
            let n = pool_pubsub::after_commit(c, m, topic, block, len, seq);
            &&& pool_pubsub::refcount(c, n, held as int) >= 1
            &&& memory::bytes_at(n, pool_pubsub::data_off(c, held as int), held_len)
                == memory::bytes_at(m, pool_pubsub::data_off(c, held as int), held_len)
        }),
{
    let e = pool_pubsub::ring_off(c, topic, pool_pubsub::slot_of(c, seq));
    let replaced = rings::entry_block(m, e);
    let p = pool_pubsub::pool_of(c);
    pool_pubsub::lemma_parts(c);
    pool_pubsub::lemma_pool(c, m.len());
    pool_pubsub::lemma_topic(c, topic);
    pool_pubsub::lemma_ring(c, topic, pool_pubsub::slot_of(c, seq));
    pool_pubsub::lemma_block(c, block as int);
    pool_pubsub::lemma_block(c, held as int);
    if held < block {
        pool::lemma_blocks_apart(p, held as int, block as int);
    } else {
        pool::lemma_blocks_apart(p, block as int, held as int);
    }
    let k = pool_pubsub::with_sample(c, m, topic, block, len, seq);
    let n = pool_pubsub::after_commit(c, m, topic, block, len, seq);
    assert(same_block(c, m, k, held as int));
    lemma_same_data(c, m, k, held as int, held_len);
    if replaced == held {
        let o = pool_pubsub::data_off(c, held as int);
        assert(memory::bytes_at(n, o, held_len) =~= memory::bytes_at(k, o, held_len));
    } else {
        lemma_release(c, k, replaced, held as int);
        lemma_same_data(c, k, n, held as int, held_len);
    }
}

/// Receiving a sample and letting go of it leaves the segment as it was.
pub proof fn law_receive_then_release(c: PoolPubSubConfig, m: Seq<u8>, block: u32)
    requires
        fits(c, m),
        block < c.block_count,
        0 < pool_pubsub::refcount(c, m, block as int) < u32::MAX,
    ensures
        pool_pubsub::after_release(c, pool_pubsub::with_reference(c, m, block), block) == m,
{
    pool_pubsub::lemma_block(c, block as int);
    let k = pool_pubsub::with_reference(c, m, block);
    let r = pool_pubsub::refcount_off(c, block as int);
    let n = pool_pubsub::after_release(c, k, block);
    assert(n == memory::put32(k, r, pool_pubsub::refcount(c, m, block as int)));
    memory::lemma_le32_of_u32_at(m, r);
    assert forall|i: int| 0 <= i < m.len() implies n[i] == m[i] by {
        if r <= i < r + 4 {
            assert(memory::bytes_at(m, r, 4)[i - r] == m[i]);
        }
    }
    assert(n =~= m);
}

/// A sample that nobody holds goes back to the pool when the ring overwrites
/// it, and is the next block to be lent.
pub proof fn law_overwritten_sample_is_recycled(
    c: PoolPubSubConfig,
    m: Seq<u8>,
    topic: int,
    block: u32,
    len: u32,
    seq: u64,
)
    requires
        fits(c, m),
        0 <= topic < c.max_topics,
        block < c.block_count,
        ({
            let e = pool_pubsub::ring_off(c, topic, pool_pubsub::slot_of(c, seq));
            let replaced = rings::entry_block(m, e);
            &&& replaced < c.block_count
            &&& replaced != block
            &&& pool_pubsub::refcount(c, m, replaced as int) == 1
        }),
    ensures
        pool_pubsub::pool_of(c).first(
            pool_pubsub::after_commit(c, m, topic, block, len, seq),
        ) == rings::entry_block(
            m,
            pool_pubsub::ring_off(c, topic, pool_pubsub::slot_of(c, seq)),
        ),
{
    let e = pool_pubsub::ring_off(c, topic, pool_pubsub::slot_of(c, seq));
    let replaced = rings::entry_block(m, e);
    let p = pool_pubsub::pool_of(c);
    pool_pubsub::lemma_parts(c);
    pool_pubsub::lemma_pool(c, m.len());
    pool_pubsub::lemma_topic(c, topic);
    pool_pubsub::lemma_ring(c, topic, pool_pubsub::slot_of(c, seq));
    pool_pubsub::lemma_block(c, block as int);
    pool_pubsub::lemma_block(c, replaced as int);
    if replaced < block {
        pool::lemma_blocks_apart(p, replaced as int, block as int);
    } else {
        pool::lemma_blocks_apart(p, block as int, replaced as int);
    }
    let k = pool_pubsub::with_sample(c, m, topic, block, len, seq);
    assert(pool_pubsub::refcount(c, k, replaced as int) == 1);
    let r = memory::put32(k, pool_pubsub::refcount_off(c, replaced as int), 0);
    let l = memory::put32(r, p.block(replaced as int), p.first(r));
    pool::law_pack_unpack(memory::wrapping_sum_u32(p.generation(l), 1), replaced, 0);
}

/// A subscriber that has not fallen too far behind receives the samples in
/// order, without leaving one out; one that has skips to the newest one.
pub proof fn law_receive_in_order_or_newest(
    c: PoolPubSubConfig,
    m: Seq<u8>,
    topic: int,
    last: u64,
)
    requires
        last < pool_pubsub::write_seq(m, topic),
    ensures
        pool_pubsub::write_seq(m, topic) - last <= c.ring_depth && pool_pubsub::readable(
            c,
            m,
            topic,
            (last + 1) as u64,
        ) ==> pool_pubsub::received_seq(c, m, topic, last) == Some((last + 1) as u64),
        pool_pubsub::write_seq(m, topic) - last > c.ring_depth && pool_pubsub::readable(
            c,
            m,
            topic,
            pool_pubsub::write_seq(m, topic),
        ) ==> pool_pubsub::received_seq(c, m, topic, last) == Some(
            pool_pubsub::write_seq(m, topic),
        ),
{
}

/// What is received is newer than what was received before, and not newer than
/// the newest sample.
pub proof fn law_receive_moves_forward(c: PoolPubSubConfig, m: Seq<u8>, topic: int, last: u64)
    ensures
        pool_pubsub::received_seq(c, m, topic, last) matches Some(s) ==> last < s
            <= pool_pubsub::write_seq(m, topic),
{
}

/// A sample stays in the ring while fewer samples than the ring has slots are
/// published after it, and those of other topics stay in theirs.
pub proof fn law_publish_keeps_other_samples(
    c: PoolPubSubConfig,
    m: Seq<u8>,
    topic: int,
    block: u32,
    len: u32,
    seq: u64,
    other: int,
    other_seq: u64,
)
    requires
        fits(c, m),
        0 <= topic < c.max_topics,
        0 <= other < c.max_topics,
        block < c.block_count,
        other != topic || 0 < seq - other_seq < c.ring_depth,
    ensures
        ({
            let n = pool_pubsub::after_commit(c, m, topic, block, len, seq);
            let e = pool_pubsub::ring_off(c, other, pool_pubsub::slot_of(c, other_seq));
            &&& rings::entry_seq(n, e) == rings::entry_seq(m, e)
            &&& rings::entry_block(n, e) == rings::entry_block(m, e)
            &&& rings::entry_len(n, e) == rings::entry_len(m, e)
        }),
{
    let a = pool_pubsub::slot_of(c, seq);
    let b = pool_pubsub::slot_of(c, other_seq);
    if other == topic {
        pubsub_laws::lemma_slots_differ(other_seq as int, seq as int, c.ring_depth as int);
    }
    pool_pubsub::lemma_topic(c, topic);
    pool_pubsub::lemma_topic(c, other);
    pool_pubsub::lemma_ring(c, topic, a);
    pool_pubsub::lemma_ring(c, other, b);
    pool_pubsub::lemma_block(c, block as int);
    cells::lemma_cells_apart(
        c.ring_depth as int,
        RING_ENTRY_SIZE as int,
        topic,
        a,
        other,
        b,
    );
    let e = pool_pubsub::ring_off(c, topic, a);
    let o = pool_pubsub::ring_off(c, other, b);
    let k = pool_pubsub::with_sample(c, m, topic, block, len, seq);
    assert(rings::entry_seq(k, o) == rings::entry_seq(m, o));
    assert(rings::entry_block(k, o) == rings::entry_block(m, o));
    assert(rings::entry_len(k, o) == rings::entry_len(m, o));
    lemma_release(c, k, rings::entry_block(m, e), 0);
    lemma_same_sample(
        c,
        k,
        pool_pubsub::after_commit(c, m, topic, block, len, seq),
        other,
        other_seq,
    );
}

/// A segment that was created can be connected to while its heartbeat is
/// fresh, and has the parameters that it was created with.
pub proof fn law_create_then_connect(
    c: PoolPubSubConfig,
    m: Seq<u8>,
    pid: u32,
    beat: u64,
    now: u64,
)
    requires
        pool_pubsub::config_fault(c) is None,
        pool_pubsub::region_size(c) <= m.len() <= usize::MAX,
        now - beat <= c.stale_timeout_us,
    ensures
        ({
            let n = pool_pubsub::created(c, m, pid, beat);
            let h = pool_pubsub::header_config(n);
            &&& pool_pubsub::connect_fault(n, now) is None
            &&& h.max_topics == c.max_topics
            &&& h.block_count == c.block_count
            &&& h.block_size == c.block_size
            &&& h.ring_depth == c.ring_depth
            &&& h.stale_timeout_us == c.stale_timeout_us
        }),
{
    let w = pool_pubsub::with_header(c, m, pid);
    let p = pool_pubsub::pool_of(c).after_init(w);
    let b = memory::put64(p, GH_HEARTBEAT as int, beat);
    let n = pool_pubsub::created(c, m, pid, beat);
    let h = pool_pubsub::header_config(n);
    pool_pubsub::lemma_parts(c);
    lemma_init_keeps(c, w);
    lemma_rings_cleared(c, b);
    lemma_header(c, m, pid);
    assert forall|i: int| 0 <= i < HEADER_SIZE && i < GH_POOL_HEAD implies #[trigger] n[i]
        == w[i] by {
        assert(b[i] == p[i]);
    }
    assert forall|i: int| 0x38 <= i < 0x40 implies #[trigger] n[i] == w[i] by {
        assert(b[i] == p[i]);
    }
    assert(memory::bytes_at(n, 0, 8) =~= memory::bytes_at(w, 0, 8));
    assert forall|i: int| GH_HEARTBEAT <= i < GH_HEARTBEAT + 8 implies #[trigger] n[i] == b[i] by {}
    assert(memory::u64_at(b, GH_HEARTBEAT as int) == beat);
    assert(memory::u64_at(n, GH_HEARTBEAT as int) == beat);
    assert(pool_pubsub::region_size(h) == pool_pubsub::region_size(c));
}

proof fn lemma_header(c: PoolPubSubConfig, m: Seq<u8>, pid: u32)
    requires
        HEADER_SIZE <= m.len(),
    ensures
        ({
            let w = pool_pubsub::with_header(c, m, pid);
            &&& w.len() == m.len()
            &&& memory::bytes_at(w, 0, 8) == pool_pubsub::magic()
            &&& memory::u32_at(w, pool_pubsub::GH_VERSION as int) == pool_pubsub::VERSION
            &&& memory::u32_at(w, pool_pubsub::GH_MAX_TOPICS as int) == c.max_topics
            &&& memory::u32_at(w, pool_pubsub::GH_BLOCK_COUNT as int) == c.block_count
            &&& memory::u32_at(w, pool_pubsub::GH_BLOCK_SIZE as int) == c.block_size
            &&& memory::u32_at(w, pool_pubsub::GH_RING_DEPTH as int) == c.ring_depth
            &&& memory::u64_at(w, pool_pubsub::GH_STALE_TIMEOUT_US as int) == c.stale_timeout_us
        }),
{
    let w = pool_pubsub::with_header(c, m, pid);
    assert(memory::bytes_at(w, 0, 8) =~= pool_pubsub::magic());
}

/// Emptying the rings leaves all other bytes alone.
proof fn lemma_rings_cleared(c: PoolPubSubConfig, m: Seq<u8>)
    requires
        pool_pubsub::sound(c),
        pool_pubsub::region_size(c) <= m.len(),
    ensures
        ({
            let n = rings::with_empty_entries(
                m,
                pool_pubsub::ring_base(c),
                (c.max_topics * c.ring_depth) as nat,
            );
            &&& n.len() == m.len()
            &&& forall|i: int|
                0 <= i < m.len() && !(pool_pubsub::ring_base(c) <= i < pool_pubsub::pool_off(c))
                    ==> #[trigger] n[i] == m[i]
        }),
{
    pool_pubsub::lemma_parts(c);
    cells::lemma_table(c.max_topics as int, c.ring_depth as int, RING_ENTRY_SIZE as int);
    rings::lemma_empty_entries(
        m,
        pool_pubsub::ring_base(c),
        (c.max_topics * c.ring_depth) as nat,
    );
}

/// Putting the blocks on the free list changes the pool only.
proof fn lemma_init_keeps(c: PoolPubSubConfig, m: Seq<u8>)
    requires
        pool_pubsub::sound(c),
        pool_pubsub::region_size(c) <= m.len() <= usize::MAX,
    ensures
        same_but_pool(c, m, pool_pubsub::pool_of(c).after_init(m)),
{
    pool_pubsub::lemma_parts(c);
    lemma_linked_keeps(c, m, c.block_count as nat);
}

proof fn lemma_linked_keeps(c: PoolPubSubConfig, m: Seq<u8>, n: nat)
    requires
        pool_pubsub::sound(c),
        pool_pubsub::region_size(c) <= m.len() <= usize::MAX,
        n <= c.block_count,
    ensures
        pool_pubsub::pool_of(c).linked(m, n).len() == m.len(),
        forall|i: int|
            0 <= i < pool_pubsub::pool_off(c) ==> #[trigger] pool_pubsub::pool_of(c).linked(
                m,
                n,
            )[i] == m[i],
    decreases n,
{
    if n > 0 {
        let k = n - 1;
        lemma_linked_keeps(c, m, k as nat);
        pool_pubsub::lemma_block(c, k);
        let m0 = pool_pubsub::pool_of(c).linked(m, k as nat);
        let m1 = pool_pubsub::pool_of(c).linked(m, n);
        assert forall|i: int| 0 <= i < pool_pubsub::pool_off(c) implies #[trigger] m1[i]
            == m[i] by {
            assert(m0[i] == m[i]);
        }
    }
}

/// A new segment has every block in its pool.
pub proof fn law_created_blocks_are_free(c: PoolPubSubConfig, m: Seq<u8>, pid: u32, now: u64)
    requires
        pool_pubsub::config_fault(c) is None,
        pool_pubsub::region_size(c) <= m.len() <= usize::MAX,
    ensures
        pool_pubsub::pool_of(c).is_free_list(
            pool_pubsub::created(c, m, pid, now),
            pool_pubsub::pool_of(c).full_list(),
        ),
{
    let p = pool_pubsub::pool_of(c);
    let l = p.full_list();
    let a = p.after_init(pool_pubsub::with_header(c, m, pid));
    let b = memory::put64(a, GH_HEARTBEAT as int, now);
    let n = pool_pubsub::created(c, m, pid, now);
    pool_pubsub::lemma_parts(c);
    pool_pubsub::lemma_pool(c, m.len());
    pool::law_init_frees_every_block(p, pool_pubsub::with_header(c, m, pid));
    lemma_init_keeps(c, pool_pubsub::with_header(c, m, pid));
    lemma_rings_cleared(c, b);
    assert(p.first(n) == p.first(a)) by {
        assert forall|i: int| GH_POOL_HEAD <= i < GH_POOL_HEAD + 8 implies #[trigger] n[i]
            == a[i] by {
            assert(b[i] == a[i]);
        }
    }
    assert forall|i: int| 0 <= i < l.len() implies p.next(n, #[trigger] l[i] as int) == pool::link(
        l,
        i + 1,
    ) by {
        pool_pubsub::lemma_block(c, i);
        let o = p.block(i);
        assert(n[o] == b[o] && n[o + 1] == b[o + 1] && n[o + 2] == b[o + 2] && n[o + 3] == b[o
            + 3]);
        assert(p.next(a, l[i] as int) == pool::link(l, i + 1));
    }
}

/// The rings of a new segment name no block.
pub proof fn lemma_created_rings_are_empty(c: PoolPubSubConfig, m: Seq<u8>, pid: u32, now: u64)
    requires
        pool_pubsub::config_fault(c) is None,
        pool_pubsub::region_size(c) <= m.len() <= usize::MAX,
    ensures
        pool_pubsub::created(c, m, pid, now).len() == m.len(),
        forall|k: int|
            0 <= k < c.max_topics * c.ring_depth ==> #[trigger] rings::entry_block(
                pool_pubsub::created(c, m, pid, now),
                pool_pubsub::ring_base(c) + k * RING_ENTRY_SIZE,
            ) == pool::NO_BLOCK,
{
    let h = pool_pubsub::with_header(c, m, pid);
    let a = pool_pubsub::pool_of(c).after_init(h);
    pool_pubsub::lemma_parts(c);
    lemma_init_keeps(c, h);
    cells::lemma_table(c.max_topics as int, c.ring_depth as int, RING_ENTRY_SIZE as int);
    rings::lemma_empty_entries(
        memory::put64(a, GH_HEARTBEAT as int, now),
        pool_pubsub::ring_base(c),
        (c.max_topics * c.ring_depth) as nat,
    );
}

/// A topic that was registered is found by its URI, with no samples, where no
/// topic before it has the same hash.
pub proof fn law_register_then_subscribe(
    c: PoolPubSubConfig,
    m: Seq<u8>,
    topic: int,
    uri: Seq<u8>,
)
    requires
        fits(c, m),
        0 <= topic < c.max_topics,
        uri.len() <= pool_pubsub::TE_URI_MAX,
        forall|t: int|
            0 <= t < topic ==> memory::u64_at(
                m,
                #[trigger] pool_pubsub::topic_off(t) + TE_URI_HASH,
            ) != layout::fnv(uri),
    ensures
        ({
            let n = pool_pubsub::with_topic(m, topic, uri);
            &&& pool_pubsub::topic_named(c, n, uri, 0) == Some(topic as u32)
            &&& pool_pubsub::write_seq(n, topic) == 0
        }),
{
    let n = pool_pubsub::with_topic(m, topic, uri);
    let o = pool_pubsub::topic_off(topic);
    pool_pubsub::lemma_topic(c, topic);
    assert(memory::bytes_at(n, o + pool_pubsub::TE_URI, uri.len() as int) =~= uri);
    assert(pool_pubsub::holds_uri(n, topic, uri));
    assert(pool_pubsub::is_registered(n, topic));
    assert forall|t: int| 0 <= t < topic implies memory::u64_at(
        n,
        #[trigger] pool_pubsub::topic_off(t) + TE_URI_HASH,
    ) != layout::fnv(uri) by {
        pool_pubsub::lemma_topic(c, t);
        assert(pool_pubsub::topic_off(t) + TOPIC_ENTRY_SIZE <= o);
    }
    lemma_named(c, n, uri, topic, 0);
}

proof fn lemma_named(c: PoolPubSubConfig, n: Seq<u8>, uri: Seq<u8>, topic: int, from: int)
    requires
        0 <= from <= topic < c.max_topics,
        pool_pubsub::is_registered(n, topic),
        pool_pubsub::holds_uri(n, topic, uri),
        forall|t: int|
            0 <= t < topic ==> memory::u64_at(
                n,
                #[trigger] pool_pubsub::topic_off(t) + TE_URI_HASH,
            ) != layout::fnv(uri),
    ensures
        pool_pubsub::topic_named(c, n, uri, from) == Some(topic as u32),
    decreases topic - from,
{
    if from < topic {
        assert(memory::u64_at(n, pool_pubsub::topic_off(from) + TE_URI_HASH) != layout::fnv(uri));
        lemma_named(c, n, uri, topic, from + 1);
    }
}

} // verus!
