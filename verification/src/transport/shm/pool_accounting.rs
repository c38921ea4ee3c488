//! Where the blocks of a segment of pooled samples are: every block is free, or
//! lent to a publisher, or referred to as often as its reference count says.

use crate::memory;
use crate::protocol::laws as segment_laws;
use crate::protocol::pool::{self, NO_BLOCK};
use crate::transport::shm::cells;
use crate::transport::shm::pool_pubsub::{self, PoolPubSubConfig};
use crate::transport::shm::pool_pubsub_laws;
use crate::transport::shm::rings::{self, RE_BLOCK_IDX, RING_ENTRY_SIZE};
use vstd::multiset::Multiset;
use vstd::prelude::*;

verus! {

broadcast use crate::memory::group_memory;

/// The blocks that the ring slots of all topics name.
pub open spec fn ring_blocks(c: PoolPubSubConfig, m: Seq<u8>) -> Seq<u32> {
    Seq::new(
        (c.max_topics * c.ring_depth) as nat,
        |k: int|
            memory::u32_at(
                m,
                pool_pubsub::ring_base(c) + k * RING_ENTRY_SIZE + RE_BLOCK_IDX,
            ),
    )
}

/// The block that the ring slot of a sequence number names.
pub open spec fn block_of(c: PoolPubSubConfig, m: Seq<u8>, topic: int, seq: u64) -> u32 {
    rings::entry_block(m, pool_pubsub::ring_off(c, topic, pool_pubsub::slot_of(c, seq)))
}

/// How many references to a block there are: those of ring slots, and those of
/// subscribers that hold a sample.
pub open spec fn references(c: PoolPubSubConfig, m: Seq<u8>, held: Multiset<u32>, block: u32) -> nat {
    ring_blocks(c, m).to_multiset().count(block) + held.count(block)
}

/// Every block is in exactly one place. It is on the free list; or it is lent to
/// a publisher; or it is a sample that ring slots and subscribers refer to, and
/// its reference count says how often.
pub open spec fn accounted(
    c: PoolPubSubConfig,
    m: Seq<u8>,
    free: Seq<u32>,
    lent: Set<u32>,
    held: Multiset<u32>,
) -> bool {
    &&& pool_pubsub_laws::fits(c, m)
    &&& pool_pubsub::pool_of(c).is_free_list(m, free)
    &&& forall|b: u32|
        b < c.block_count ==> #[trigger] placed(c, m, free, lent, held, b)
}

/// A block is in exactly one place.
pub open spec fn placed(
    c: PoolPubSubConfig,
    m: Seq<u8>,
    free: Seq<u32>,
    lent: Set<u32>,
    held: Multiset<u32>,
    block: u32,
) -> bool {
    let n = references(c, m, held, block);
    if free.contains(block) || lent.contains(block) {
        !(free.contains(block) && lent.contains(block)) && n == 0
    } else {
        n > 0 && pool_pubsub::refcount(c, m, block as int) == n
    }
}

/// The ring slots depend on the rings alone.
proof fn lemma_rings_kept(c: PoolPubSubConfig, m: Seq<u8>, n: Seq<u8>)
    requires
        pool_pubsub_laws::fits(c, m),
        m.len() == n.len(),
        forall|i: int|
            pool_pubsub::ring_base(c) <= i < pool_pubsub::pool_off(c) ==> #[trigger] n[i] == m[i],
    ensures
        ring_blocks(c, n) == ring_blocks(c, m),
{
    pool_pubsub::lemma_parts(c);
    pool_pubsub::lemma_pool(c, m.len());
    let a = ring_blocks(c, m);
    let b = ring_blocks(c, n);
    assert forall|k: int| 0 <= k < a.len() implies #[trigger] b[k] == a[k] by {
        let o = pool_pubsub::ring_base(c) + k * RING_ENTRY_SIZE + RE_BLOCK_IDX;
        assert(o + 4 <= pool_pubsub::pool_off(c));
        assert(n[o] == m[o] && n[o + 1] == m[o + 1] && n[o + 2] == m[o + 2] && n[o + 3] == m[o + 3]);
    }
    assert(b =~= a);
}

/// Another list head changes neither ring slots nor reference counts.
proof fn lemma_head_kept(c: PoolPubSubConfig, m: Seq<u8>, b: Seq<u8>)
    requires
        pool_pubsub_laws::fits(c, m),
        b.len() == 8,
    ensures
        ({
            let n = memory::put(m, pool_pubsub::pool_of(c).head as int, b);
            &&& pool_pubsub_laws::fits(c, n)
            &&& ring_blocks(c, n) == ring_blocks(c, m)
            &&& forall|k: int|
                0 <= k < c.block_count ==> #[trigger] pool_pubsub::refcount(c, n, k)
                    == pool_pubsub::refcount(c, m, k)
        }),
{
    pool_pubsub::lemma_parts(c);
    pool_pubsub::lemma_pool(c, m.len());
    let n = memory::put(m, pool_pubsub::pool_of(c).head as int, b);
    lemma_rings_kept(c, m, n);
    assert forall|k: int| 0 <= k < c.block_count implies #[trigger] pool_pubsub::refcount(c, n, k)
        == pool_pubsub::refcount(c, m, k) by {
        pool_pubsub::lemma_block(c, k);
    }
}

/// A write into a block changes no ring slot, and of the reference counts at
/// most that of the block.
proof fn lemma_block_kept(c: PoolPubSubConfig, m: Seq<u8>, block: int, off: int, b: Seq<u8>)
    requires
        pool_pubsub_laws::fits(c, m),
        0 <= block < c.block_count,
        pool_pubsub::pool_of(c).block(block) <= off,
        off + b.len() <= pool_pubsub::pool_of(c).block(block) + c.block_size,
    ensures
        ({
            let n = memory::put(m, off, b);
            &&& pool_pubsub_laws::fits(c, n)
            &&& ring_blocks(c, n) == ring_blocks(c, m)
            &&& forall|k: int|
                0 <= k < c.block_count && k != block ==> #[trigger] pool_pubsub::refcount(c, n, k)
                    == pool_pubsub::refcount(c, m, k)
            &&& off + b.len() <= pool_pubsub::refcount_off(c, block) || pool_pubsub::refcount_off(c, block)
                + 4 <= off ==> pool_pubsub::refcount(c, n, block) == pool_pubsub::refcount(c, m, block)
        }),
{
    pool_pubsub::lemma_parts(c);
    pool_pubsub::lemma_pool(c, m.len());
    pool_pubsub::lemma_block(c, block);
    let n = memory::put(m, off, b);
    lemma_rings_kept(c, m, n);
    assert forall|k: int| 0 <= k < c.block_count && k != block implies #[trigger] pool_pubsub::refcount(
        c,
        n,
        k,
    ) == pool_pubsub::refcount(c, m, k) by {
        pool_pubsub::lemma_block(c, k);
        if k < block {
            pool::lemma_blocks_apart(pool_pubsub::pool_of(c), k, block);
        } else {
            pool::lemma_blocks_apart(pool_pubsub::pool_of(c), block, k);
        }
    }
}

/// A new segment has every block on its free list.
pub proof fn law_created_is_accounted(c: PoolPubSubConfig, m: Seq<u8>, pid: u32, now: u64)
    requires
        pool_pubsub::config_fault(c) is None,
        pool_pubsub::region_size(c) <= m.len() <= usize::MAX,
    ensures
        accounted(
            c,
            pool_pubsub::created(c, m, pid, now),
            pool_pubsub::pool_of(c).full_list(),
            Set::empty(),
            Multiset::empty(),
        ),
{
    broadcast use vstd::seq_lib::group_to_multiset_ensures;

    let n = pool_pubsub::created(c, m, pid, now);
    let free = pool_pubsub::pool_of(c).full_list();
    pool_pubsub_laws::law_created_blocks_are_free(c, m, pid, now);
    pool_pubsub_laws::lemma_created_rings_are_empty(c, m, pid, now);
    let r = ring_blocks(c, n);
    assert forall|k: int| 0 <= k < r.len() implies #[trigger] r[k] == NO_BLOCK by {
        let e = pool_pubsub::ring_base(c) + k * RING_ENTRY_SIZE;
        assert(rings::entry_block(n, e) == NO_BLOCK);
    }
    assert forall|b: u32| b < c.block_count implies #[trigger] placed(
        c,
        n,
        free,
        Set::<u32>::empty(),
        Multiset::empty(),
        b,
    ) by {
        assert(free[b as int] == b);
        assert(!r.contains(b));
    }
}

/// Taking a block from the pool moves it from the free list to the publisher.
/// Nobody refers to a block that is taken.
proof fn lemma_alloc_keeps_the_account(
    c: PoolPubSubConfig,
    m: Seq<u8>,
    free: Seq<u32>,
    lent: Set<u32>,
    held: Multiset<u32>,
)
    requires
        accounted(c, m, free, lent, held),
        free.len() > 0,
    ensures
        pool_pubsub::pool_of(c).alloc_choice(m) == Some(free[0]),
        references(c, m, held, free[0]) == 0,
        !lent.contains(free[0]),
        accounted(
            c,
            pool_pubsub::pool_of(c).after_alloc(m),
            free.subrange(1, free.len() as int),
            lent.insert(free[0]),
            held,
        ),
{
    let p = pool_pubsub::pool_of(c);
    let first = free[0];
    let rest = free.subrange(1, free.len() as int);
    pool_pubsub::lemma_parts(c);
    pool_pubsub::lemma_pool(c, m.len());
    pool::law_alloc_takes_the_head(p, m, free);
    let n = p.after_alloc(m);
    let word = pool::packed(
        memory::wrapping_sum_u32(p.generation(m), 1),
        p.next(m, first as int),
    );
    assert(free.contains(first));
    assert(placed(c, m, free, lent, held, first));
    lemma_head_kept(c, m, memory::le64(word));
    assert forall|b: u32| b < c.block_count implies #[trigger] placed(
        c,
        n,
        rest,
        lent.insert(first),
        held,
        b,
    ) by {
        assert(placed(c, m, free, lent, held, b));
        pool::lemma_in_rest(free, b);
    }
}

/// Giving back a block that a publisher has to itself moves it to the free list.
pub proof fn law_free_keeps_the_account(
    c: PoolPubSubConfig,
    m: Seq<u8>,
    free: Seq<u32>,
    lent: Set<u32>,
    held: Multiset<u32>,
    block: u32,
)
    requires
        accounted(c, m, free, lent, held),
        block < c.block_count,
        lent.contains(block),
    ensures
        accounted(
            c,
            pool_pubsub::pool_of(c).after_free(m, block),
            seq![block] + free,
            lent.remove(block),
            held,
        ),
{
    assert(placed(c, m, free, lent, held, block));
    let after = pool_pubsub::pool_of(c).after_free(m, block);
    lemma_freed(c, m, free, block);
    assert forall|b: u32| b < c.block_count implies #[trigger] placed(
        c,
        after,
        seq![block] + free,
        lent.remove(block),
        held,
        b,
    ) by {
        assert(placed(c, m, free, lent, held, b));
        pool::lemma_in_front(block, free, b);
    }
}

/// Giving back a block changes the free list, and neither ring slots nor
/// reference counts.
proof fn lemma_freed(c: PoolPubSubConfig, m: Seq<u8>, free: Seq<u32>, block: u32)
    requires
        pool_pubsub_laws::fits(c, m),
        pool_pubsub::pool_of(c).is_free_list(m, free),
        block < c.block_count,
        !free.contains(block),
    ensures
        ({
            let n = pool_pubsub::pool_of(c).after_free(m, block);
            &&& pool_pubsub_laws::fits(c, n)
            &&& pool_pubsub::pool_of(c).is_free_list(n, seq![block] + free)
            &&& ring_blocks(c, n) == ring_blocks(c, m)
            &&& forall|k: int|
                0 <= k < c.block_count ==> #[trigger] pool_pubsub::refcount(c, n, k)
                    == pool_pubsub::refcount(c, m, k)
        }),
{
    let p = pool_pubsub::pool_of(c);
    pool_pubsub::lemma_parts(c);
    pool_pubsub::lemma_pool(c, m.len());
    pool_pubsub::lemma_block(c, block as int);
    pool::law_free_pushes_the_head(p, m, free, block);
    let link = memory::le32(p.first(m));
    let m1 = memory::put(m, p.block(block as int), link);
    lemma_block_kept(c, m, block as int, p.block(block as int), link);
    let word = pool::packed(memory::wrapping_sum_u32(p.generation(m1), 1), block);
    lemma_head_kept(c, m1, memory::le64(word));
    let n = p.after_free(m, block);
    assert forall|k: int| 0 <= k < c.block_count implies #[trigger] pool_pubsub::refcount(c, n, k)
        == pool_pubsub::refcount(c, m, k) by {
        assert(pool_pubsub::refcount(c, n, k) == pool_pubsub::refcount(c, m1, k));
    }
}

/// Writing data into a block moves no block.
pub proof fn law_write_keeps_the_account(
    c: PoolPubSubConfig,
    m: Seq<u8>,
    free: Seq<u32>,
    lent: Set<u32>,
    held: Multiset<u32>,
    block: u32,
    off: int,
    data: Seq<u8>,
)
    requires
        accounted(c, m, free, lent, held),
        block < c.block_count,
        0 <= off,
        off + data.len() <= pool_pubsub::capacity_of(c),
    ensures
        accounted(
            c,
            memory::put(m, pool_pubsub::data_off(c, block as int) + off, data),
            free,
            lent,
            held,
        ),
{
    let p = pool_pubsub::pool_of(c);
    let o = pool_pubsub::data_off(c, block as int) + off;
    let n = memory::put(m, o, data);
    pool_pubsub::lemma_parts(c);
    pool_pubsub::lemma_pool(c, m.len());
    pool_pubsub::lemma_block(c, block as int);
    pool::law_block_writes_keep_free_list(p, m, free, block, o, data);
    lemma_block_kept(c, m, block as int, o, data);
    assert forall|b: u32| b < c.block_count implies #[trigger] placed(
        c,
        n,
        free,
        lent,
        held,
        b,
    ) by {
        assert(placed(c, m, free, lent, held, b));
        assert(pool_pubsub::refcount(c, n, b as int) == pool_pubsub::refcount(c, m, b as int));
    }
}

/// Accesses that touch neither the list head nor rings nor blocks move no block:
/// registering a topic, telling of a sample, waiting, a heartbeat.
pub proof fn law_stores_elsewhere_keep_the_account(
    c: PoolPubSubConfig,
    m: Seq<u8>,
    n: Seq<u8>,
    free: Seq<u32>,
    lent: Set<u32>,
    held: Multiset<u32>,
)
    requires
        accounted(c, m, free, lent, held),
        m.len() == n.len(),
        forall|i: int|
            pool_pubsub::pool_of(c).head <= i < pool_pubsub::pool_of(c).head + 8 ==> #[trigger] n[i] == m[i],
        forall|i: int| pool_pubsub::ring_base(c) <= i < m.len() ==> #[trigger] n[i] == m[i],
    ensures
        accounted(c, n, free, lent, held),
{
    pool_pubsub::lemma_parts(c);
    pool_pubsub::lemma_pool(c, m.len());
    lemma_rings_kept(c, m, n);
    segment_laws::lemma_free_list_kept(pool_pubsub::pool_of(c), m, n, free);
    assert forall|b: u32| b < c.block_count implies #[trigger] placed(
        c,
        n,
        free,
        lent,
        held,
        b,
    ) by {
        assert(placed(c, m, free, lent, held, b));
        pool_pubsub::lemma_block(c, b as int);
    }
}

/// Setting a reference count moves no block and changes no other count.
proof fn lemma_counted(c: PoolPubSubConfig, m: Seq<u8>, free: Seq<u32>, block: u32, count: u32)
    requires
        pool_pubsub_laws::fits(c, m),
        pool_pubsub::pool_of(c).is_free_list(m, free),
        block < c.block_count,
    ensures
        ({
            let n = memory::put32(m, pool_pubsub::refcount_off(c, block as int), count);
            &&& pool_pubsub_laws::fits(c, n)
            &&& pool_pubsub::pool_of(c).is_free_list(n, free)
            &&& ring_blocks(c, n) == ring_blocks(c, m)
            &&& pool_pubsub::refcount(c, n, block as int) == count
            &&& forall|k: int|
                0 <= k < c.block_count && k != block ==> #[trigger] pool_pubsub::refcount(c, n, k)
                    == pool_pubsub::refcount(c, m, k)
        }),
{
    let p = pool_pubsub::pool_of(c);
    let o = pool_pubsub::refcount_off(c, block as int);
    pool_pubsub::lemma_parts(c);
    pool_pubsub::lemma_pool(c, m.len());
    pool_pubsub::lemma_block(c, block as int);
    pool::law_block_writes_keep_free_list(p, m, free, block, o, memory::le32(count));
    lemma_block_kept(c, m, block as int, o, memory::le32(count));
}

/// Receiving a sample gives the subscriber a reference to its block.
pub proof fn law_acquire_keeps_the_account(
    c: PoolPubSubConfig,
    m: Seq<u8>,
    free: Seq<u32>,
    lent: Set<u32>,
    held: Multiset<u32>,
    block: u32,
)
    requires
        accounted(c, m, free, lent, held),
        block < c.block_count,
        references(c, m, held, block) > 0,
        pool_pubsub::refcount(c, m, block as int) < u32::MAX,
    ensures
        accounted(c, pool_pubsub::with_reference(c, m, block), free, lent, held.insert(block)),
{
    let n = pool_pubsub::with_reference(c, m, block);
    let count = (pool_pubsub::refcount(c, m, block as int) + 1) as u32;
    lemma_counted(c, m, free, block, count);
    assert forall|b: u32| b < c.block_count implies #[trigger] placed(
        c,
        n,
        free,
        lent,
        held.insert(block),
        b,
    ) by {
        assert(placed(c, m, free, lent, held, b));
        if b != block {
            assert(pool_pubsub::refcount(c, n, b as int) == pool_pubsub::refcount(c, m, b as int));
        }
    }
}

/// A sample that can be received is referred to: its ring slot names its block.
pub proof fn law_readable_is_referenced(
    c: PoolPubSubConfig,
    m: Seq<u8>,
    held: Multiset<u32>,
    topic: int,
    seq: u64,
)
    requires
        pool_pubsub_laws::fits(c, m),
        0 <= topic < c.max_topics,
        pool_pubsub::readable(c, m, topic, seq),
    ensures
        references(c, m, held, block_of(c, m, topic, seq)) > 0,
{
    broadcast use vstd::seq_lib::group_to_multiset_ensures;

    let slot = pool_pubsub::slot_of(c, seq);
    pool_pubsub::lemma_parts(c);
    pool_pubsub::lemma_pool(c, m.len());
    cells::lemma_cell(
        c.max_topics as int,
        c.ring_depth as int,
        RING_ENTRY_SIZE as int,
        topic,
        slot,
    );
    let r = ring_blocks(c, m);
    let b = block_of(c, m, topic, seq);
    assert(r[topic * c.ring_depth + slot] == b);
    assert(r.contains(b));
}

/// Releasing a sample takes the reference back. The last one moves the block to
/// the free list.
pub proof fn law_release_keeps_the_account(
    c: PoolPubSubConfig,
    m: Seq<u8>,
    free: Seq<u32>,
    lent: Set<u32>,
    held: Multiset<u32>,
    block: u32,
)
    requires
        accounted(c, m, free, lent, held),
        block < c.block_count,
        held.contains(block),
    ensures
        accounted(
            c,
            pool_pubsub::after_release(c, m, block),
            if references(c, m, held, block) == 1 {
                seq![block] + free
            } else {
                free
            },
            lent,
            held.remove(block),
        ),
{
    let count = pool_pubsub::refcount(c, m, block as int);
    let left = memory::wrapping_difference_u32(count, 1);
    let m1 = memory::put32(m, pool_pubsub::refcount_off(c, block as int), left);
    assert(placed(c, m, free, lent, held, block));
    lemma_counted(c, m, free, block, left);
    let n = pool_pubsub::after_release(c, m, block);
    if count == 1 {
        lemma_freed(c, m1, free, block);
    }
    let list = if references(c, m, held, block) == 1 {
        seq![block] + free
    } else {
        free
    };
    assert forall|b: u32| b < c.block_count implies #[trigger] placed(
        c,
        n,
        list,
        lent,
        held.remove(block),
        b,
    ) by {
        assert(placed(c, m, free, lent, held, b));
        pool::lemma_in_front(block, free, b);
        assert(pool_pubsub::refcount(c, n, b as int) == pool_pubsub::refcount(c, m1, b as int));
        if b != block {
            assert(pool_pubsub::refcount(c, m1, b as int) == pool_pubsub::refcount(c, m, b as int));
        }
    }
}

/// Lending a block moves it from the free list to the publisher. Nobody refers to
/// it.
pub proof fn law_loan_keeps_the_account(
    c: PoolPubSubConfig,
    m: Seq<u8>,
    free: Seq<u32>,
    lent: Set<u32>,
    held: Multiset<u32>,
)
    requires
        accounted(c, m, free, lent, held),
        free.len() > 0,
    ensures
        pool_pubsub::pool_of(c).alloc_choice(m) == Some(free[0]),
        references(c, m, held, free[0]) == 0,
        accounted(
            c,
            pool_pubsub::after_loan(c, m),
            free.subrange(1, free.len() as int),
            lent.insert(free[0]),
            held,
        ),
{
    let first = free[0];
    let rest = free.subrange(1, free.len() as int);
    lemma_alloc_keeps_the_account(c, m, free, lent, held);
    let a = pool_pubsub::pool_of(c).after_alloc(m);
    let n = pool_pubsub::after_loan(c, m);
    lemma_counted(c, a, rest, first, 0);
    assert forall|b: u32| b < c.block_count implies #[trigger] placed(
        c,
        n,
        rest,
        lent.insert(first),
        held,
        b,
    ) by {
        assert(placed(c, a, rest, lent.insert(first), held, b));
        if b != first {
            assert(pool_pubsub::refcount(c, n, b as int) == pool_pubsub::refcount(c, a, b as int));
        }
    }
}

/// A sample in its ring slot: the slot names the block, and the others what they
/// named.
proof fn lemma_slot_filled(
    c: PoolPubSubConfig,
    m: Seq<u8>,
    topic: int,
    block: u32,
    len: u32,
    seq: u64,
)
    requires
        pool_pubsub_laws::fits(c, m),
        0 <= topic < c.max_topics,
        block < c.block_count,
    ensures
        ({
            let n = pool_pubsub::with_sample(c, m, topic, block, len, seq);
            let slot = pool_pubsub::slot_of(c, seq);
            let k = topic * c.ring_depth + slot;
            &&& pool_pubsub_laws::fits(c, n)
            &&& 0 <= k < c.max_topics * c.ring_depth
            &&& ring_blocks(c, m)[k] == block_of(c, m, topic, seq)
            &&& ring_blocks(c, n) == ring_blocks(c, m).update(k, block)
            &&& pool_pubsub::refcount(c, n, block as int) == 1
            &&& forall|b: int|
                0 <= b < c.block_count && b != block ==> #[trigger] pool_pubsub::refcount(c, n, b)
                    == pool_pubsub::refcount(c, m, b)
        }),
{
    let slot = pool_pubsub::slot_of(c, seq);
    let k = topic * c.ring_depth + slot;
    let e = pool_pubsub::ring_off(c, topic, slot);
    pool_pubsub::lemma_parts(c);
    pool_pubsub::lemma_pool(c, m.len());
    pool_pubsub::lemma_topic(c, topic);
    pool_pubsub::lemma_ring(c, topic, slot);
    cells::lemma_cell(
        c.max_topics as int,
        c.ring_depth as int,
        RING_ENTRY_SIZE as int,
        topic,
        slot,
    );
    pool_pubsub::lemma_block(c, block as int);
    let n = pool_pubsub::with_sample(c, m, topic, block, len, seq);
    let a = ring_blocks(c, m);
    let b = ring_blocks(c, n);
    assert forall|j: int| 0 <= j < a.len() implies #[trigger] b[j] == a.update(k, block)[j] by {
        let o = pool_pubsub::ring_base(c) + j * RING_ENTRY_SIZE + RE_BLOCK_IDX;
        assert(o + 4 <= pool_pubsub::pool_off(c));
        if j < k {
            assert(o + 8 <= e);
        } else if j > k {
            assert(e + RING_ENTRY_SIZE <= o);
        }
    }
    assert(b =~= a.update(k, block));
    assert forall|x: int| 0 <= x < c.block_count && x != block implies #[trigger] pool_pubsub::refcount(
        c,
        n,
        x,
    ) == pool_pubsub::refcount(c, m, x) by {
        pool_pubsub::lemma_block(c, x);
        if x < block {
            pool::lemma_blocks_apart(pool_pubsub::pool_of(c), x, block as int);
        } else {
            pool::lemma_blocks_apart(pool_pubsub::pool_of(c), block as int, x);
        }
    }
}

/// Filling a ring slot keeps the free list.
proof fn lemma_slot_keeps_free_list(
    c: PoolPubSubConfig,
    m: Seq<u8>,
    free: Seq<u32>,
    topic: int,
    block: u32,
    len: u32,
    seq: u64,
)
    requires
        pool_pubsub_laws::fits(c, m),
        pool_pubsub::pool_of(c).is_free_list(m, free),
        0 <= topic < c.max_topics,
        block < c.block_count,
    ensures
        pool_pubsub::pool_of(c).is_free_list(
            pool_pubsub::with_sample(c, m, topic, block, len, seq),
            free,
        ),
{
    let slot = pool_pubsub::slot_of(c, seq);
    pool_pubsub::lemma_parts(c);
    pool_pubsub::lemma_pool(c, m.len());
    pool_pubsub::lemma_topic(c, topic);
    pool_pubsub::lemma_ring(c, topic, slot);
    pool_pubsub::lemma_block(c, block as int);
    let m1 = memory::put32(m, pool_pubsub::refcount_off(c, block as int), 1);
    lemma_counted(c, m, free, block, 1);
    segment_laws::lemma_free_list_kept(
        pool_pubsub::pool_of(c),
        m1,
        pool_pubsub::with_sample(c, m, topic, block, len, seq),
        free,
    );
}

/// The free list after a publication.
pub open spec fn free_after_publish(
    c: PoolPubSubConfig,
    m: Seq<u8>,
    free: Seq<u32>,
    held: Multiset<u32>,
    topic: int,
    seq: u64,
) -> Seq<u32> {
    let old = block_of(c, m, topic, seq);
    if old < c.block_count && references(c, m, held, old) == 1 {
        seq![old] + free
    } else {
        free
    }
}

/// The reference count of a block after a publication.
spec fn count_after(c: PoolPubSubConfig, m: Seq<u8>, old: u32, block: u32, b: int) -> u32 {
    if b == block {
        1
    } else if b == old {
        memory::wrapping_difference_u32(pool_pubsub::refcount(c, m, b), 1)
    } else {
        pool_pubsub::refcount(c, m, b)
    }
}

/// What a publication does to free list, ring slots and reference counts.
proof fn lemma_committed(
    c: PoolPubSubConfig,
    m: Seq<u8>,
    free: Seq<u32>,
    topic: int,
    block: u32,
    len: u32,
    seq: u64,
)
    requires
        pool_pubsub_laws::fits(c, m),
        pool_pubsub::pool_of(c).is_free_list(m, free),
        0 <= topic < c.max_topics,
        block < c.block_count,
        block_of(c, m, topic, seq) != block,
        block_of(c, m, topic, seq) < c.block_count ==> !free.contains(block_of(c, m, topic, seq)),
    ensures
        ({
            let old = block_of(c, m, topic, seq);
            let n = pool_pubsub::after_commit(c, m, topic, block, len, seq);
            let last = old < c.block_count && pool_pubsub::refcount(c, m, old as int) == 1;
            &&& pool_pubsub_laws::fits(c, n)
            &&& pool_pubsub::pool_of(c).is_free_list(
                n,
                if last {
                    seq![old] + free
                } else {
                    free
                },
            )
            &&& ring_blocks(c, n) == ring_blocks(
                c,
                pool_pubsub::with_sample(c, m, topic, block, len, seq),
            )
            &&& forall|b: int|
                0 <= b < c.block_count ==> #[trigger] pool_pubsub::refcount(c, n, b)
                    == count_after(c, m, old, block, b)
        }),
{
    let old = block_of(c, m, topic, seq);
    let e = pool_pubsub::with_sample(c, m, topic, block, len, seq);
    let n = pool_pubsub::after_commit(c, m, topic, block, len, seq);
    lemma_slot_filled(c, m, topic, block, len, seq);
    lemma_slot_keeps_free_list(c, m, free, topic, block, len, seq);
    if old < c.block_count {
        let left = memory::wrapping_difference_u32(pool_pubsub::refcount(c, e, old as int), 1);
        let r = memory::put32(e, pool_pubsub::refcount_off(c, old as int), left);
        lemma_counted(c, e, free, old, left);
        if pool_pubsub::refcount(c, e, old as int) == 1 {
            lemma_freed(c, r, free, old);
        }
        assert forall|b: int| 0 <= b < c.block_count implies #[trigger] pool_pubsub::refcount(
            c,
            n,
            b,
        ) == count_after(c, m, old, block, b) by {
            assert(pool_pubsub::refcount(c, n, b) == pool_pubsub::refcount(c, r, b));
            if b != old {
                assert(pool_pubsub::refcount(c, r, b) == pool_pubsub::refcount(c, e, b));
            }
            if b != block {
                assert(pool_pubsub::refcount(c, e, b) == pool_pubsub::refcount(c, m, b));
            }
        }
    }
}

/// Publishing moves a block from the publisher to the ring. The sample that it
/// replaces loses the reference of the ring; if that was the last one, its block
/// goes to the free list.
pub proof fn law_publish_keeps_the_account(
    c: PoolPubSubConfig,
    m: Seq<u8>,
    free: Seq<u32>,
    lent: Set<u32>,
    held: Multiset<u32>,
    topic: int,
    block: u32,
    len: u32,
    seq: u64,
)
    requires
        accounted(c, m, free, lent, held),
        0 <= topic < c.max_topics,
        block < c.block_count,
        lent.contains(block),
    ensures
        accounted(
            c,
            pool_pubsub::after_commit(c, m, topic, block, len, seq),
            free_after_publish(c, m, free, held, topic, seq),
            lent.remove(block),
            held,
        ),
{
    let slot = pool_pubsub::slot_of(c, seq);
    let k = topic * c.ring_depth + slot;
    let old = block_of(c, m, topic, seq);
    let n = pool_pubsub::after_commit(c, m, topic, block, len, seq);
    let list = free_after_publish(c, m, free, held, topic, seq);
    assert(placed(c, m, free, lent, held, block));
    lemma_slot_filled(c, m, topic, block, len, seq);
    pool::lemma_renamed(ring_blocks(c, m), k, block, old);
    if old < c.block_count {
        assert(placed(c, m, free, lent, held, old));
    }
    lemma_committed(c, m, free, topic, block, len, seq);
    assert forall|b: u32| b < c.block_count implies #[trigger] placed(
        c,
        n,
        list,
        lent.remove(block),
        held,
        b,
    ) by {
        assert(placed(c, m, free, lent, held, b));
        pool::lemma_renamed(ring_blocks(c, m), k, block, b);
        pool::lemma_in_front(old, free, b);
        assert(pool_pubsub::refcount(c, n, b as int) == count_after(c, m, old, block, b as int));
    }
}

} // verus!
