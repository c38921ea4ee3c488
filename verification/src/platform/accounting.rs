//! Where the blocks of a segment are: every block is free, or with a publisher,
//! or referred to as often as its reference count says.

use crate::memory;
use crate::platform::laws;
use crate::platform::subscription;
use crate::protocol::config::PubSubConfig;
use crate::protocol::header;
use crate::protocol::layout::{self, RE_BLOCK_IDX, RING_ENTRY_SIZE};
use crate::protocol::laws as segment_laws;
use crate::protocol::pool::{self, NO_BLOCK};
use crate::protocol::region;
use vstd::multiset::Multiset;
use vstd::prelude::*;

verus! {

broadcast use crate::memory::group_memory;

/// The blocks that the ring slots of all topics name.
pub open spec fn ring_blocks(c: PubSubConfig, m: Seq<u8>) -> Seq<u32> {
    Seq::new(
        (c.max_topics * c.ring_depth) as nat,
        |k: int|
            memory::u32_at(
                m,
                layout::ring_base_spec(c) + k * RING_ENTRY_SIZE + RE_BLOCK_IDX,
            ),
    )
}

/// How many references to a block there are: those of ring slots, and those of
/// subscribers that hold a sample.
pub open spec fn references(c: PubSubConfig, m: Seq<u8>, held: Multiset<u32>, block: u32) -> nat {
    ring_blocks(c, m).to_multiset().count(block) + held.count(block)
}

/// Every block is in exactly one place. It is on the free list; or a publisher
/// has it to itself, lent, cached, warm or pinned; or it is a sample that ring
/// slots and subscribers refer to, and its reference count says how often.
pub open spec fn accounted(
    c: PubSubConfig,
    m: Seq<u8>,
    free: Seq<u32>,
    own: Set<u32>,
    held: Multiset<u32>,
) -> bool {
    &&& laws::segment(c, m)
    &&& layout::pool_of(c).is_free_list(m, free)
    &&& forall|b: u32|
        b < c.block_count ==> #[trigger] placed(c, m, free, own, held, b)
}

/// A block is in exactly one place.
pub open spec fn placed(
    c: PubSubConfig,
    m: Seq<u8>,
    free: Seq<u32>,
    own: Set<u32>,
    held: Multiset<u32>,
    block: u32,
) -> bool {
    let n = references(c, m, held, block);
    if free.contains(block) || own.contains(block) {
        !(free.contains(block) && own.contains(block)) && n == 0
    } else {
        n > 0 && region::refcount(c, m, block as int) == n
    }
}

/// The ring slots depend on the rings alone.
proof fn lemma_rings_kept(c: PubSubConfig, m: Seq<u8>, n: Seq<u8>)
    requires
        layout::valid_config(c),
        layout::region_size(c) <= m.len(),
        m.len() == n.len(),
        forall|i: int|
            layout::ring_base_spec(c) <= i < layout::pool_off(c) ==> #[trigger] n[i] == m[i],
    ensures
        ring_blocks(c, n) == ring_blocks(c, m),
{
    layout::lemma_layout(c);
    let a = ring_blocks(c, m);
    let b = ring_blocks(c, n);
    assert forall|k: int| 0 <= k < a.len() implies #[trigger] b[k] == a[k] by {
        let o = layout::ring_base_spec(c) + k * RING_ENTRY_SIZE + RE_BLOCK_IDX;
        assert(o + 4 <= layout::pool_off(c));
        assert(n[o] == m[o] && n[o + 1] == m[o + 1] && n[o + 2] == m[o + 2] && n[o + 3] == m[o + 3]);
    }
    assert(b =~= a);
}

/// Another list head changes neither ring slots nor reference counts.
proof fn lemma_head_kept(c: PubSubConfig, m: Seq<u8>, b: Seq<u8>)
    requires
        laws::segment(c, m),
        b.len() == 8,
    ensures
        ({
            let n = memory::put(m, layout::pool_of(c).head as int, b);
            &&& laws::segment(c, n)
            &&& ring_blocks(c, n) == ring_blocks(c, m)
            &&& forall|k: int|
                0 <= k < c.block_count ==> #[trigger] region::refcount(c, n, k)
                    == region::refcount(c, m, k)
        }),
{
    layout::lemma_layout(c);
    let n = memory::put(m, layout::pool_of(c).head as int, b);
    lemma_rings_kept(c, m, n);
    assert forall|k: int| 0 <= k < c.block_count implies #[trigger] region::refcount(c, n, k)
        == region::refcount(c, m, k) by {
        region::lemma_block_parts(c, k);
    }
}

/// A write into a block changes no ring slot, and of the reference counts at
/// most that of the block.
proof fn lemma_block_kept(c: PubSubConfig, m: Seq<u8>, block: int, off: int, b: Seq<u8>)
    requires
        laws::segment(c, m),
        0 <= block < c.block_count,
        layout::pool_of(c).block(block) <= off,
        off + b.len() <= layout::pool_of(c).block(block) + c.block_size,
    ensures
        ({
            let n = memory::put(m, off, b);
            &&& laws::segment(c, n)
            &&& ring_blocks(c, n) == ring_blocks(c, m)
            &&& forall|k: int|
                0 <= k < c.block_count && k != block ==> #[trigger] region::refcount(c, n, k)
                    == region::refcount(c, m, k)
            &&& off + b.len() <= region::refcount_off(c, block) || region::refcount_off(c, block)
                + 4 <= off ==> region::refcount(c, n, block) == region::refcount(c, m, block)
        }),
{
    layout::lemma_layout(c);
    region::lemma_block_parts(c, block);
    let n = memory::put(m, off, b);
    lemma_rings_kept(c, m, n);
    assert forall|k: int| 0 <= k < c.block_count && k != block implies #[trigger] region::refcount(
        c,
        n,
        k,
    ) == region::refcount(c, m, k) by {
        region::lemma_block_parts(c, k);
        if k < block {
            pool::lemma_blocks_apart(layout::pool_of(c), k, block);
        } else {
            pool::lemma_blocks_apart(layout::pool_of(c), block, k);
        }
    }
}

/// A new segment has every block on its free list.
pub proof fn law_created_is_accounted(c: PubSubConfig, m: Seq<u8>, pid: u64, now: u64)
    requires
        laws::segment(c, m),
    ensures
        accounted(
            c,
            header::created(c, m, pid, now),
            layout::pool_of(c).full_list(),
            Set::empty(),
            Multiset::empty(),
        ),
{
    broadcast use vstd::seq_lib::group_to_multiset_ensures;

    let n = header::created(c, m, pid, now);
    let free = layout::pool_of(c).full_list();
    let d = c.ring_depth as int;
    layout::lemma_layout(c);
    segment_laws::law_created_is_empty(c, m, pid, now);
    let r = ring_blocks(c, n);
    assert forall|k: int| 0 <= k < r.len() implies #[trigger] r[k] == NO_BLOCK by {
        let t = k / d;
        let s = k % d;
        assert(0 <= t < c.max_topics && 0 <= s < d && t * d + s == k) by (nonlinear_arith)
            requires
                0 <= k < c.max_topics * d,
                0 < d,
                t == k / d,
                s == k % d,
        ;
        assert(region::ring_seq(c, n, t, s) == 0);
        assert(region::ring_block(c, n, t, s) == NO_BLOCK);
    }
    assert forall|b: u32| b < c.block_count implies #[trigger] placed(
        c,
        n,
        free,
        Set::<u32>::empty(),
        Multiset::empty(),
        b,
    ) by {
        assert(free[b as int] == b);
        assert(!r.contains(b));
    }
}

/// Taking a block from the pool moves it from the free list to the publisher.
/// Nobody refers to a block that is taken.
pub proof fn law_alloc_keeps_the_account(
    c: PubSubConfig,
    m: Seq<u8>,
    free: Seq<u32>,
    own: Set<u32>,
    held: Multiset<u32>,
)
    requires
        accounted(c, m, free, own, held),
        free.len() > 0,
    ensures
        layout::pool_of(c).alloc_choice(m) == Some(free[0]),
        references(c, m, held, free[0]) == 0,
        !own.contains(free[0]),
        accounted(
            c,
            layout::pool_of(c).after_alloc(m),
            free.subrange(1, free.len() as int),
            own.insert(free[0]),
            held,
        ),
{
    let p = layout::pool_of(c);
    let first = free[0];
    let rest = free.subrange(1, free.len() as int);
    layout::lemma_layout(c);
    pool::law_alloc_takes_the_head(p, m, free);
    let n = p.after_alloc(m);
    let word = pool::packed(
        memory::wrapping_sum_u32(p.generation(m), 1),
        p.next(m, first as int),
    );
    assert(free.contains(first));
    assert(placed(c, m, free, own, held, first));
    lemma_head_kept(c, m, memory::le64(word));
    assert forall|b: u32| b < c.block_count implies #[trigger] placed(
        c,
        n,
        rest,
        own.insert(first),
        held,
        b,
    ) by {
        assert(placed(c, m, free, own, held, b));
        pool::lemma_in_rest(free, b);
    }
}

/// Giving back a block that a publisher has to itself moves it to the free list.
pub proof fn law_free_keeps_the_account(
    c: PubSubConfig,
    m: Seq<u8>,
    free: Seq<u32>,
    own: Set<u32>,
    held: Multiset<u32>,
    block: u32,
)
    requires
        accounted(c, m, free, own, held),
        block < c.block_count,
        own.contains(block),
    ensures
        accounted(
            c,
            layout::pool_of(c).after_free(m, block),
            seq![block] + free,
            own.remove(block),
            held,
        ),
{
    assert(placed(c, m, free, own, held, block));
    let after = layout::pool_of(c).after_free(m, block);
    lemma_freed(c, m, free, block);
    assert forall|b: u32| b < c.block_count implies #[trigger] placed(
        c,
        after,
        seq![block] + free,
        own.remove(block),
        held,
        b,
    ) by {
        assert(placed(c, m, free, own, held, b));
        pool::lemma_in_front(block, free, b);
    }
}

/// Giving back a block changes the free list, and neither ring slots nor
/// reference counts.
proof fn lemma_freed(c: PubSubConfig, m: Seq<u8>, free: Seq<u32>, block: u32)
    requires
        laws::segment(c, m),
        layout::pool_of(c).is_free_list(m, free),
        block < c.block_count,
        !free.contains(block),
    ensures
        ({
            let n = layout::pool_of(c).after_free(m, block);
            &&& laws::segment(c, n)
            &&& layout::pool_of(c).is_free_list(n, seq![block] + free)
            &&& ring_blocks(c, n) == ring_blocks(c, m)
            &&& forall|k: int|
                0 <= k < c.block_count ==> #[trigger] region::refcount(c, n, k)
                    == region::refcount(c, m, k)
        }),
{
    let p = layout::pool_of(c);
    layout::lemma_layout(c);
    region::lemma_block_parts(c, block as int);
    pool::law_free_pushes_the_head(p, m, free, block);
    let link = memory::le32(p.first(m));
    let m1 = memory::put(m, p.block(block as int), link);
    lemma_block_kept(c, m, block as int, p.block(block as int), link);
    let word = pool::packed(memory::wrapping_sum_u32(p.generation(m1), 1), block);
    lemma_head_kept(c, m1, memory::le64(word));
    let n = p.after_free(m, block);
    assert forall|k: int| 0 <= k < c.block_count implies #[trigger] region::refcount(c, n, k)
        == region::refcount(c, m, k) by {
        assert(region::refcount(c, n, k) == region::refcount(c, m1, k));
    }
}

/// Writing data into a block moves no block.
pub proof fn law_write_keeps_the_account(
    c: PubSubConfig,
    m: Seq<u8>,
    free: Seq<u32>,
    own: Set<u32>,
    held: Multiset<u32>,
    block: u32,
    off: int,
    data: Seq<u8>,
)
    requires
        accounted(c, m, free, own, held),
        block < c.block_count,
        0 <= off,
        off + data.len() <= region::capacity_of(c),
    ensures
        accounted(
            c,
            memory::put(m, region::data_off(c, block as int) + off, data),
            free,
            own,
            held,
        ),
{
    let p = layout::pool_of(c);
    let o = region::data_off(c, block as int) + off;
    let n = memory::put(m, o, data);
    layout::lemma_layout(c);
    region::lemma_block_parts(c, block as int);
    pool::law_block_writes_keep_free_list(p, m, free, block, o, data);
    lemma_block_kept(c, m, block as int, o, data);
    assert forall|b: u32| b < c.block_count implies #[trigger] placed(
        c,
        n,
        free,
        own,
        held,
        b,
    ) by {
        assert(placed(c, m, free, own, held, b));
        assert(region::refcount(c, n, b as int) == region::refcount(c, m, b as int));
    }
}

/// Accesses that touch neither the list head nor rings nor blocks move no block:
/// registering a topic, telling of a sample, waiting, a heartbeat.
pub proof fn law_stores_elsewhere_keep_the_account(
    c: PubSubConfig,
    m: Seq<u8>,
    n: Seq<u8>,
    free: Seq<u32>,
    own: Set<u32>,
    held: Multiset<u32>,
)
    requires
        accounted(c, m, free, own, held),
        m.len() == n.len(),
        forall|i: int|
            layout::pool_of(c).head <= i < layout::pool_of(c).head + 8 ==> #[trigger] n[i] == m[i],
        forall|i: int| layout::ring_base_spec(c) <= i < m.len() ==> #[trigger] n[i] == m[i],
    ensures
        accounted(c, n, free, own, held),
{
    layout::lemma_layout(c);
    lemma_rings_kept(c, m, n);
    segment_laws::lemma_free_list_kept(layout::pool_of(c), m, n, free);
    assert forall|b: u32| b < c.block_count implies #[trigger] placed(
        c,
        n,
        free,
        own,
        held,
        b,
    ) by {
        assert(placed(c, m, free, own, held, b));
        region::lemma_block_parts(c, b as int);
    }
}

/// Setting a reference count moves no block and changes no other count.
proof fn lemma_counted(c: PubSubConfig, m: Seq<u8>, free: Seq<u32>, block: u32, count: u32)
    requires
        laws::segment(c, m),
        layout::pool_of(c).is_free_list(m, free),
        block < c.block_count,
    ensures
        ({
            let n = memory::put32(m, region::refcount_off(c, block as int), count);
            &&& laws::segment(c, n)
            &&& layout::pool_of(c).is_free_list(n, free)
            &&& ring_blocks(c, n) == ring_blocks(c, m)
            &&& region::refcount(c, n, block as int) == count
            &&& forall|k: int|
                0 <= k < c.block_count && k != block ==> #[trigger] region::refcount(c, n, k)
                    == region::refcount(c, m, k)
        }),
{
    let p = layout::pool_of(c);
    let o = region::refcount_off(c, block as int);
    layout::lemma_layout(c);
    region::lemma_block_parts(c, block as int);
    pool::law_block_writes_keep_free_list(p, m, free, block, o, memory::le32(count));
    lemma_block_kept(c, m, block as int, o, memory::le32(count));
}

/// Receiving a sample gives the subscriber a reference to its block.
pub proof fn law_acquire_keeps_the_account(
    c: PubSubConfig,
    m: Seq<u8>,
    free: Seq<u32>,
    own: Set<u32>,
    held: Multiset<u32>,
    block: u32,
)
    requires
        accounted(c, m, free, own, held),
        block < c.block_count,
        references(c, m, held, block) > 0,
        region::refcount(c, m, block as int) < u32::MAX,
    ensures
        accounted(c, subscription::after_acquire(c, m, block), free, own, held.insert(block)),
{
    let n = subscription::after_acquire(c, m, block);
    let count = (region::refcount(c, m, block as int) + 1) as u32;
    lemma_counted(c, m, free, block, count);
    assert forall|b: u32| b < c.block_count implies #[trigger] placed(
        c,
        n,
        free,
        own,
        held.insert(block),
        b,
    ) by {
        assert(placed(c, m, free, own, held, b));
        if b != block {
            assert(region::refcount(c, n, b as int) == region::refcount(c, m, b as int));
        }
    }
}

/// What a ring slot names is referred to.
pub proof fn lemma_named_is_referenced(
    c: PubSubConfig,
    m: Seq<u8>,
    held: Multiset<u32>,
    topic: int,
    slot: int,
)
    requires
        laws::segment(c, m),
        0 <= topic < c.max_topics,
        0 <= slot < c.ring_depth,
    ensures
        references(c, m, held, region::ring_block(c, m, topic, slot)) > 0,
{
    broadcast use vstd::seq_lib::group_to_multiset_ensures;

    layout::lemma_layout(c);
    layout::lemma_ring(c, topic, slot);
    let r = ring_blocks(c, m);
    let b = region::ring_block(c, m, topic, slot);
    assert(r[topic * c.ring_depth + slot] == b);
    assert(r.contains(b));
}

/// A sample that can be received is referred to: its ring slot names its block.
pub proof fn law_readable_is_referenced(
    c: PubSubConfig,
    m: Seq<u8>,
    held: Multiset<u32>,
    topic: int,
    seq: u64,
)
    requires
        laws::segment(c, m),
        0 <= topic < c.max_topics,
        subscription::readable(c, m, topic, seq),
    ensures
        references(
            c,
            m,
            held,
            region::ring_block(c, m, topic, layout::slot_of(c, seq)),
        ) > 0,
{
    layout::lemma_layout(c);
    lemma_named_is_referenced(c, m, held, topic, layout::slot_of(c, seq));
}

/// Releasing a sample takes the reference back. The last one moves the block to
/// the free list.
pub proof fn law_release_keeps_the_account(
    c: PubSubConfig,
    m: Seq<u8>,
    free: Seq<u32>,
    own: Set<u32>,
    held: Multiset<u32>,
    block: u32,
)
    requires
        accounted(c, m, free, own, held),
        block < c.block_count,
        held.contains(block),
    ensures
        accounted(
            c,
            region::after_release(c, m, block),
            if references(c, m, held, block) == 1 {
                seq![block] + free
            } else {
                free
            },
            own,
            held.remove(block),
        ),
{
    let count = region::refcount(c, m, block as int);
    let left = memory::wrapping_difference_u32(count, 1);
    let m1 = memory::put32(m, region::refcount_off(c, block as int), left);
    assert(placed(c, m, free, own, held, block));
    lemma_counted(c, m, free, block, left);
    let n = region::after_release(c, m, block);
    if count == 1 {
        lemma_freed(c, m1, free, block);
    }
    let list = if references(c, m, held, block) == 1 {
        seq![block] + free
    } else {
        free
    };
    assert forall|b: u32| b < c.block_count implies #[trigger] placed(
        c,
        n,
        list,
        own,
        held.remove(block),
        b,
    ) by {
        assert(placed(c, m, free, own, held, b));
        pool::lemma_in_front(block, free, b);
        assert(region::refcount(c, n, b as int) == region::refcount(c, m1, b as int));
        if b != block {
            assert(region::refcount(c, m1, b as int) == region::refcount(c, m, b as int));
        }
    }
}

/// A ring slot that is filled names the block, and the others what they named.
proof fn lemma_slot_filled(c: PubSubConfig, m: Seq<u8>, topic: int, block: u32, len: u32)
    requires
        laws::segment(c, m),
        0 <= topic < c.max_topics,
        block < c.block_count,
    ensures
        ({
            let n = region::with_entry(c, m, topic, block, len);
            let slot = layout::slot_of(c, region::next_seq(m, topic));
            let k = topic * c.ring_depth + slot;
            &&& laws::segment(c, n)
            &&& 0 <= k < c.max_topics * c.ring_depth
            &&& ring_blocks(c, m)[k] == region::ring_block(c, m, topic, slot)
            &&& ring_blocks(c, n) == ring_blocks(c, m).update(k, block)
            &&& region::refcount(c, n, block as int) == 1
            &&& forall|b: int|
                0 <= b < c.block_count && b != block ==> #[trigger] region::refcount(c, n, b)
                    == region::refcount(c, m, b)
        }),
{
    let seq = region::next_seq(m, topic);
    let slot = layout::slot_of(c, seq);
    let k = topic * c.ring_depth + slot;
    let e = layout::ring_off(c, topic, slot);
    layout::lemma_layout(c);
    layout::lemma_topic(c, topic);
    layout::lemma_ring(c, topic, slot);
    region::lemma_block_parts(c, block as int);
    let n = region::with_entry(c, m, topic, block, len);
    let a = ring_blocks(c, m);
    let b = ring_blocks(c, n);
    assert(b.len() == a.len());
    assert forall|j: int| 0 <= j < a.len() implies #[trigger] b[j] == a.update(k, block)[j] by {
        let o = layout::ring_base_spec(c) + j * RING_ENTRY_SIZE + RE_BLOCK_IDX;
        assert(o + 4 <= layout::pool_off(c));
        if j < k {
            assert(o + 8 <= e);
        } else if j > k {
            assert(e + RING_ENTRY_SIZE <= o);
        }
    }
    assert(b =~= a.update(k, block));
    assert forall|x: int| 0 <= x < c.block_count && x != block implies #[trigger] region::refcount(
        c,
        n,
        x,
    ) == region::refcount(c, m, x) by {
        region::lemma_block_parts(c, x);
        if x < block {
            pool::lemma_blocks_apart(layout::pool_of(c), x, block as int);
        } else {
            pool::lemma_blocks_apart(layout::pool_of(c), block as int, x);
        }
    }
}

/// Filling a ring slot keeps the free list.
proof fn lemma_slot_keeps_free_list(
    c: PubSubConfig,
    m: Seq<u8>,
    free: Seq<u32>,
    topic: int,
    block: u32,
    len: u32,
)
    requires
        laws::segment(c, m),
        layout::pool_of(c).is_free_list(m, free),
        0 <= topic < c.max_topics,
        block < c.block_count,
    ensures
        layout::pool_of(c).is_free_list(region::with_entry(c, m, topic, block, len), free),
{
    let p = layout::pool_of(c);
    let seq = region::next_seq(m, topic);
    let slot = layout::slot_of(c, seq);
    layout::lemma_layout(c);
    layout::lemma_topic(c, topic);
    layout::lemma_ring(c, topic, slot);
    region::lemma_block_parts(c, block as int);
    let m1 = memory::put64(m, layout::topic_off(topic) + layout::TE_WRITE_SEQ, seq);
    segment_laws::lemma_free_list_kept(p, m, m1, free);
    let m2 = memory::put32(m1, region::refcount_off(c, block as int), 1);
    lemma_counted(c, m1, free, block, 1);
    segment_laws::lemma_free_list_kept(p, m2, region::with_entry(c, m, topic, block, len), free);
}

/// The block that the next publication replaces in the ring.
pub open spec fn replaced(c: PubSubConfig, m: Seq<u8>, topic: int) -> u32 {
    region::ring_block(c, m, topic, layout::slot_of(c, region::next_seq(m, topic)))
}

/// The next publication takes the last reference to a block away.
pub open spec fn takes_the_last(
    c: PubSubConfig,
    m: Seq<u8>,
    held: Multiset<u32>,
    topic: int,
) -> bool {
    &&& replaced(c, m, topic) < c.block_count
    &&& references(c, m, held, replaced(c, m, topic)) == 1
}

/// The free list after a publication.
pub open spec fn free_after_publish(
    c: PubSubConfig,
    m: Seq<u8>,
    free: Seq<u32>,
    held: Multiset<u32>,
    warm: u32,
    topic: int,
) -> Seq<u32> {
    if takes_the_last(c, m, held, topic) && warm != NO_BLOCK {
        seq![warm] + free
    } else {
        free
    }
}

/// What publishers have to themselves after a publication.
pub open spec fn own_after_publish(
    c: PubSubConfig,
    m: Seq<u8>,
    own: Set<u32>,
    held: Multiset<u32>,
    warm: u32,
    topic: int,
    block: u32,
) -> Set<u32> {
    if takes_the_last(c, m, held, topic) {
        own.remove(block).remove(warm).insert(replaced(c, m, topic))
    } else {
        own.remove(block)
    }
}

/// Publishing moves a block from the publisher to the ring. The sample that it
/// replaces loses the reference of the ring; if that was the last one, its block
/// is the warm block of the publisher, and the warm block before it goes to the
/// free list.
#[verifier::rlimit(50)]
pub proof fn law_publish_keeps_the_account(
    c: PubSubConfig,
    m: Seq<u8>,
    free: Seq<u32>,
    own: Set<u32>,
    held: Multiset<u32>,
    warm: u32,
    topic: int,
    block: u32,
    len: u32,
)
    requires
        accounted(c, m, free, own, held),
        0 <= topic < c.max_topics,
        block < c.block_count,
        own.contains(block),
        warm == NO_BLOCK || (warm < c.block_count && own.contains(warm) && warm != block),
    ensures
        accounted(
            c,
            region::after_commit(c, m, warm, topic, block, len).0,
            free_after_publish(c, m, free, held, warm, topic),
            own_after_publish(c, m, own, held, warm, topic, block),
            held,
        ),
        region::after_commit(c, m, warm, topic, block, len).1 == (if takes_the_last(
            c,
            m,
            held,
            topic,
        ) {
            replaced(c, m, topic)
        } else {
            warm
        }),
{
    let slot = layout::slot_of(c, region::next_seq(m, topic));
    let k = topic * c.ring_depth + slot;
    let old = replaced(c, m, topic);
    let n = region::after_commit(c, m, warm, topic, block, len).0;
    let list = free_after_publish(c, m, free, held, warm, topic);
    let mine = own_after_publish(c, m, own, held, warm, topic, block);
    assert(placed(c, m, free, own, held, block));
    if old < c.block_count {
        assert(placed(c, m, free, own, held, old));
    }
    if warm < c.block_count {
        assert(placed(c, m, free, own, held, warm));
    }
    lemma_slot_filled(c, m, topic, block, len);
    pool::lemma_renamed(ring_blocks(c, m), k, block, old);
    lemma_committed(c, m, free, warm, topic, block, len);
    assert forall|b: u32| b < c.block_count implies #[trigger] placed(c, n, list, mine, held, b) by {
        assert(placed(c, m, free, own, held, b));
        pool::lemma_renamed(ring_blocks(c, m), k, block, b);
        pool::lemma_in_front(warm, free, b);
        assert(region::refcount(c, n, b as int) == count_after(c, m, old, block, b as int));
    }
}

/// The reference count of a block after a publication.
spec fn count_after(c: PubSubConfig, m: Seq<u8>, old: u32, block: u32, b: int) -> u32 {
    if b == block {
        1
    } else if b == old {
        memory::wrapping_difference_u32(region::refcount(c, m, b), 1)
    } else {
        region::refcount(c, m, b)
    }
}

/// What a publication does to free list, ring slots and reference counts.
proof fn lemma_committed(
    c: PubSubConfig,
    m: Seq<u8>,
    free: Seq<u32>,
    warm: u32,
    topic: int,
    block: u32,
    len: u32,
)
    requires
        laws::segment(c, m),
        layout::pool_of(c).is_free_list(m, free),
        0 <= topic < c.max_topics,
        block < c.block_count,
        replaced(c, m, topic) != block,
        warm == NO_BLOCK || (warm < c.block_count && !free.contains(warm)),
    ensures
        ({
            let old = replaced(c, m, topic);
            let (n, w) = region::after_commit(c, m, warm, topic, block, len);
            let last = old < c.block_count && region::refcount(c, m, old as int) == 1;
            &&& laws::segment(c, n)
            &&& w == (if last {
                old
            } else {
                warm
            })
            &&& layout::pool_of(c).is_free_list(
                n,
                if last && warm != NO_BLOCK {
                    seq![warm] + free
                } else {
                    free
                },
            )
            &&& ring_blocks(c, n) == ring_blocks(
                c,
                region::with_entry(c, m, topic, block, len),
            )
            &&& forall|b: int|
                0 <= b < c.block_count ==> #[trigger] region::refcount(c, n, b) == count_after(
                    c,
                    m,
                    old,
                    block,
                    b,
                )
        }),
{
    let old = replaced(c, m, topic);
    let e = region::with_entry(c, m, topic, block, len);
    let n = region::after_commit(c, m, warm, topic, block, len).0;
    lemma_slot_filled(c, m, topic, block, len);
    lemma_slot_keeps_free_list(c, m, free, topic, block, len);
    if old < c.block_count {
        let left = memory::wrapping_difference_u32(region::refcount(c, e, old as int), 1);
        let r = memory::put32(e, region::refcount_off(c, old as int), left);
        lemma_counted(c, e, free, old, left);
        if region::refcount(c, e, old as int) == 1 && warm != NO_BLOCK {
            lemma_freed(c, r, free, warm);
        }
        assert forall|b: int| 0 <= b < c.block_count implies #[trigger] region::refcount(c, n, b)
            == count_after(c, m, old, block, b) by {
            assert(region::refcount(c, n, b) == region::refcount(c, r, b));
            if b != old {
                assert(region::refcount(c, r, b) == region::refcount(c, e, b));
            }
            if b != block {
                assert(region::refcount(c, e, b) == region::refcount(c, m, b));
            }
        }
    }
}

} // verus!
