//! What a subscriber sees of a ring slot while the publisher writes.
//!
//! A run is a sequence of images of a segment, each of which comes from the one
//! before by a store of some party. The publisher takes the sequence number out
//! of the slot first, and puts one in it at the end that it has not used before.

use crate::memory::{self, Accesses};
use crate::protocol::pool;
use crate::protocol::reading;
use crate::transport::shm::pool_pubsub::{self, PoolPubSubConfig, TE_WRITE_SEQ};
use crate::transport::shm::pool_pubsub_laws;
use crate::transport::shm::rings::{self, RE_BLOCK_IDX, RE_DATA_LEN, RE_SEQ};
use vstd::prelude::*;

verus! {

broadcast use crate::memory::group_memory;

/// The sequence number of a slot that has no sample, or is being filled.
pub const NO_SAMPLE: u64 = 0;

/// A ring slot of a segment.
pub struct Slot {
    /// Parameters of the segment.
    pub config: PoolPubSubConfig,
    /// The topic.
    pub topic: int,
    /// The slot of its ring.
    pub slot: int,
}

impl Slot {
    /// Offset of the slot.
    pub open spec fn at(self) -> int {
        pool_pubsub::ring_off(self.config, self.topic, self.slot)
    }

    /// The sequence number in the slot.
    pub open spec fn seq(self, m: Seq<u8>) -> u64 {
        rings::entry_seq(m, self.at())
    }

    /// The block in the slot.
    pub open spec fn block(self, m: Seq<u8>) -> u32 {
        rings::entry_block(m, self.at())
    }

    /// The length of the sample in the slot.
    pub open spec fn len(self, m: Seq<u8>) -> u32 {
        rings::entry_len(m, self.at())
    }

    /// The slot names the same sample in two images.
    pub open spec fn same(self, m: Seq<u8>, n: Seq<u8>) -> bool {
        &&& self.seq(n) == self.seq(m)
        &&& self.block(n) == self.block(m)
        &&& self.len(n) == self.len(m)
    }

    /// One store, with the sequence numbers that were used before it and after
    /// it: nothing happens to the slot, or the publisher empties it, fills it, or
    /// gives it a new number. The data of a block that is referred to does not
    /// change.
    pub open spec fn step(
        self,
        m: Seq<u8>,
        used: Set<u64>,
        n: Seq<u8>,
        then_used: Set<u64>,
    ) -> bool {
        &&& {
            ||| self.same(m, n) && then_used == used
            ||| self.seq(n) == NO_SAMPLE && then_used == used
            ||| {
                &&& self.seq(m) == NO_SAMPLE
                &&& self.seq(n) != NO_SAMPLE
                &&& !used.contains(self.seq(n))
                &&& then_used == used.insert(self.seq(n))
                &&& self.block(n) == self.block(m)
                &&& self.len(n) == self.len(m)
            }
        }
        &&& forall|b: int|
            0 <= b < self.config.block_count && pool_pubsub::refcount(self.config, m, b) > 0
                ==> #[trigger] self.data(n, b) == self.data(m, b)
    }

    /// The data of a block, as far as it reaches.
    pub open spec fn data(self, m: Seq<u8>, b: int) -> Seq<u8> {
        memory::bytes_at(
            m,
            pool_pubsub::data_off(self.config, b),
            pool_pubsub::capacity_of(self.config),
        )
    }

    /// A slot with a sample refers to its block.
    pub open spec fn refers(self, m: Seq<u8>) -> bool {
        self.seq(m) != NO_SAMPLE && self.block(m) < self.config.block_count
            ==> pool_pubsub::refcount(self.config, m, self.block(m) as int) > 0
    }

    /// An image, and the one after it.
    pub open spec fn goes_on(self, images: Seq<Seq<u8>>, used: Seq<Set<u64>>, i: int) -> bool {
        self.step(images[i], used[i], images[i + 1], used[i + 1])
    }

    /// A run.
    pub open spec fn run(self, images: Seq<Seq<u8>>, used: Seq<Set<u64>>) -> bool {
        &&& images.len() == used.len()
        &&& images.len() >= 1
        &&& self.seq(images[0]) != NO_SAMPLE ==> used[0].contains(self.seq(images[0]))
        &&& forall|i: int| 0 <= i < images.len() ==> self.refers(#[trigger] images[i])
        &&& forall|i: int| 0 <= i < images.len() - 1 ==> #[trigger] self.goes_on(images, used, i)
    }
}

/// The number in the slot is among those that were used, and those are not
/// forgotten.
proof fn lemma_used(s: Slot, images: Seq<Seq<u8>>, used: Seq<Set<u64>>, i: int, j: int, seq: u64)
    requires
        s.run(images, used),
        0 <= i <= j < images.len(),
    ensures
        s.seq(images[i]) != NO_SAMPLE ==> used[i].contains(s.seq(images[i])),
        used[i].contains(seq) ==> used[j].contains(seq),
    decreases j,
{
    if i < j {
        lemma_used(s, images, used, i, j - 1, seq);
        assert(s.goes_on(images, used, j - 1));
    } else if i > 0 {
        lemma_used(s, images, used, i - 1, i - 1, seq);
        assert(s.goes_on(images, used, i - 1));
    }
}

/// A number that the slot once had and does not have any more never comes back.
proof fn lemma_numbers_do_not_return(
    s: Slot,
    images: Seq<Seq<u8>>,
    used: Seq<Set<u64>>,
    t: int,
    j: int,
    seq: u64,
)
    requires
        s.run(images, used),
        0 <= t <= j < images.len(),
        seq != NO_SAMPLE,
        used[t].contains(seq),
        s.seq(images[t]) != seq,
    ensures
        s.seq(images[j]) != seq,
    decreases j - t,
{
    if t < j {
        lemma_numbers_do_not_return(s, images, used, t, j - 1, seq);
        lemma_used(s, images, used, t, j - 1, seq);
        assert(s.goes_on(images, used, j - 1));
    }
}

/// A slot that has the same sequence number at two moments names the same
/// sample at every moment in between.
pub proof fn law_same_number_means_same_sample(
    s: Slot,
    images: Seq<Seq<u8>>,
    used: Seq<Set<u64>>,
    i: int,
    t: int,
    j: int,
)
    requires
        s.run(images, used),
        0 <= i <= t <= j < images.len(),
        s.seq(images[i]) == s.seq(images[j]),
        s.seq(images[i]) != NO_SAMPLE,
    ensures
        s.same(images[i], images[t]),
    decreases t - i,
{
    let seq = s.seq(images[i]);
    if i < t {
        law_same_number_means_same_sample(s, images, used, i, t - 1, j);
        lemma_used(s, images, used, i, t, seq);
        if s.seq(images[t]) != seq {
            lemma_numbers_do_not_return(s, images, used, t, j, seq);
        }
        assert(s.goes_on(images, used, t - 1));
    }
}

/// A sample is received intact and stays so: if the slot has the number of the
/// sample when the subscriber begins and still when it has taken its reference,
/// then the data of the block that it found there is that of the sample, and
/// remains so while the block is referred to.
pub proof fn law_received_sample_is_intact(
    s: Slot,
    images: Seq<Seq<u8>>,
    used: Seq<Set<u64>>,
    i: int,
    j: int,
    k: int,
)
    requires
        s.run(images, used),
        0 <= i <= j <= k < images.len(),
        s.seq(images[i]) == s.seq(images[j]),
        s.seq(images[i]) != NO_SAMPLE,
        s.block(images[i]) < s.config.block_count,
        forall|x: int|
            j <= x <= k ==> pool_pubsub::refcount(
                s.config,
                #[trigger] images[x],
                s.block(images[i]) as int,
            ) > 0,
    ensures
        s.data(images[k], s.block(images[i]) as int) == s.data(
            images[i],
            s.block(images[i]) as int,
        ),
    decreases k,
{
    let b = s.block(images[i]) as int;
    if i < k {
        if j < k {
            law_received_sample_is_intact(s, images, used, i, j, k - 1);
            assert(pool_pubsub::refcount(s.config, images[k - 1], b) > 0);
        } else {
            law_same_number_means_same_sample(s, images, used, i, k - 1, j);
            assert(s.refers(images[k - 1]));
            law_same_number_means_same_sample(s, images, used, i, k - 1, j);
            law_received_sample_is_intact(s, images, used, i, k - 1, k - 1);
        }
        assert(s.goes_on(images, used, k - 1));
        assert(s.data(images[k], b) == s.data(images[k - 1], b));
    }
}

/// A sample that was taken is intact and stays so, whatever publishers do
/// meanwhile: a reader that took it, as `ShmPoolSubscription::try_recv` is stated
/// to, found its number, block and length together in the slot, and the data of
/// the block remains what it was then while the block is referred to.
pub proof fn law_taken_sample_is_intact(
    s: Slot,
    images: Seq<Seq<u8>>,
    used: Seq<Set<u64>>,
    seq: u64,
    ops: Accesses,
    block: u32,
    len: u32,
    moments: Seq<int>,
    k: int,
)
    requires
        s.run(images, used),
        s.slot == pool_pubsub::slot_of(s.config, seq),
        pool_pubsub::entry_place(s.config, s.topic, seq).took(seq, ops, block, len),
        reading::happens(images, ops, moments),
        seq != NO_SAMPLE,
        block < s.config.block_count,
        moments.last() <= k < images.len(),
        forall|x: int|
            moments.last() <= x <= k ==> pool_pubsub::refcount(
                s.config,
                #[trigger] images[x],
                block as int,
            ) > 0,
    ensures
        0 <= moments[0] <= k,
        s.seq(images[moments[0]]) == seq,
        s.block(images[moments[0]]) == block,
        s.len(images[moments[0]]) == len,
        s.data(images[k], block as int) == s.data(images[moments[0]], block as int),
{
    let at = pool_pubsub::entry_place(s.config, s.topic, seq);
    reading::lemma_took_at(at, seq, ops, block, len, images, moments);
    let i = moments[0];
    let j = moments.last();
    assert(s.seq(images[i]) == seq);
    assert(s.seq(images[j]) == seq);
    law_same_number_means_same_sample(s, images, used, i, moments[1], j);
    law_same_number_means_same_sample(s, images, used, i, moments[2], j);
    law_received_sample_is_intact(s, images, used, i, j, k);
}

/// A slot of a segment.
pub open spec fn is_slot(s: Slot, m: Seq<u8>) -> bool {
    &&& pool_pubsub_laws::fits(s.config, m)
    &&& 0 <= s.topic < s.config.max_topics
    &&& 0 <= s.slot < s.config.ring_depth
}

/// All blocks have the same data, and those in use are the same.
spec fn same_blocks(s: Slot, m: Seq<u8>, n: Seq<u8>) -> bool {
    forall|x: int|
        #![trigger s.data(n, x)]
        #![trigger pool_pubsub::refcount(s.config, n, x)]
        0 <= x < s.config.block_count ==> s.data(n, x) == s.data(m, x) && pool_pubsub::refcount(
            s.config,
            n,
            x,
        ) == pool_pubsub::refcount(s.config, m, x)
}

/// A store in front of the pool leaves the blocks as they are.
proof fn lemma_front_store(s: Slot, m: Seq<u8>, off: int, b: Seq<u8>)
    requires
        is_slot(s, m),
        0 <= off,
        off + b.len() <= pool_pubsub::pool_off(s.config),
    ensures
        is_slot(s, memory::put(m, off, b)),
        same_blocks(s, m, memory::put(m, off, b)),
{
    let n = memory::put(m, off, b);
    let cap = pool_pubsub::capacity_of(s.config);
    pool_pubsub::lemma_parts(s.config);
    assert forall|x: int| 0 <= x < s.config.block_count implies #[trigger] s.data(n, x) == s.data(
        m,
        x,
    ) && pool_pubsub::refcount(s.config, n, x) == pool_pubsub::refcount(s.config, m, x) by {
        pool_pubsub::lemma_block(s.config, x);
        let o = pool_pubsub::data_off(s.config, x);
        assert(memory::bytes_at(n, o, cap) =~= memory::bytes_at(m, o, cap));
    }
}

/// A store in a topic entry is a step, and keeps what the slot refers to.
proof fn lemma_elsewhere(s: Slot, m: Seq<u8>, used: Set<u64>, off: int, v: u64)
    requires
        is_slot(s, m),
        0 <= off,
        off + 8 <= pool_pubsub::ring_base(s.config),
    ensures
        is_slot(s, memory::put64(m, off, v)),
        s.step(m, used, memory::put64(m, off, v), used),
        s.same(m, memory::put64(m, off, v)),
        s.refers(m) ==> s.refers(memory::put64(m, off, v)),
        same_blocks(s, m, memory::put64(m, off, v)),
{
    pool_pubsub::lemma_parts(s.config);
    pool_pubsub::lemma_ring(s.config, s.topic, s.slot);
    lemma_front_store(s, m, off, memory::le64(v));
}

/// Emptying the slot is a step.
proof fn lemma_emptied(s: Slot, m: Seq<u8>, used: Set<u64>)
    requires
        is_slot(s, m),
    ensures
        ({
            let n = memory::put64(m, s.at() + RE_SEQ, NO_SAMPLE);
            is_slot(s, n) && s.step(m, used, n, used) && s.seq(n) == NO_SAMPLE && same_blocks(
                s,
                m,
                n,
            )
        }),
{
    pool_pubsub::lemma_ring(s.config, s.topic, s.slot);
    lemma_front_store(s, m, s.at() + RE_SEQ, memory::le64(NO_SAMPLE));
}

/// Setting a reference count is a step, and changes no other count.
proof fn lemma_counted(s: Slot, m: Seq<u8>, used: Set<u64>, block: u32, count: u32)
    requires
        is_slot(s, m),
        block < s.config.block_count,
    ensures
        ({
            let n = memory::put32(m, pool_pubsub::refcount_off(s.config, block as int), count);
            &&& is_slot(s, n)
            &&& s.same(m, n)
            &&& s.step(m, used, n, used)
            &&& pool_pubsub::refcount(s.config, n, block as int) == count
            &&& forall|x: int|
                0 <= x < s.config.block_count ==> #[trigger] s.data(n, x) == s.data(m, x)
            &&& forall|x: int|
                0 <= x < s.config.block_count && x != block ==> #[trigger] pool_pubsub::refcount(
                    s.config,
                    n,
                    x,
                ) == pool_pubsub::refcount(s.config, m, x)
        }),
{
    let c = s.config;
    let n = memory::put32(m, pool_pubsub::refcount_off(c, block as int), count);
    let cap = pool_pubsub::capacity_of(c);
    pool_pubsub::lemma_parts(c);
    pool_pubsub::lemma_ring(c, s.topic, s.slot);
    pool_pubsub::lemma_block(c, block as int);
    assert forall|x: int| 0 <= x < c.block_count implies #[trigger] s.data(n, x) == s.data(
        m,
        x,
    ) by {
        lemma_apart(c, x, block as int);
        let o = pool_pubsub::data_off(c, x);
        assert(memory::bytes_at(n, o, cap) =~= memory::bytes_at(m, o, cap));
    }
    assert forall|x: int|
        0 <= x < c.block_count && x != block implies #[trigger] pool_pubsub::refcount(c, n, x)
        == pool_pubsub::refcount(c, m, x) by {
        lemma_apart(c, x, block as int);
    }
}

/// Two blocks do not overlap.
proof fn lemma_apart(c: PoolPubSubConfig, x: int, y: int)
    requires
        pool_pubsub::sound(c),
        0 <= x < c.block_count,
        0 <= y < c.block_count,
    ensures
        x == y || pool_pubsub::data_off(c, x) + pool_pubsub::capacity_of(c)
            <= pool_pubsub::pool_of(c).block(y) || pool_pubsub::data_off(c, y)
            + pool_pubsub::capacity_of(c) <= pool_pubsub::pool_of(c).block(x),
        pool_pubsub::pool_of(c).block(x) + 4 == pool_pubsub::refcount_off(c, x),
        pool_pubsub::refcount_off(c, x) + 4 == pool_pubsub::data_off(c, x),
        pool_pubsub::data_off(c, x) + pool_pubsub::capacity_of(c) <= pool_pubsub::region_size(c),
{
    pool_pubsub::lemma_block(c, x);
    pool_pubsub::lemma_block(c, y);
    if x < y {
        pool::lemma_blocks_apart(pool_pubsub::pool_of(c), x, y);
    } else if y < x {
        pool::lemma_blocks_apart(pool_pubsub::pool_of(c), y, x);
    }
}

/// Filling a slot that is empty is a step.
proof fn lemma_filled(s: Slot, m: Seq<u8>, used: Set<u64>, at: int, v: u32)
    requires
        is_slot(s, m),
        s.seq(m) == NO_SAMPLE,
        at == RE_BLOCK_IDX || at == RE_DATA_LEN,
    ensures
        ({
            let n = memory::put32(m, s.at() + at, v);
            &&& is_slot(s, n)
            &&& s.step(m, used, n, used)
            &&& s.seq(n) == NO_SAMPLE
            &&& at == RE_BLOCK_IDX ==> s.block(n) == v
            &&& at == RE_DATA_LEN ==> s.block(n) == s.block(m)
            &&& same_blocks(s, m, n)
        }),
{
    pool_pubsub::lemma_ring(s.config, s.topic, s.slot);
    lemma_front_store(s, m, s.at() + at, memory::le32(v));
}

/// Giving an empty slot a number that was not used is a step.
proof fn lemma_numbered(s: Slot, m: Seq<u8>, used: Set<u64>, seq: u64)
    requires
        is_slot(s, m),
        s.seq(m) == NO_SAMPLE,
        seq != NO_SAMPLE,
        !used.contains(seq),
    ensures
        ({
            let n = memory::put64(m, s.at() + RE_SEQ, seq);
            &&& is_slot(s, n)
            &&& s.step(m, used, n, used.insert(seq))
            &&& s.seq(n) == seq
            &&& s.block(n) == s.block(m)
            &&& same_blocks(s, m, n)
        }),
{
    pool_pubsub::lemma_ring(s.config, s.topic, s.slot);
    lemma_front_store(s, m, s.at() + RE_SEQ, memory::le64(seq));
}

/// Letting a block go, other than that of the slot, is a step.
proof fn lemma_released(s: Slot, m: Seq<u8>, used: Set<u64>, block: u32)
    requires
        is_slot(s, m),
        s.refers(m),
        block != s.block(m),
    ensures
        s.step(m, used, pool_pubsub::after_release(s.config, m, block), used),
        s.refers(pool_pubsub::after_release(s.config, m, block)),
{
    let c = s.config;
    if block < c.block_count {
        let count = pool_pubsub::refcount(c, m, block as int);
        let left = memory::wrapping_difference_u32(count, 1);
        let r = memory::put32(m, pool_pubsub::refcount_off(c, block as int), left);
        lemma_counted(s, m, used, block, left);
        if count == 1 {
            lemma_freed(s, r, block);
        }
    }
}

/// Putting a block on the free list changes no data, no count and no slot.
proof fn lemma_freed(s: Slot, m: Seq<u8>, block: u32)
    requires
        is_slot(s, m),
        block < s.config.block_count,
    ensures
        s.same(m, pool_pubsub::pool_of(s.config).after_free(m, block)),
        same_blocks(s, m, pool_pubsub::pool_of(s.config).after_free(m, block)),
{
    let c = s.config;
    let n = pool_pubsub::pool_of(c).after_free(m, block);
    let cap = pool_pubsub::capacity_of(c);
    pool_pubsub::lemma_parts(c);
    pool_pubsub::lemma_pool(c, m.len());
    pool_pubsub::lemma_ring(c, s.topic, s.slot);
    pool_pubsub::lemma_block(c, block as int);
    assert forall|x: int| 0 <= x < c.block_count implies #[trigger] s.data(n, x) == s.data(
        m,
        x,
    ) && pool_pubsub::refcount(c, n, x) == pool_pubsub::refcount(c, m, x) by {
        lemma_apart(c, x, block as int);
        pool_pubsub::lemma_block(c, x);
        let o = pool_pubsub::data_off(c, x);
        assert(memory::bytes_at(n, o, cap) =~= memory::bytes_at(m, o, cap));
    }
}

/// The slot of a sequence number.
pub open spec fn slot_for(c: PoolPubSubConfig, topic: int, seq: u64) -> Slot {
    Slot { config: c, topic, slot: pool_pubsub::slot_of(c, seq) }
}

/// The images of a publication, store by store: the reference, the empty slot,
/// the block, the length, the number in the slot, the number of the newest
/// sample, and the segment once the sample that was there is let go.
pub open spec fn publication(
    c: PoolPubSubConfig,
    m: Seq<u8>,
    topic: int,
    block: u32,
    len: u32,
    seq: u64,
) -> Seq<Seq<u8>> {
    let e = slot_for(c, topic, seq).at();
    let referred = memory::put32(m, pool_pubsub::refcount_off(c, block as int), 1);
    let emptied = memory::put64(referred, e + RE_SEQ, NO_SAMPLE);
    let named = memory::put32(emptied, e + RE_BLOCK_IDX, block);
    let measured = memory::put32(named, e + RE_DATA_LEN, len);
    let numbered = memory::put64(measured, e + RE_SEQ, seq);
    seq![
        m,
        referred,
        emptied,
        named,
        measured,
        numbered,
        pool_pubsub::with_sample(c, m, topic, block, len, seq),
        pool_pubsub::after_commit(c, m, topic, block, len, seq),
    ]
}

/// The numbers that are used in each image of a publication.
pub open spec fn publication_numbers(used: Set<u64>, seq: u64) -> Seq<Set<u64>> {
    seq![
        used,
        used,
        used,
        used,
        used,
        used.insert(seq),
        used.insert(seq),
        used.insert(seq),
    ]
}

/// What a publication needs: a block that the slot does not name yet, and a
/// number that was not used.
pub open spec fn can_publish(
    c: PoolPubSubConfig,
    m: Seq<u8>,
    topic: int,
    block: u32,
    seq: u64,
    used: Set<u64>,
) -> bool {
    let s = slot_for(c, topic, seq);
    &&& pool_pubsub_laws::fits(c, m)
    &&& 0 <= topic < c.max_topics
    &&& block < c.block_count
    &&& s.block(m) != block
    &&& seq != NO_SAMPLE
    &&& !used.contains(seq)
    &&& s.refers(m)
    &&& s.seq(m) != NO_SAMPLE ==> used.contains(s.seq(m))
}

/// The stores up to the number in the slot are steps.
proof fn lemma_publication_begins(
    c: PoolPubSubConfig,
    m: Seq<u8>,
    topic: int,
    block: u32,
    len: u32,
    seq: u64,
    used: Set<u64>,
)
    requires
        can_publish(c, m, topic, block, seq, used),
    ensures
        ({
            let s = slot_for(c, topic, seq);
            let images = publication(c, m, topic, block, len, seq);
            &&& s.step(images[0], used, images[1], used)
            &&& s.refers(images[1])
            &&& s.step(images[1], used, images[2], used)
            &&& s.seq(images[2]) == NO_SAMPLE
            &&& s.step(images[2], used, images[3], used)
            &&& s.seq(images[3]) == NO_SAMPLE
            &&& s.step(images[3], used, images[4], used)
            &&& s.seq(images[4]) == NO_SAMPLE
            &&& s.step(images[4], used, images[5], used.insert(seq))
            &&& is_slot(s, images[5])
            &&& s.block(images[5]) == block
            &&& s.refers(images[5])
        }),
{
    let s = slot_for(c, topic, seq);
    let images = publication(c, m, topic, block, len, seq);
    lemma_counted(s, m, used, block, 1);
    lemma_emptied(s, images[1], used);
    lemma_filled(s, images[2], used, RE_BLOCK_IDX as int, block);
    lemma_filled(s, images[3], used, RE_DATA_LEN as int, len);
    lemma_numbered(s, images[4], used, seq);
    let b = block as int;
    assert(pool_pubsub::refcount(c, images[2], b) == 1);
    assert(pool_pubsub::refcount(c, images[3], b) == 1);
    assert(pool_pubsub::refcount(c, images[4], b) == 1);
    assert(pool_pubsub::refcount(c, images[5], b) == 1);
}

/// The stores behind the number in the slot are steps.
proof fn lemma_publication_ends(
    c: PoolPubSubConfig,
    m: Seq<u8>,
    topic: int,
    block: u32,
    len: u32,
    seq: u64,
    used: Set<u64>,
)
    requires
        can_publish(c, m, topic, block, seq, used),
    ensures
        ({
            let s = slot_for(c, topic, seq);
            let images = publication(c, m, topic, block, len, seq);
            let then_used = used.insert(seq);
            &&& s.step(images[5], then_used, images[6], then_used)
            &&& s.refers(images[6])
            &&& s.step(images[6], then_used, images[7], then_used)
            &&& s.refers(images[7])
        }),
{
    let s = slot_for(c, topic, seq);
    let images = publication(c, m, topic, block, len, seq);
    let then_used = used.insert(seq);
    lemma_publication_begins(c, m, topic, block, len, seq, used);
    pool_pubsub::lemma_topic(c, topic);
    lemma_elsewhere(s, images[5], then_used, pool_pubsub::topic_off(topic) + TE_WRITE_SEQ, seq);
    lemma_released(s, images[6], then_used, s.block(m));
}

/// The images of a publication are what its stores make, one after the other, of
/// the segment: those that `publish` is stated to do until the sample that was
/// there is let go.
pub proof fn law_publication_is_what_is_stored(
    c: PoolPubSubConfig,
    m: Seq<u8>,
    topic: int,
    block: u32,
    len: u32,
    seq: u64,
    i: int,
)
    requires
        0 <= i < 6,
    ensures
        ({
            let ops = pool_pubsub::sample_stores(c, topic, block, len, seq);
            let images = publication(c, m, topic, block, len, seq);
            &&& ops.len() == 6
            &&& images[i + 1] == memory::after_access(images[i], ops[i])
        }),
{
    assert(i == 0 || i == 1 || i == 2 || i == 3 || i == 4 || i == 5);
}

/// Publishing a sample is a run of its slot, so that subscribers may look at any
/// moment of it.
#[verifier::rlimit(50)]
pub proof fn law_publish_is_a_run(
    c: PoolPubSubConfig,
    m: Seq<u8>,
    topic: int,
    block: u32,
    len: u32,
    seq: u64,
    used: Set<u64>,
)
    requires
        can_publish(c, m, topic, block, seq, used),
    ensures
        slot_for(c, topic, seq).run(
            publication(c, m, topic, block, len, seq),
            publication_numbers(used, seq),
        ),
        publication(c, m, topic, block, len, seq)[7] == pool_pubsub::after_commit(
            c,
            m,
            topic,
            block,
            len,
            seq,
        ),
{
    let s = slot_for(c, topic, seq);
    let images = publication(c, m, topic, block, len, seq);
    let numbers = publication_numbers(used, seq);
    lemma_publication_begins(c, m, topic, block, len, seq, used);
    lemma_publication_ends(c, m, topic, block, len, seq, used);
    assert forall|i: int| 0 <= i < images.len() - 1 implies #[trigger] s.goes_on(
        images,
        numbers,
        i,
    ) by {
        assert(i == 0 || i == 1 || i == 2 || i == 3 || i == 4 || i == 5 || i == 6);
    }
    assert forall|i: int| 0 <= i < images.len() implies s.refers(#[trigger] images[i]) by {
        assert(i == 0 || i == 1 || i == 2 || i == 3 || i == 4 || i == 5 || i == 6 || i == 7);
    }
}

} // verus!
