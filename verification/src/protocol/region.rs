//! Operations on a publish/subscribe segment.

use crate::error::Error;
use crate::memory::{self, Access, SharedMemory};
use crate::protocol::config::PubSubConfig;
use crate::protocol::layout::{
    self, ring_entry_off, topic_entry_off, BK_REFCOUNT, BLOCK_DATA_OFFSET, GH_HEARTBEAT,
    GH_POOL_HEAD, HEADER_SIZE, RE_BLOCK_IDX, RE_DATA_LEN, RE_SEQ, RING_ENTRY_SIZE, SEQ_WRITING,
    TE_PINNED_BLOCK, TE_PINNED_READERS, TE_PINNED_SEQ, TE_WAITERS, TE_WRITE_SEQ, TOPIC_ENTRY_SIZE,
};
use crate::protocol::pool::{self, PoolLayout, NO_BLOCK};
use crate::protocol::reading;
use vstd::prelude::*;

verus! {

broadcast use crate::memory::group_memory;

/// A publish/subscribe segment as one party sees it.
pub struct Region<M: SharedMemory> {
    /// The segment.
    pub mem: M,
    /// The configuration from its header.
    pub config: PubSubConfig,
    /// A block that this party freed last and keeps for its next allocation,
    /// because it is still warm in the cache; `NO_BLOCK` if there is none.
    pub last_freed: u32,
}

/// Sequence number of the newest sample of a topic.
pub open spec fn write_seq(m: Seq<u8>, topic: int) -> u64 {
    memory::u64_at(m, layout::topic_off(topic) + TE_WRITE_SEQ)
}

/// Number of sleeping subscribers of a topic.
pub open spec fn waiters(m: Seq<u8>, topic: int) -> u32 {
    memory::u32_at(m, layout::topic_off(topic) + TE_WAITERS)
}

/// Index of a topic's pinned block.
pub open spec fn pinned_block_of(m: Seq<u8>, topic: int) -> u32 {
    memory::u32_at(m, layout::topic_off(topic) + TE_PINNED_BLOCK)
}

/// Number of readers of a topic's pinned block, or the mark of its writer.
pub open spec fn pinned_readers_of(m: Seq<u8>, topic: int) -> u32 {
    memory::u32_at(m, layout::topic_off(topic) + TE_PINNED_READERS)
}

/// Sequence number and length of a topic's pinned sample, packed.
pub open spec fn pinned_seq_of(m: Seq<u8>, topic: int) -> u64 {
    memory::u64_at(m, layout::topic_off(topic) + TE_PINNED_SEQ)
}

/// Sequence number in a ring entry.
pub open spec fn ring_seq(c: PubSubConfig, m: Seq<u8>, topic: int, slot: int) -> u64 {
    memory::u64_at(m, layout::ring_off(c, topic, slot) + RE_SEQ)
}

/// Block index in a ring entry.
pub open spec fn ring_block(c: PubSubConfig, m: Seq<u8>, topic: int, slot: int) -> u32 {
    memory::u32_at(m, layout::ring_off(c, topic, slot) + RE_BLOCK_IDX)
}

/// Data length in a ring entry.
pub open spec fn ring_len(c: PubSubConfig, m: Seq<u8>, topic: int, slot: int) -> u32 {
    memory::u32_at(m, layout::ring_off(c, topic, slot) + RE_DATA_LEN)
}

/// Offset of a block's reference count.
pub open spec fn refcount_off(c: PubSubConfig, block: int) -> int {
    layout::pool_of(c).block(block) + BK_REFCOUNT
}

/// Offset of a block's data.
pub open spec fn data_off(c: PubSubConfig, block: int) -> int {
    layout::pool_of(c).block(block) + BLOCK_DATA_OFFSET
}

/// Reference count of a block.
pub open spec fn refcount(c: PubSubConfig, m: Seq<u8>, block: int) -> u32 {
    memory::u32_at(m, refcount_off(c, block))
}

/// The first `len` data bytes of a block.
pub open spec fn block_data(c: PubSubConfig, m: Seq<u8>, block: int, len: int) -> Seq<u8> {
    memory::bytes_at(m, data_off(c, block), len)
}

/// An attempt to mark the entry at `off` as being written: an exchange, of a
/// value other than that mark.
pub open spec fn tries_entry(s: Access, off: int, done: bool) -> bool {
    s matches Access::Exchange64 { off: at, current, new, found } && {
        &&& at == off
        &&& current != SEQ_WRITING
        &&& new == SEQ_WRITING
        &&& (found is Ok) == done
    }
}

/// Attempts to mark the entry at `off`, of which only the last one came about.
pub open spec fn claims(tries: memory::Accesses, off: int) -> bool {
    &&& tries.len() > 0
    &&& forall|i: int|
        0 <= i < tries.len() ==> tries_entry(#[trigger] tries[i], off, i == tries.len() - 1)
}

/// What marks the ring entry for the number behind `was` as being written: a
/// store where nobody else publishes on the topic, and an exchange otherwise.
pub open spec fn marks_entry(
    c: PubSubConfig,
    topic: int,
    was: u64,
    marks: memory::Accesses,
    single_publisher: bool,
) -> bool {
    let e = layout::ring_off(c, topic, layout::slot_of(c, memory::wrapping_sum_u64(was, 1)));
    if single_publisher {
        marks == seq![Access::Word64 { off: e + RE_SEQ, v: SEQ_WRITING }]
    } else {
        claims(marks, e + RE_SEQ)
    }
}

/// What filling a ring entry stores, in this order: the number of the topic is
/// counted on from `was`, the entry is marked, the block gets its reference, the
/// entry its block and length, and at last its number.
pub open spec fn entry_stores(
    c: PubSubConfig,
    topic: int,
    block: u32,
    len: u32,
    was: u64,
    marks: memory::Accesses,
) -> memory::Accesses {
    let seq = memory::wrapping_sum_u64(was, 1);
    let e = layout::ring_off(c, topic, layout::slot_of(c, seq));
    seq![Access::Add64 { off: layout::topic_off(topic) + TE_WRITE_SEQ, v: 1, was }] + marks + seq![
        Access::Word32 { off: refcount_off(c, block as int), v: 1 },
        Access::Word32 { off: e + RE_BLOCK_IDX, v: block },
        Access::Word32 { off: e + RE_DATA_LEN, v: len },
        Access::Word64 { off: e + RE_SEQ, v: seq },
    ]
}

/// What is stored once a count that was `was` went down: with the last reference
/// the block becomes the warm one, and the one that was warm goes back to the
/// pool.
pub open spec fn lets_go(c: PubSubConfig, ops: memory::Accesses, was: u32, warm: u32) -> bool {
    if was == 1 && warm != NO_BLOCK {
        layout::pool_of(c).gives(ops, warm)
    } else {
        ops.len() == 0
    }
}

/// What letting a block go stores that was replaced in a ring.
pub open spec fn recycles(c: PubSubConfig, ops: memory::Accesses, block: u32, warm: u32) -> bool {
    if block >= c.block_count {
        ops.len() == 0
    } else {
        exists|was: u32, rest: memory::Accesses|
            {
                &&& ops == seq![
                    Access::Subtract32 { off: refcount_off(c, block as int), v: 1, was },
                ] + rest
                &&& #[trigger] lets_go(c, rest, was, warm)
            }
    }
}

/// What publishing a block stores: the ring entry is filled, and what was in it
/// let go.
pub open spec fn commits(
    c: PubSubConfig,
    ops: memory::Accesses,
    topic: int,
    block: u32,
    len: u32,
    single_publisher: bool,
    warm: u32,
) -> bool {
    exists|was: u64, marks: memory::Accesses, replaced: u32, rest: memory::Accesses|
        {
            &&& ops == entry_stores(c, topic, block, len, was, marks) + rest
            &&& #[trigger] marks_entry(c, topic, was, marks, single_publisher)
            &&& #[trigger] recycles(c, rest, replaced, warm)
        }
}

/// A handle published a block.
pub open spec fn committed<M: SharedMemory>(
    before: Region<M>,
    after: Region<M>,
    topic: u32,
    block: u32,
    len: u32,
    single_publisher: bool,
) -> bool {
    exists|ops: memory::Accesses|
        {
            &&& after.mem.accesses() == before.mem.accesses() + ops
            &&& #[trigger] commits(
                before.config,
                ops,
                topic as int,
                block,
                len,
                single_publisher,
                before.last_freed,
            )
        }
}

/// A handle let one reference to a block go.
pub open spec fn released<M: SharedMemory>(before: Region<M>, after: Region<M>, block: u32) -> bool {
    exists|ops: memory::Accesses|
        {
            &&& after.mem.accesses() == before.mem.accesses() + ops
            &&& #[trigger] reading::releases(
                layout::pool_of(before.config),
                ops,
                refcount_off(before.config, block as int),
                block,
            )
        }
}

/// What publishing a pinned block stores, in this order: the number of the topic
/// is counted on from `was`, and the word gets that number with the length.
pub open spec fn pinned_stores(topic: int, len: u32, was: u64) -> memory::Accesses {
    let seq = memory::wrapping_sum_u64(was, 1);
    seq![
        Access::Add64 { off: layout::topic_off(topic) + TE_WRITE_SEQ, v: 1, was },
        Access::Word64 {
            off: layout::topic_off(topic) + TE_PINNED_SEQ,
            v: pool::packed((seq % 0x1_0000_0000) as u32, len),
        },
    ]
}

/// Bytes of data that a block can hold.
pub open spec fn capacity_of(c: PubSubConfig) -> int {
    c.block_size - BLOCK_DATA_OFFSET
}

/// The sequence number that the next sample of a topic gets.
pub open spec fn next_seq(m: Seq<u8>, topic: int) -> u64 {
    memory::wrapping_sum_u64(write_seq(m, topic), 1)
}

/// The segment after a ring entry was filled, and before the sample that it
/// held is let go.
pub open spec fn with_entry(c: PubSubConfig, m: Seq<u8>, topic: int, block: u32, len: u32) -> Seq<
    u8,
> {
    let seq = next_seq(m, topic);
    let e = layout::ring_off(c, topic, layout::slot_of(c, seq));
    let m = memory::put64(m, layout::topic_off(topic) + TE_WRITE_SEQ, seq);
    let m = memory::put32(m, refcount_off(c, block as int), 1);
    let m = memory::put32(m, e + RE_BLOCK_IDX, block);
    let m = memory::put32(m, e + RE_DATA_LEN, len);
    memory::put64(m, e + RE_SEQ, seq)
}

/// The segment, and the warm block, after one reference to a block is let go:
/// the last reference makes it the warm block, and the warm block before it
/// goes back to the pool.
pub open spec fn after_recycle(c: PubSubConfig, m: Seq<u8>, warm: u32, block: u32) -> (
    Seq<u8>,
    u32,
) {
    if block >= c.block_count {
        (m, warm)
    } else {
        let count = refcount(c, m, block as int);
        let n = memory::put32(
            m,
            refcount_off(c, block as int),
            memory::wrapping_difference_u32(count, 1),
        );
        if count != 1 {
            (n, warm)
        } else if warm == NO_BLOCK {
            (n, block)
        } else {
            (layout::pool_of(c).after_free(n, warm), block)
        }
    }
}

/// The segment, and the warm block, after a sample was published.
pub open spec fn after_commit(
    c: PubSubConfig,
    m: Seq<u8>,
    warm: u32,
    topic: int,
    block: u32,
    len: u32,
) -> (Seq<u8>, u32) {
    let replaced = ring_block(c, m, topic, layout::slot_of(c, next_seq(m, topic)));
    after_recycle(c, with_entry(c, m, topic, block, len), warm, replaced)
}

/// The segment after a reference is let go by a subscriber: the last one gives
/// the block back to the pool. A block outside of the pool is ignored.
pub open spec fn after_release(c: PubSubConfig, m: Seq<u8>, block: u32) -> Seq<u8> {
    if block >= c.block_count {
        m
    } else {
        let count = refcount(c, m, block as int);
        let n = memory::put32(
            m,
            refcount_off(c, block as int),
            memory::wrapping_difference_u32(count, 1),
        );
        if count == 1 {
            layout::pool_of(c).after_free(n, block)
        } else {
            n
        }
    }
}

/// The segment after a pinned sample was published.
pub open spec fn after_commit_pinned(m: Seq<u8>, topic: int, len: u32) -> Seq<u8> {
    let seq = next_seq(m, topic);
    memory::put64(
        memory::put64(m, layout::topic_off(topic) + TE_WRITE_SEQ, seq),
        layout::topic_off(topic) + TE_PINNED_SEQ,
        pool::packed((seq % 0x1_0000_0000) as u32, len),
    )
}

/// A heartbeat is too old.
pub open spec fn is_stale(heartbeat: u64, now: u64, timeout: u64) -> bool {
    now - heartbeat > timeout
}

/// Reference count and data of a block lie inside the segment.
pub proof fn lemma_block_parts(c: PubSubConfig, block: int)
    requires
        layout::valid_config(c),
        0 <= block < c.block_count,
    ensures
        layout::pool_off(c) <= layout::pool_of(c).block(block),
        refcount_off(c, block) + 4 <= data_off(c, block),
        data_off(c, block) + capacity_of(c) <= layout::region_size(c),
        data_off(c, block) + capacity_of(c) == layout::pool_of(c).block(block) + c.block_size,
        capacity_of(c) >= 1,
{
    layout::lemma_layout(c);
    pool::lemma_block(layout::pool_of(c), block, layout::region_size(c) as nat);
}

impl<M: SharedMemory> Region<M> {
    /// The configuration is valid and the segment is large enough for it.
    pub open spec fn wf(&self) -> bool {
        &&& layout::valid_config(self.config)
        &&& layout::region_size(self.config) <= self.mem.image().len() <= usize::MAX
        &&& self.last_freed == NO_BLOCK || self.last_freed < self.config.block_count
    }

    /// `other` is the same segment at a later moment.
    pub open spec fn same_segment(&self, other: &Self) -> bool {
        &&& other.config == self.config
        &&& other.mem.image().len() == self.mem.image().len()
        &&& other.mem.exclusive() == self.mem.exclusive()
        &&& other.mem.contention() <= self.mem.contention()
    }

    /// A view of a segment of a known configuration.
    pub fn from_memory(mem: M, config: PubSubConfig) -> (r: Self)
        ensures
            r.mem == mem,
            r.config == config,
            r.last_freed == NO_BLOCK,
    {
        Region { mem, config, last_freed: NO_BLOCK }
    }

    /// The pool of the segment.
    pub fn pool(&self) -> (r: PoolLayout)
        requires
            self.wf(),
        ensures
            r == layout::pool_of(self.config),
            r.fits(self.mem.image().len()),
    {
        proof {
            layout::lemma_layout(self.config);
            let t = self.config.max_topics as int;
            let d = self.config.ring_depth as int;
            assert(0 <= t * d) by (nonlinear_arith)
                requires
                    0 <= t,
                    0 <= d,
            ;
        }
        let base: usize = HEADER_SIZE + self.config.max_topics as usize * TOPIC_ENTRY_SIZE
            + self.config.max_topics as usize * self.config.ring_depth as usize * RING_ENTRY_SIZE;
        PoolLayout {
            head: GH_POOL_HEAD,
            base,
            block_size: self.config.block_size,
            block_count: self.config.block_count,
            checks_links: true,
        }
    }

    /// Offset of a block, or `None` if there is no such block.
    pub fn block_off_checked(&self, idx: u32) -> (r: Option<usize>)
        requires
            self.wf(),
        ensures
            match r {
                Some(off) => idx < self.config.block_count && off == layout::pool_of(self.config).block(
                    idx as int,
                ),
                None => idx >= self.config.block_count,
            },
    {
        if idx >= self.config.block_count {
            return None;
        }
        let pool: PoolLayout = self.pool();
        Some(pool.block_off(idx))
    }

    /// Takes a block from the pool.
    pub fn alloc_block(&mut self) -> (r: Option<u32>)
        requires
            old(self).wf(),
        ensures
            final(self).wf(),
            old(self).same_segment(final(self)),
            final(self).last_freed == old(self).last_freed,
            r matches Some(idx) ==> idx < old(self).config.block_count,
            layout::pool_of(old(self).config).took(old(self).mem, final(self).mem, r),
            old(self).mem.exclusive() ==> {
                &&& r == layout::pool_of(old(self).config).alloc_choice(old(self).mem.image())
                &&& final(self).mem.image() == layout::pool_of(old(self).config).after_alloc(
                    old(self).mem.image(),
                )
            },
    {
        let pool: PoolLayout = self.pool();
        pool.alloc_block(&mut self.mem)
    }

    /// Takes the warm block, if there is one.
    pub fn alloc_recycled(&mut self) -> (r: Option<u32>)
        ensures
            final(self).mem == old(self).mem,
            final(self).config == old(self).config,
            final(self).last_freed == NO_BLOCK,
            old(self).wf() ==> final(self).wf(),
            r == (if old(self).last_freed == NO_BLOCK {
                None::<u32>
            } else {
                Some(old(self).last_freed)
            }),
    {
        let idx: u32 = self.last_freed;
        self.last_freed = NO_BLOCK;
        if idx != NO_BLOCK {
            Some(idx)
        } else {
            None
        }
    }

    /// Gives a block back to the pool. An index outside of the pool is ignored.
    pub fn free_block(&mut self, idx: u32)
        requires
            old(self).wf(),
        ensures
            final(self).wf(),
            old(self).same_segment(final(self)),
            final(self).last_freed == old(self).last_freed,
            layout::pool_of(old(self).config).gave(old(self).mem, final(self).mem, idx),
            old(self).mem.exclusive() ==> final(self).mem.image() == layout::pool_of(
                old(self).config,
            ).after_free(old(self).mem.image(), idx),
    {
        let pool: PoolLayout = self.pool();
        pool.free_block(&mut self.mem, idx);
    }

    /// Puts all blocks on the free list.
    pub fn init_free_list(&mut self)
        requires
            old(self).wf(),
        ensures
            final(self).wf(),
            old(self).same_segment(final(self)),
            final(self).last_freed == old(self).last_freed,
            old(self).mem.exclusive() ==> final(self).mem.image() == layout::pool_of(
                old(self).config,
            ).after_init(old(self).mem.image()),
    {
        let pool: PoolLayout = self.pool();
        pool.init_free_list(&mut self.mem);
    }

    /// Bytes of data that a block can hold.
    pub fn data_capacity(&self) -> (r: usize)
        requires
            self.wf(),
        ensures
            r == capacity_of(self.config),
    {
        self.config.block_size as usize - BLOCK_DATA_OFFSET
    }

    /// Records that the publisher is alive at `now`, the microseconds since the
    /// epoch; `None` stands for a clock that cannot tell. The heartbeat never
    /// goes back.
    pub fn update_heartbeat(&mut self, now: Option<u64>) -> (r: Result<(), Error>)
        requires
            old(self).wf(),
        ensures
            final(self).wf(),
            old(self).same_segment(final(self)),
            final(self).last_freed == old(self).last_freed,
            now is Some <==> r is Ok,
            r matches Err(e) ==> e is ClockError && *final(self) == *old(self),
            r is Ok ==> exists|was: u64|
                final(self).mem.accesses() == old(self).mem.accesses().push(
                    #[trigger] memory::raised(GH_HEARTBEAT as int, now->0, was),
                ),
            old(self).mem.exclusive() && now is Some ==> final(self).mem.image()
                == memory::put64(
                old(self).mem.image(),
                GH_HEARTBEAT as int,
                memory::larger_u64(
                    memory::u64_at(old(self).mem.image(), GH_HEARTBEAT as int),
                    now->0,
                ),
            ),
    {
        proof {
            layout::lemma_layout(self.config);
        }
        match now {
            None => Err(Error::ClockError),
            Some(t) => {
                let _before: u64 = self.mem.fetch_max_u64(GH_HEARTBEAT, t);
                assert(self.mem.accesses() == old(self).mem.accesses().push(
                    memory::raised(GH_HEARTBEAT as int, t, _before),
                ));
                Ok(())
            },
        }
    }

    /// Refuses a segment whose heartbeat is older than its stale timeout.
    pub fn check_heartbeat(&self, now: Option<u64>) -> (r: Result<(), Error>)
        requires
            self.wf(),
        ensures
            now is None ==> (r matches Err(e) && e is ClockError),
            now is Some && r is Err ==> r->Err_0 is PublisherDead,
            self.mem.exclusive() && now is Some ==> (r is Err <==> now->0 > memory::u64_at(
                self.mem.image(),
                GH_HEARTBEAT as int,
            ) + self.config.stale_timeout_us),
    {
        proof {
            layout::lemma_layout(self.config);
        }
        let hb: u64 = self.mem.load_u64(GH_HEARTBEAT);
        match now {
            None => Err(Error::ClockError),
            Some(t) => {
                if t.saturating_sub(hb) > self.config.stale_timeout_us {
                    Err(Error::PublisherDead)
                } else {
                    Ok(())
                }
            },
        }
    }

    /// Publishes the pinned block of a topic: the next sequence number and the
    /// data length become visible at once. Says whether a sleeping subscriber
    /// is to be woken.
    pub fn commit_pinned(&mut self, data_len: u32, topic_idx: u32) -> (wake: bool)
        requires
            old(self).wf(),
            topic_idx < old(self).config.max_topics,
        ensures
            final(self).wf(),
            old(self).same_segment(final(self)),
            final(self).last_freed == old(self).last_freed,
            exists|was: u64|
                final(self).mem.accesses() == old(self).mem.accesses()
                    + #[trigger] pinned_stores(topic_idx as int, data_len, was),
            old(self).mem.exclusive() ==> {
                &&& final(self).mem.image() == after_commit_pinned(
                    old(self).mem.image(),
                    topic_idx as int,
                    data_len,
                )
                &&& wake == (waiters(old(self).mem.image(), topic_idx as int) > 0)
            },
    {
        proof {
            layout::lemma_layout(self.config);
            layout::lemma_topic(self.config, topic_idx as int);
        }
        let off: usize = topic_entry_off(topic_idx);
        let before: u64 = self.mem.fetch_add_u64(off + TE_WRITE_SEQ, 1);
        let seq: u64 = before.wrapping_add(1);
        let word: u64 = pool::pack((seq % 0x1_0000_0000) as u32, data_len);
        self.mem.store_u64(off + TE_PINNED_SEQ, word);
        assert(self.mem.accesses() =~= old(self).mem.accesses() + pinned_stores(
            topic_idx as int,
            data_len,
            before,
        ));
        self.mem.load_u32(off + TE_WAITERS) > 0
    }

    /// Names the pinned block of a topic.
    pub fn set_pinned_block(&mut self, topic_idx: u32, block_idx: u32)
        requires
            old(self).wf(),
            topic_idx < old(self).config.max_topics,
        ensures
            final(self).wf(),
            old(self).same_segment(final(self)),
            final(self).last_freed == old(self).last_freed,
            final(self).mem.accesses() == old(self).mem.accesses().push(
                (Access::Word32 {
                    off: layout::topic_off(topic_idx as int) + TE_PINNED_BLOCK,
                    v: block_idx,
                }),
            ),
            old(self).mem.exclusive() ==> final(self).mem.image() == memory::put32(
                old(self).mem.image(),
                layout::topic_off(topic_idx as int) + TE_PINNED_BLOCK,
                block_idx,
            ),
    {
        proof {
            layout::lemma_layout(self.config);
            layout::lemma_topic(self.config, topic_idx as int);
        }
        let off: usize = topic_entry_off(topic_idx);
        self.mem.store_u32(off + TE_PINNED_BLOCK, block_idx);
    }

    /// The pinned block of a topic.
    pub fn pinned_block(&self, topic_idx: u32) -> (r: u32)
        requires
            self.wf(),
            topic_idx < self.config.max_topics,
        ensures
            self.mem.exclusive() ==> r == pinned_block_of(self.mem.image(), topic_idx as int),
    {
        proof {
            layout::lemma_layout(self.config);
            layout::lemma_topic(self.config, topic_idx as int);
        }
        let off: usize = topic_entry_off(topic_idx);
        self.mem.load_u32(off + TE_PINNED_BLOCK)
    }

    /// Waits until nobody writes the ring entry at `off`, and marks it as being
    /// written: by an exchange, so that no two parties have it at a time.
    fn claim_entry(&mut self, off: usize)
        requires
            off + 8 <= old(self).mem.image().len(),
            old(self).mem.exclusive() ==> memory::u64_at(old(self).mem.image(), off as int)
                != SEQ_WRITING,
        ensures
            old(self).same_segment(final(self)),
            final(self).last_freed == old(self).last_freed,
            exists|tries: memory::Accesses|
                {
                    &&& final(self).mem.accesses() == old(self).mem.accesses() + tries
                    &&& #[trigger] claims(tries, off as int)
                },
            old(self).mem.exclusive() ==> final(self).mem.image() == memory::put64(
                old(self).mem.image(),
                off as int,
                SEQ_WRITING,
            ),
    {
        let ghost mut tries: memory::Accesses = Seq::empty();
        assert(old(self).mem.accesses() + tries =~= old(self).mem.accesses());
        loop
            invariant
                off + 8 <= self.mem.image().len(),
                old(self).same_segment(self),
                self.last_freed == old(self).last_freed,
                self.mem.accesses() == old(self).mem.accesses() + tries,
                forall|i: int|
                    0 <= i < tries.len() ==> tries_entry(#[trigger] tries[i], off as int, false),
                self.mem.exclusive() ==> self.mem.image() == old(self).mem.image()
                    && memory::u64_at(self.mem.image(), off as int) != SEQ_WRITING,
            decreases self.mem.contention(),
        {
            let current: u64 = self.mem.wait_while_u64(off, SEQ_WRITING);
            let swapped: Result<u64, u64> = self.mem.compare_exchange_u64(
                off,
                current,
                SEQ_WRITING,
            );
            proof {
                let last = Access::Exchange64 {
                    off: off as int,
                    current,
                    new: SEQ_WRITING,
                    found: swapped,
                };
                tries = tries.push(last);
                assert(self.mem.accesses() =~= old(self).mem.accesses() + tries);
                assert(tries_entry(last, off as int, swapped is Ok));
            }
            if swapped.is_ok() {
                assert(claims(tries, off as int));
                return ;
            }
        }
    }

    /// Lets one reference to a block go on behalf of the publisher. The last
    /// reference makes it the warm block.
    fn recycle_block(&mut self, block_idx: u32)
        requires
            old(self).wf(),
        ensures
            final(self).wf(),
            old(self).same_segment(final(self)),
            exists|ops: memory::Accesses|
                {
                    &&& final(self).mem.accesses() == old(self).mem.accesses() + ops
                    &&& #[trigger] recycles(
                        old(self).config,
                        ops,
                        block_idx,
                        old(self).last_freed,
                    )
                },
            old(self).mem.exclusive() ==> (final(self).mem.image(), final(self).last_freed)
                == after_recycle(
                old(self).config,
                old(self).mem.image(),
                old(self).last_freed,
                block_idx,
            ),
    {
        let ghost c = self.config;
        let ghost first = self.mem.accesses();
        let ghost old_warm = self.last_freed;
        match self.block_off_checked(block_idx) {
            None => {
                proof {
                    let none = Seq::<Access>::empty();
                    assert(first + none =~= first);
                    assert(recycles(c, none, block_idx, old_warm));
                }
            },
            Some(off) => {
                proof {
                    lemma_block_parts(self.config, block_idx as int);
                }
                let before: u32 = self.mem.fetch_sub_u32(off + BK_REFCOUNT, 1);
                let ghost down = Access::Subtract32 {
                    off: refcount_off(c, block_idx as int),
                    v: 1,
                    was: before,
                };
                let ghost mid = self.mem.accesses();
                let ghost mut rest: memory::Accesses = Seq::empty();
                if before == 1 {
                    let warm: u32 = self.last_freed;
                    self.last_freed = block_idx;
                    if warm != NO_BLOCK {
                        self.free_block(warm);
                        proof {
                            rest = choose|ops: memory::Accesses|
                                self.mem.accesses() == mid + ops && #[trigger] layout::pool_of(
                                    c,
                                ).gives(ops, warm);
                        }
                    }
                }
                proof {
                    let ops = seq![down] + rest;
                    assert(lets_go(c, rest, before, old_warm));
                    assert(recycles(c, ops, block_idx, old_warm));
                    assert(self.mem.accesses() =~= first + ops);
                }
            },
        }
    }

    /// Puts a block into the ring slot of the next sequence number of a topic,
    /// and gives back the block that was there.
    #[verifier::rlimit(40)]
    fn fill_entry(
        &mut self,
        block_idx: u32,
        data_len: u32,
        topic_idx: u32,
        single_publisher: bool,
    ) -> (replaced: u32)
        requires
            old(self).wf(),
            topic_idx < old(self).config.max_topics,
            block_idx < old(self).config.block_count,
            old(self).mem.exclusive() && !single_publisher ==> ring_seq(
                old(self).config,
                old(self).mem.image(),
                topic_idx as int,
                layout::slot_of(old(self).config, next_seq(old(self).mem.image(), topic_idx as int)),
            ) != SEQ_WRITING,
        ensures
            final(self).wf(),
            old(self).same_segment(final(self)),
            final(self).last_freed == old(self).last_freed,
            exists|was: u64, marks: memory::Accesses|
                {
                    &&& final(self).mem.accesses() == old(self).mem.accesses() + entry_stores(
                        old(self).config,
                        topic_idx as int,
                        block_idx,
                        data_len,
                        was,
                        marks,
                    )
                    &&& #[trigger] marks_entry(
                        old(self).config,
                        topic_idx as int,
                        was,
                        marks,
                        single_publisher,
                    )
                },
            old(self).mem.exclusive() ==> {
                &&& final(self).mem.image() == with_entry(
                    old(self).config,
                    old(self).mem.image(),
                    topic_idx as int,
                    block_idx,
                    data_len,
                )
                &&& replaced == ring_block(
                    old(self).config,
                    old(self).mem.image(),
                    topic_idx as int,
                    layout::slot_of(
                        old(self).config,
                        next_seq(old(self).mem.image(), topic_idx as int),
                    ),
                )
            },
    {
        let ghost c = self.config;
        let ghost m = self.mem.image();
        let ghost t = topic_idx as int;
        proof {
            layout::lemma_layout(c);
            layout::lemma_topic(c, t);
            lemma_block_parts(c, block_idx as int);
        }
        let topic: usize = topic_entry_off(topic_idx);
        let before: u64 = self.mem.fetch_add_u64(topic + TE_WRITE_SEQ, 1);
        let seq: u64 = before.wrapping_add(1);
        let slot: u32 = (seq % self.config.ring_depth as u64) as u32;
        proof {
            layout::lemma_ring(c, t, slot as int);
        }
        let e: usize = ring_entry_off(&self.config, topic_idx, slot);
        let ghost n = self.mem.image();
        let ghost counted = self.mem.accesses();
        let ghost mut marks: memory::Accesses = Seq::empty();
        if single_publisher {
            self.mem.store_u64(e + RE_SEQ, SEQ_WRITING);
            proof {
                marks = seq![Access::Word64 { off: e + RE_SEQ, v: SEQ_WRITING }];
                assert(self.mem.accesses() =~= counted + marks);
            }
        } else {
            self.claim_entry(e + RE_SEQ);
            proof {
                marks = choose|tries: memory::Accesses|
                    self.mem.accesses() == counted + tries && #[trigger] claims(
                        tries,
                        e + RE_SEQ,
                    );
            }
        }
        let replaced: u32 = self.mem.load_u32(e + RE_BLOCK_IDX);
        let pool: PoolLayout = self.pool();
        let block: usize = pool.block_off(block_idx);
        self.mem.store_u32(block + BK_REFCOUNT, 1);
        self.mem.store_u32(e + RE_BLOCK_IDX, block_idx);
        self.mem.store_u32(e + RE_DATA_LEN, data_len);
        self.mem.store_u64(e + RE_SEQ, seq);
        proof {
            assert(marks_entry(c, t, before, marks, single_publisher));
            assert(self.mem.accesses() =~= old(self).mem.accesses() + entry_stores(
                c,
                t,
                block_idx,
                data_len,
                before,
                marks,
            ));
            if self.mem.exclusive() {
                lemma_entry_written(
                    n,
                    refcount_off(c, block_idx as int),
                    e as int,
                    block_idx,
                    data_len,
                    seq,
                );
            }
        }
        replaced
    }

    /// Publishes a block on a topic: claims the next sequence number, puts the
    /// block into the ring slot of that number, and lets the block go that was
    /// there. Says whether a sleeping subscriber is to be woken, which only a
    /// publication that wakes asks for.
    ///
    /// While other publishers share the topic, a slot that one of them is
    /// writing is waited for; with `single_publisher` it is taken at once.
    pub fn commit_to_ring(
        &mut self,
        block_idx: u32,
        data_len: u32,
        topic_idx: u32,
        wake: bool,
        single_publisher: bool,
    ) -> (r: bool)
        requires
            old(self).wf(),
            topic_idx < old(self).config.max_topics,
            block_idx < old(self).config.block_count,
            old(self).mem.exclusive() && !single_publisher ==> ring_seq(
                old(self).config,
                old(self).mem.image(),
                topic_idx as int,
                layout::slot_of(old(self).config, next_seq(old(self).mem.image(), topic_idx as int)),
            ) != SEQ_WRITING,
        ensures
            final(self).wf(),
            old(self).same_segment(final(self)),
            exists|ops: memory::Accesses|
                {
                    &&& final(self).mem.accesses() == old(self).mem.accesses() + ops
                    &&& #[trigger] commits(
                        old(self).config,
                        ops,
                        topic_idx as int,
                        block_idx,
                        data_len,
                        single_publisher,
                        old(self).last_freed,
                    )
                },
            old(self).mem.exclusive() ==> {
                &&& (final(self).mem.image(), final(self).last_freed) == after_commit(
                    old(self).config,
                    old(self).mem.image(),
                    old(self).last_freed,
                    topic_idx as int,
                    block_idx,
                    data_len,
                )
                &&& r == (wake && waiters(old(self).mem.image(), topic_idx as int) > 0)
            },
    {
        proof {
            layout::lemma_layout(self.config);
            layout::lemma_topic(self.config, topic_idx as int);
        }
        let topic: usize = topic_entry_off(topic_idx);
        let ghost first = self.mem.accesses();
        let replaced: u32 = self.fill_entry(block_idx, data_len, topic_idx, single_publisher);
        let ghost filled = self.mem.accesses();
        proof {
            lemma_recycle_keeps_topics(
                self.config,
                self.mem.image(),
                self.last_freed,
                replaced,
                layout::topic_off(topic_idx as int) + TE_WAITERS,
            );
            if self.mem.exclusive() {
                lemma_entry_keeps_waiters(
                    self.config,
                    old(self).mem.image(),
                    topic_idx as int,
                    block_idx,
                    data_len,
                );
            }
        }
        self.recycle_block(replaced);
        proof {
            lemma_commits(
                self.config,
                first,
                filled,
                self.mem.accesses(),
                topic_idx as int,
                block_idx,
                data_len,
                single_publisher,
                replaced,
                old(self).last_freed,
            );
        }
        wake && self.mem.load_u32(topic + TE_WAITERS) > 0
    }
}

/// Filling an entry and letting go what was in it is a publication.
proof fn lemma_commits(
    c: PubSubConfig,
    first: memory::Accesses,
    filled: memory::Accesses,
    last: memory::Accesses,
    topic: int,
    block: u32,
    len: u32,
    single_publisher: bool,
    replaced: u32,
    warm: u32,
)
    requires
        exists|was: u64, marks: memory::Accesses|
            {
                &&& filled == first + entry_stores(c, topic, block, len, was, marks)
                &&& #[trigger] marks_entry(c, topic, was, marks, single_publisher)
            },
        exists|ops: memory::Accesses|
            last == filled + ops && #[trigger] recycles(c, ops, replaced, warm),
    ensures
        exists|ops: memory::Accesses|
            {
                &&& last == first + ops
                &&& #[trigger] commits(c, ops, topic, block, len, single_publisher, warm)
            },
{
    let (was, marks) = choose|was: u64, marks: memory::Accesses|
        {
            &&& filled == first + entry_stores(c, topic, block, len, was, marks)
            &&& #[trigger] marks_entry(c, topic, was, marks, single_publisher)
        };
    let rest = choose|ops: memory::Accesses|
        last == filled + ops && #[trigger] recycles(c, ops, replaced, warm);
    let ops = entry_stores(c, topic, block, len, was, marks) + rest;
    assert(last =~= first + ops);
    assert(commits(c, ops, topic, block, len, single_publisher, warm));
}

/// The mark of an entry that is being written leaves no trace once the entry
/// has its sequence number.
pub proof fn lemma_entry_written(m: Seq<u8>, r: int, e: int, block: u32, len: u32, seq: u64)
    requires
        0 <= e,
        e + 16 <= r,
        r + 4 <= m.len(),
    ensures
        memory::put64(
            memory::put32(
                memory::put32(
                    memory::put32(memory::put64(m, e + RE_SEQ, SEQ_WRITING), r, 1),
                    e + RE_BLOCK_IDX,
                    block,
                ),
                e + RE_DATA_LEN,
                len,
            ),
            e + RE_SEQ,
            seq,
        ) == memory::put64(
            memory::put32(
                memory::put32(memory::put32(m, r, 1), e + RE_BLOCK_IDX, block),
                e + RE_DATA_LEN,
                len,
            ),
            e + RE_SEQ,
            seq,
        ),
{
    let w = memory::le64(SEQ_WRITING);
    let one = memory::le32(1);
    let b = memory::le32(block);
    let l = memory::le32(len);
    let s = memory::le64(seq);
    let m1 = memory::put(m, r, one);
    let m2 = memory::put(m1, e + RE_BLOCK_IDX, b);
    let m3 = memory::put(m2, e + RE_DATA_LEN, l);
    assert(memory::put(memory::put(m, e + RE_SEQ, w), r, one) =~= memory::put(m1, e + RE_SEQ, w));
    assert(memory::put(memory::put(m1, e + RE_SEQ, w), e + RE_BLOCK_IDX, b) =~= memory::put(
        m2,
        e + RE_SEQ,
        w,
    ));
    assert(memory::put(memory::put(m2, e + RE_SEQ, w), e + RE_DATA_LEN, l) =~= memory::put(
        m3,
        e + RE_SEQ,
        w,
    ));
    assert(memory::put(memory::put(m3, e + RE_SEQ, w), e + RE_SEQ, s) =~= memory::put(
        m3,
        e + RE_SEQ,
        s,
    ));
}

/// Filling a ring entry does not touch the count of sleeping subscribers.
proof fn lemma_entry_keeps_waiters(
    c: PubSubConfig,
    m: Seq<u8>,
    topic: int,
    block: u32,
    len: u32,
)
    requires
        layout::valid_config(c),
        layout::region_size(c) <= m.len(),
        0 <= topic < c.max_topics,
        block < c.block_count,
    ensures
        waiters(with_entry(c, m, topic, block, len), topic) == waiters(m, topic),
{
    layout::lemma_layout(c);
    layout::lemma_topic(c, topic);
    lemma_block_parts(c, block as int);
    layout::lemma_ring(c, topic, layout::slot_of(c, next_seq(m, topic)));
}

/// Letting a block go does not touch what lies between the list head and the
/// pool.
pub proof fn lemma_recycle_keeps_topics(
    c: PubSubConfig,
    m: Seq<u8>,
    warm: u32,
    block: u32,
    at: int,
)
    requires
        layout::valid_config(c),
        layout::region_size(c) <= m.len(),
        HEADER_SIZE <= at,
        at + 4 <= layout::pool_off(c),
    ensures
        memory::u32_at(after_recycle(c, m, warm, block).0, at) == memory::u32_at(
            m,
            at,
        ),
{
    layout::lemma_layout(c);
    if block < c.block_count {
        lemma_block_parts(c, block as int);
    }
    if warm < c.block_count {
        lemma_block_parts(c, warm as int);
    }
}

/// Lets a reference to a block go on behalf of a subscriber; the last one gives
/// the block back to the pool.
pub fn release_block<M: SharedMemory>(region: &mut Region<M>, block_idx: u32)
    requires
        old(region).wf(),
    ensures
        final(region).wf(),
        old(region).same_segment(final(region)),
        final(region).last_freed == old(region).last_freed,
        exists|ops: memory::Accesses|
            {
                &&& final(region).mem.accesses() == old(region).mem.accesses() + ops
                &&& #[trigger] reading::releases(
                    layout::pool_of(old(region).config),
                    ops,
                    refcount_off(old(region).config, block_idx as int),
                    block_idx,
                )
            },
        old(region).mem.exclusive() ==> final(region).mem.image() == after_release(
            old(region).config,
            old(region).mem.image(),
            block_idx,
        ),
{
    let ghost p = layout::pool_of(region.config);
    let ghost count = refcount_off(region.config, block_idx as int);
    let ghost first = region.mem.accesses();
    match region.block_off_checked(block_idx) {
        None => {
            proof {
                let none = Seq::<Access>::empty();
                assert(first + none =~= first);
                assert(reading::releases(p, none, count, block_idx));
            }
        },
        Some(off) => {
            proof {
                lemma_block_parts(region.config, block_idx as int);
            }
            let before: u32 = region.mem.fetch_sub_u32(off + BK_REFCOUNT, 1);
            let ghost mid = region.mem.accesses();
            let ghost mut rest: memory::Accesses = Seq::empty();
            if before == 1 {
                region.free_block(block_idx);
                proof {
                    rest = choose|ops: memory::Accesses|
                        region.mem.accesses() == mid + ops && #[trigger] p.gives(ops, block_idx);
                }
            }
            proof {
                let down = Access::Subtract32 { off: count, v: 1, was: before };
                let ops = seq![down] + rest;
                assert(reading::released_last(p, rest, before, block_idx));
                assert(reading::releases(p, ops, count, block_idx));
                assert(region.mem.accesses() =~= first + ops);
            }
        },
    }
}

} // verus!
