//! Receiving samples.

use crate::error::Error;
use crate::memory::{self, Access, Accesses, SharedMemory};
use crate::pod::{self, Pod};
use crate::protocol::config::PubSubConfig;
use crate::protocol::layout::{
    self, ring_entry_off, topic_entry_off, BK_REFCOUNT, BLOCK_DATA_OFFSET, PINNED_WRITER_ACTIVE,
    RE_BLOCK_IDX, RE_DATA_LEN, RE_SEQ, TE_PINNED_BLOCK, TE_PINNED_READERS, TE_PINNED_SEQ,
    TE_SUBSCRIBER_COUNT, TE_WAITERS, TE_WRITE_SEQ,
};
use crate::protocol::pool;
use crate::protocol::reading::{self, EntryLook, EntryPlace, PinnedLook};
use crate::protocol::region::{self, release_block, Region};
use crate::wait::{spin, WaitStrategy};
use std::marker::PhantomData;
use vstd::prelude::*;

verus! {

broadcast use crate::memory::group_memory;

/// A subscription to one topic.
pub struct Subscription<M: SharedMemory> {
    /// The segment.
    pub region: Region<M>,
    /// The topic.
    pub topic_idx: u32,
    /// Sequence number of the sample received last.
    pub last_seq: u64,
    /// Size of the topic's type, 0 if it has none.
    pub type_size: u32,
}

/// A received sample. It keeps its block alive until it is released.
#[derive(Debug)]
pub struct SampleGuard {
    /// The block.
    pub block_idx: u32,
    /// Length of the data.
    pub len: usize,
}

/// A received value of a plain type. It keeps its block alive until it is
/// released.
#[derive(Debug)]
pub struct TypedSampleGuard<T: Pod> {
    /// The block.
    pub block_idx: u32,
    /// The type of the value.
    pub marker: PhantomData<T>,
}

/// A received pinned sample. It keeps the publisher from writing the block
/// until it is released.
#[derive(Debug)]
pub struct PinnedGuard {
    /// The topic.
    pub topic_idx: u32,
    /// The block.
    pub block_idx: u32,
    /// Length of the data.
    pub len: usize,
}

/// What a ring slot says of a sample.
#[derive(Clone, Copy, Debug, PartialEq, Eq, Structural)]
pub struct SlotRead {
    /// The block.
    pub block_idx: u32,
    /// Length of the data.
    pub data_len: u32,
}

/// The sample of a sequence number can be received: its slot still holds it,
/// names a block of the pool and a length that fits, and somebody keeps the
/// block alive. A reference count that cannot grow keeps readers out.
pub open spec fn readable(c: PubSubConfig, m: Seq<u8>, topic: int, seq: u64) -> bool {
    let slot = layout::slot_of(c, seq);
    let block = region::ring_block(c, m, topic, slot);
    &&& region::ring_seq(c, m, topic, slot) == seq
    &&& block < c.block_count
    &&& region::ring_len(c, m, topic, slot) <= region::capacity_of(c)
    &&& 0 < region::refcount(c, m, block as int) < u32::MAX
}

/// The first sequence number of a window whose sample can be received.
pub open spec fn first_readable(
    c: PubSubConfig,
    m: Seq<u8>,
    topic: int,
    from: int,
    to: int,
) -> Option<u64>
    decreases to - from + 1,
{
    if from > to {
        None
    } else if readable(c, m, topic, from as u64) {
        Some(from as u64)
    } else {
        first_readable(c, m, topic, from + 1, to)
    }
}

/// Where a receiver looks first: behind the sample received last, but no
/// further back than the ring reaches.
pub open spec fn window_start(depth: u32, newest: u64, last: u64) -> int {
    if newest - (last + 1) >= depth {
        newest - depth + 1
    } else {
        last + 1
    }
}

/// The sequence number of the sample that is received next, if there is one.
pub open spec fn next_readable(c: PubSubConfig, m: Seq<u8>, topic: int, last: u64) -> Option<u64> {
    let newest = region::write_seq(m, topic);
    if newest <= last {
        None
    } else {
        first_readable(c, m, topic, window_start(c.ring_depth, newest, last), newest as int)
    }
}

/// The segment after a reference to a block was taken.
pub open spec fn after_acquire(c: PubSubConfig, m: Seq<u8>, block: u32) -> Seq<u8> {
    memory::put32(
        m,
        region::refcount_off(c, block as int),
        (region::refcount(c, m, block as int) + 1) as u32,
    )
}

/// What a ring slot says of a sample, as a pair.
pub open spec fn block_and_len(r: Option<SlotRead>) -> Option<(u32, u32)> {
    match r {
        Some(s) => Some((s.block_idx, s.data_len)),
        None => None,
    }
}

/// Where the ring entry of a sequence number lies.
pub open spec fn entry_place(c: PubSubConfig, topic: int, seq: u64) -> EntryPlace {
    let e = layout::ring_off(c, topic, layout::slot_of(c, seq));
    EntryPlace {
        seq: e + RE_SEQ,
        block: e + RE_BLOCK_IDX,
        len: e + RE_DATA_LEN,
        pool: layout::pool_of(c),
        refcount: BK_REFCOUNT as int,
    }
}

/// What was received, as the ring slot said it.
pub open spec fn slot_of_guard(r: Option<SampleGuard>) -> Option<SlotRead> {
    match r {
        Some(g) => Some(SlotRead { block_idx: g.block_idx, data_len: g.len as u32 }),
        None => None,
    }
}

/// A look at the word that a sleeping subscriber watches.
pub open spec fn seen_look(topic: int, seen: u32) -> Access {
    Access::Look32 { off: layout::topic_off(topic) + TE_WRITE_SEQ, found: seen }
}

/// A subscriber counts as sleeping.
pub open spec fn sleeper_in(topic: int, was: u32) -> Access {
    Access::Add32 { off: layout::topic_off(topic) + TE_WAITERS, v: 1, was }
}

/// A look at the number of the newest sample of a topic.
pub open spec fn newest_look(topic: int, newest: u64) -> Access {
    Access::Look64 { off: layout::topic_off(topic) + TE_WRITE_SEQ, found: newest }
}

/// Samples were tried in turn, from `from` on, and none could be taken.
pub open spec fn passed_all(
    c: PubSubConfig,
    topic: int,
    from: int,
    parts: Seq<Accesses>,
) -> bool {
    forall|i: int|
        0 <= i < parts.len() ==> entry_place(c, topic, (from + i) as u64).tried(
            (from + i) as u64,
            #[trigger] parts[i],
            None,
        )
}

/// What a look for the next sample behind `last` does that finds `newest` to be the
/// newest one: the samples of the window are tried in turn, until one is taken;
/// there is none only if all of them were tried. `then_last` is the sample received
/// last after that.
pub open spec fn scanned(
    c: PubSubConfig,
    topic: int,
    last: u64,
    newest: u64,
    parts: Seq<Accesses>,
    end: Accesses,
    r: Option<SlotRead>,
    then_last: u64,
) -> bool {
    let from = window_start(c.ring_depth, newest, last);
    if newest <= last {
        parts.len() == 0 && end.len() == 0 && r is None && then_last == last
    } else {
        &&& passed_all(c, topic, from, parts)
        &&& match r {
            Some(s) => {
                &&& from + parts.len() <= newest
                &&& then_last == from + parts.len()
                &&& entry_place(c, topic, then_last).took(
                    then_last,
                    end,
                    s.block_idx,
                    s.data_len,
                )
            },
            None => {
                &&& from + parts.len() == newest + 1
                &&& end.len() == 0
                &&& then_last == last
            },
        }
    }
}

/// What a look for the next sample behind `last` does.
pub open spec fn looked_for(
    c: PubSubConfig,
    topic: int,
    last: u64,
    ops: Accesses,
    r: Option<SlotRead>,
    then_last: u64,
) -> bool {
    exists|newest: u64, parts: Seq<Accesses>, end: Accesses|
        {
            &&& ops == seq![newest_look(topic, newest)] + reading::joined(parts) + end
            &&& #[trigger] scanned(c, topic, last, newest, parts, end, r, then_last)
        }
}

/// An attempt to count one more reader of a pinned block, while the publisher is
/// not writing it.
pub open spec fn tries_pinned(a: Access, off: int, done: bool) -> bool {
    a matches Access::Exchange32 { off: at, current, new, found } && {
        &&& at == off
        &&& current < PINNED_WRITER_ACTIVE - 1
        &&& new == current + 1
        &&& (found is Ok) == done
    }
}

/// Attempts to count one more reader: the last one came about, or none.
pub open spec fn enters(tries: Accesses, off: int, done: bool) -> bool {
    &&& done ==> tries.len() > 0
    &&& forall|i: int|
        0 <= i < tries.len() ==> tries_pinned(
            #[trigger] tries[i],
            off,
            done && i == tries.len() - 1,
        )
}

/// The looks of a reader at the word of a pinned sample and its block.
pub open spec fn pinned_looks(topic: int, word: u64, block: u32) -> Accesses {
    seq![
        Access::Look64 { off: layout::topic_off(topic) + TE_PINNED_SEQ, found: word },
        Access::Look32 { off: layout::topic_off(topic) + TE_PINNED_BLOCK, found: block },
    ]
}

/// Where the readers of a pinned block are counted.
pub open spec fn readers_off(topic: int) -> int {
    layout::topic_off(topic) + TE_PINNED_READERS
}

/// A reader took a pinned sample: it saw the word and the block, was counted, and
/// found the word still there.
pub open spec fn took_pinned(topic: int, ops: Accesses, word: u64, block: u32) -> bool {
    exists|tries: Accesses|
        {
            &&& ops == pinned_looks(topic, word, block) + tries + seq![
                Access::Look64 { off: layout::topic_off(topic) + TE_PINNED_SEQ, found: word },
            ]
            &&& #[trigger] enters(tries, readers_off(topic), true)
        }
}

/// A reader took no pinned sample: it saw one that will not do, or was not
/// counted, or found another word after that and was counted off again.
pub open spec fn left_pinned(topic: int, ops: Accesses) -> bool {
    let off = layout::topic_off(topic) + TE_PINNED_SEQ;
    ||| exists|word: u64| ops == seq![#[trigger] reading::look(off, word)]
    ||| exists|word: u64, block: u32| ops == #[trigger] pinned_looks(topic, word, block)
    ||| exists|word: u64, block: u32, tries: Accesses|
        {
            &&& ops == #[trigger] pinned_looks(topic, word, block) + tries
            &&& #[trigger] enters(tries, readers_off(topic), false)
        }
    ||| exists|word: u64, block: u32, tries: Accesses, again: u64, was: u32|
        {
            &&& again != word
            &&& ops == #[trigger] pinned_looks(topic, word, block) + tries + #[trigger] leaves(
                topic,
                again,
                was,
            )
            &&& #[trigger] enters(tries, readers_off(topic), true)
        }
}

/// A reader of a pinned block is counted off.
pub open spec fn reader_gone(topic: int, was: u32) -> Access {
    Access::Subtract32 { off: readers_off(topic), v: 1, was }
}

/// A reader finds another word, and is counted off.
pub open spec fn leaves(topic: int, again: u64, was: u32) -> Accesses {
    seq![
        reading::look(layout::topic_off(topic) + TE_PINNED_SEQ, again),
        reader_gone(topic, was),
    ]
}

/// The sequence number of a packed pinned word.
pub open spec fn pinned_number(word: u64) -> u64 {
    pool::gen_of(word) as u64
}

/// A pinned sample can be received: there is one, it is newer than the last
/// one, its block and length are sound, and the publisher is not writing.
pub open spec fn pinned_readable(c: PubSubConfig, m: Seq<u8>, topic: int, last: u64) -> bool {
    let word = region::pinned_seq_of(m, topic);
    &&& word != 0
    &&& pinned_number(word) > last
    &&& region::pinned_block_of(m, topic) < c.block_count
    &&& pool::idx_of(word) <= region::capacity_of(c)
    &&& region::pinned_readers_of(m, topic) < PINNED_WRITER_ACTIVE - 1
}

/// What a blocked receiver does next.
#[derive(Clone, Copy, Debug, PartialEq, Eq, Structural)]
pub enum WaitStep {
    /// Issue this many spin hints, then look again.
    Spin(u32),
    /// Issue this many spin hints and check the publisher's heartbeat, then
    /// look again.
    SpinAndCheck(u32),
    /// Sleep until the topic's sequence number is no longer the one seen, at
    /// most this many milliseconds; on a timeout check the heartbeat. Look
    /// again once before falling asleep.
    Sleep(u64),
}

/// A blocked receiver between two looks at the topic.
#[derive(Clone, Copy, Debug, PartialEq, Eq, Structural)]
pub struct RecvWait {
    /// How to wait.
    pub strategy: WaitStrategy,
    /// Looks so far.
    pub iter: u32,
    /// Longest sleep in milliseconds.
    pub poll_ms: u64,
}

/// How a turn of a blocked receiver ends.
#[derive(Debug)]
pub enum RecvTurn<G> {
    /// There was a sample.
    Got(G),
    /// The publisher is dead.
    Failed(Error),
    /// There was none: take another turn.
    Again,
    /// There was none: sleep while the low half of the topic's sequence number
    /// is `seen`, at most for the given time, then call `end_sleep`, and take
    /// another turn.
    Sleep {
        /// The low half of the sequence number.
        seen: u32,
        /// Longest sleep in milliseconds.
        millis: u64,
    },
}

/// The longest sleep of a receiver: a third of the stale timeout, but between
/// 1 and 50 milliseconds.
pub open spec fn poll_interval(stale_timeout_us: u64) -> u64 {
    let third = stale_timeout_us / 1000 / 3;
    if third < 1 {
        1
    } else if third > 50 {
        50
    } else {
        third
    }
}

impl RecvWait {
    /// A receiver that begins to wait.
    pub fn new(strategy: WaitStrategy, stale_timeout_us: u64) -> (r: RecvWait)
        ensures
            r.strategy == strategy,
            r.iter == 0,
            r.poll_ms == poll_interval(stale_timeout_us),
    {
        let third: u64 = stale_timeout_us / 1000 / 3;
        let poll_ms: u64 = if third < 1 {
            1
        } else if third > 50 {
            50
        } else {
            third
        };
        RecvWait { strategy, iter: 0, poll_ms }
    }

    /// The receiver sleeps: its strategy is adaptive, and the spinning and
    /// yielding iterations are used up.
    pub open spec fn sleeps(&self) -> bool {
        match self.strategy {
            WaitStrategy::Adaptive { spin_iters, yield_iters } => self.iter
                >= crate::wait::capped_sum(spin_iters, yield_iters),
            _ => false,
        }
    }

    /// What to do after a look that found nothing.
    pub fn step(&mut self) -> (r: WaitStep)
        ensures
            final(self).strategy == old(self).strategy,
            final(self).poll_ms == old(self).poll_ms,
            old(self).sleeps() ==> r == WaitStep::Sleep(old(self).poll_ms) && final(self).iter
                == old(self).iter,
            !old(self).sleeps() ==> {
                let hints = crate::wait::hints_of(old(self).strategy, old(self).iter);
                &&& final(self).iter == crate::wait::capped_sum(old(self).iter, 1)
                &&& r == (if final(self).iter % 1024 == 0 {
                    WaitStep::SpinAndCheck(hints)
                } else {
                    WaitStep::Spin(hints)
                })
            },
    {
        if let WaitStrategy::Adaptive { spin_iters, yield_iters } = self.strategy {
            if self.iter >= spin_iters.saturating_add(yield_iters) {
                return WaitStep::Sleep(self.poll_ms);
            }
        }
        let hints: u32 = self.strategy.hints(self.iter);
        self.iter = self.iter.saturating_add(1);
        if self.iter % 1024 == 0 {
            WaitStep::SpinAndCheck(hints)
        } else {
            WaitStep::Spin(hints)
        }
    }
}

/// Seeing the word, looking for a sample and being counted, in this order, is
/// falling asleep.
proof fn lemma_fell_asleep<M: SharedMemory>(
    first: Accesses,
    watched: Subscription<M>,
    tried: Subscription<M>,
    asleep: Subscription<M>,
    seen: u32,
)
    requires
        watched.region.mem.accesses() == first.push(seen_look(watched.topic_idx as int, seen)),
        watched.looked(&tried, None),
        watched.same_stream(&tried),
        tried.same_stream(&asleep),
        tried.last_seq == watched.last_seq,
        asleep.last_seq == tried.last_seq,
        exists|was: u32|
            asleep.region.mem.accesses() == tried.region.mem.accesses().push(
                #[trigger] sleeper_in(tried.topic_idx as int, was),
            ),
    ensures
        asleep.fell_asleep(seen),
{
    let t = asleep.topic_idx as int;
    let was = choose|was: u32|
        asleep.region.mem.accesses() == tried.region.mem.accesses().push(
            #[trigger] sleeper_in(tried.topic_idx as int, was),
        );
    let ops = choose|ops: Accesses|
        {
            &&& tried.region.mem.accesses() == watched.region.mem.accesses() + ops
            &&& #[trigger] looked_for(
                watched.region.config,
                watched.topic_idx as int,
                watched.last_seq,
                ops,
                None,
                tried.last_seq,
            )
        };
    let all = seq![seen_look(t, seen)] + ops + seq![sleeper_in(t, was)];
    assert(asleep.region.mem.accesses() =~= first + all);
    reading::lemma_ends_with(first, all);
}

impl<M: SharedMemory> Subscription<M> {
    /// The segment is sound and the topic exists.
    pub open spec fn wf(&self) -> bool {
        &&& self.region.wf()
        &&& self.topic_idx < self.region.config.max_topics
    }

    /// `other` is the same subscription, of the same segment, at a later moment.
    pub open spec fn same_stream(&self, other: &Self) -> bool {
        &&& self.region.same_segment(&other.region)
        &&& other.region.last_freed == self.region.last_freed
        &&& other.topic_idx == self.topic_idx
        &&& other.type_size == self.type_size
    }

    /// What receiving the next sample does: `r` is the slot of the first sample
    /// of the window that can be received, which then has one reference more
    /// and is the last one received; without one nothing changes.
    pub open spec fn received(&self, after: &Self, r: Option<SlotRead>) -> bool {
        let c = self.region.config;
        let m = self.region.mem.image();
        let t = self.topic_idx as int;
        match next_readable(c, m, t, self.last_seq) {
            None => {
                &&& r is None
                &&& after.region.mem.image() == m
                &&& after.last_seq == self.last_seq
            },
            Some(seq) => {
                let slot = layout::slot_of(c, seq);
                &&& r matches Some(s)
                &&& s.block_idx == region::ring_block(c, m, t, slot)
                &&& s.data_len == region::ring_len(c, m, t, slot)
                &&& after.region.mem.image() == after_acquire(c, m, s.block_idx)
                &&& after.last_seq == seq
            },
        }
    }

    /// The newest sample that the subscription has was taken from its ring entry,
    /// and nothing was done after that: the last look still found its number.
    pub open spec fn took_last(&self, block: u32, len: u32) -> bool {
        exists|ops: Accesses|
            {
                &&& reading::ends_with(self.region.mem.accesses(), ops)
                &&& #[trigger] entry_place(
                    self.region.config,
                    self.topic_idx as int,
                    self.last_seq,
                ).took(self.last_seq, ops, block, len)
            }
    }

    /// A look for the next sample, with what it brought.
    pub open spec fn looked(&self, after: &Self, r: Option<SlotRead>) -> bool {
        exists|ops: Accesses|
            {
                &&& after.region.mem.accesses() == self.region.mem.accesses() + ops
                &&& #[trigger] looked_for(
                    self.region.config,
                    self.topic_idx as int,
                    self.last_seq,
                    ops,
                    r,
                    after.last_seq,
                )
            }
    }

    /// The same of a sample whose length does not matter.
    pub open spec fn took_last_typed(&self, block: u32) -> bool {
        exists|len: u32| #[trigger] self.took_last(block, len)
    }

    /// Receives the next sample, if there is one.
    pub fn try_recv(&mut self) -> (r: Option<SampleGuard>)
        requires
            old(self).wf(),
        ensures
            final(self).wf(),
            old(self).same_stream(final(self)),
            final(self).last_seq >= old(self).last_seq,
            r is None ==> final(self).last_seq == old(self).last_seq,
            r matches Some(g) ==> g.block_idx < old(self).region.config.block_count && g.len
                <= region::capacity_of(old(self).region.config),
            r matches Some(g) ==> final(self).took_last(g.block_idx, g.len as u32),
            old(self).looked(final(self), slot_of_guard(r)),
            old(self).region.mem.exclusive() ==> old(self).received(
                final(self),
                match r {
                    Some(g) => Some(
                        SlotRead { block_idx: g.block_idx, data_len: g.len as u32 },
                    ),
                    None => None,
                },
            ),
    {
        match self.scan() {
            Some(s) => Some(SampleGuard { block_idx: s.block_idx, len: s.data_len as usize }),
            None => None,
        }
    }

    /// Looks through the window of samples that are newer than the last one.
    fn scan(&mut self) -> (r: Option<SlotRead>)
        requires
            old(self).wf(),
        ensures
            final(self).wf(),
            old(self).same_stream(final(self)),
            final(self).last_seq >= old(self).last_seq,
            r is None ==> final(self).last_seq == old(self).last_seq,
            r matches Some(s) ==> s.block_idx < old(self).region.config.block_count && s.data_len
                <= region::capacity_of(old(self).region.config),
            r matches Some(s) ==> final(self).took_last(s.block_idx, s.data_len),
            old(self).looked(final(self), r),
            old(self).region.mem.exclusive() ==> old(self).received(final(self), r),
    {
        proof {
            layout::lemma_layout(self.region.config);
            layout::lemma_topic(self.region.config, self.topic_idx as int);
        }
        let topic: usize = topic_entry_off(self.topic_idx);
        let ghost c = self.region.config;
        let ghost t = self.topic_idx as int;
        let ghost m = self.region.mem.image();
        let ghost start_of = self.region.mem.accesses();
        let newest: u64 = self.region.mem.look_u64(topic + TE_WRITE_SEQ);
        let ghost look = seq![newest_look(t, newest)];
        let ghost mut parts: Seq<Accesses> = Seq::empty();
        let ghost none: Accesses = Seq::empty();
        if newest <= self.last_seq {
            proof {
                let ops = look + reading::joined(parts) + none;
                assert(self.region.mem.accesses() =~= start_of + ops);
                assert(scanned(
                    c,
                    t,
                    self.last_seq,
                    newest,
                    parts,
                    none,
                    None,
                    self.last_seq,
                ));
                assert(looked_for(c, t, self.last_seq, ops, None, self.last_seq));
            }
            return None;
        }
        let depth: u64 = self.region.config.ring_depth as u64;
        let start: u64 = self.last_seq + 1;
        let mut seq: u64 = if newest - start >= depth {
            newest - depth + 1
        } else {
            start
        };
        let ghost first = seq as int;
        assert(self.region.mem.accesses() =~= start_of + look + reading::joined(parts));
        loop
            invariant
                self.wf(),
                old(self).same_stream(self),
                self.last_seq == old(self).last_seq,
                c == self.region.config,
                m == old(self).region.mem.image(),
                t == self.topic_idx,
                first <= seq <= newest,
                old(self).last_seq < first,
                newest > self.last_seq,
                first == window_start(c.ring_depth, newest, self.last_seq),
                seq == first + parts.len(),
                passed_all(c, t, first, parts),
                start_of == old(self).region.mem.accesses(),
                look == seq![newest_look(t, newest)],
                none == Seq::<Access>::empty(),
                self.region.mem.accesses() == start_of + look + reading::joined(parts),
                self.region.mem.exclusive() ==> {
                    &&& self.region.mem.image() == m
                    &&& newest == region::write_seq(m, t)
                    &&& first_readable(c, m, t, first, newest as int) == first_readable(
                        c,
                        m,
                        t,
                        seq as int,
                        newest as int,
                    )
                },
            decreases newest - seq,
        {
            let ghost looked = self.region.mem.accesses();
            if let Some(s) = self.try_read_slot_raw(seq) {
                proof {
                    let place = entry_place(c, t, seq);
                    let ops = choose|ops: Accesses|
                        self.region.mem.accesses() == looked + ops && #[trigger] place.tried(
                            seq,
                            ops,
                            Some((s.block_idx, s.data_len)),
                        );
                    reading::lemma_ends_with(looked, ops);
                    assert(place.took(seq, ops, s.block_idx, s.data_len));
                    let all = look + reading::joined(parts) + ops;
                    assert(self.region.mem.accesses() =~= start_of + all);
                    assert(scanned(
                        c,
                        t,
                        old(self).last_seq,
                        newest,
                        parts,
                        ops,
                        Some(s),
                        seq,
                    ));
                    assert(looked_for(c, t, old(self).last_seq, all, Some(s), seq));
                }
                return Some(s);
            }
            proof {
                let place = entry_place(c, t, seq);
                let ops = choose|ops: Accesses|
                    self.region.mem.accesses() == looked + ops && #[trigger] place.tried(
                        seq,
                        ops,
                        None,
                    );
                reading::lemma_joined_push(parts, ops);
                let before = parts;
                parts = parts.push(ops);
                assert(self.region.mem.accesses() =~= start_of + look + reading::joined(parts));
                assert forall|i: int| 0 <= i < parts.len() implies entry_place(
                    c,
                    t,
                    (first + i) as u64,
                ).tried((first + i) as u64, #[trigger] parts[i], None) by {
                    if i < before.len() {
                        assert(parts[i] == before[i]);
                    }
                }
            }
            if seq >= newest {
                proof {
                    assert(first_readable(c, m, t, seq + 1, newest as int) is None);
                    let all = look + reading::joined(parts) + none;
                    assert(self.region.mem.accesses() =~= start_of + all);
                    assert(scanned(
                        c,
                        t,
                        self.last_seq,
                        newest,
                        parts,
                        none,
                        None,
                        self.last_seq,
                    ));
                    assert(looked_for(c, t, self.last_seq, all, None, self.last_seq));
                }
                return None;
            }
            seq = seq + 1;
        }
    }

    /// Tries to receive the sample of one sequence number: the slot must hold
    /// it before and after a reference to its block is taken.
    fn try_read_slot_raw(&mut self, seq: u64) -> (r: Option<SlotRead>)
        requires
            old(self).wf(),
        ensures
            final(self).wf(),
            old(self).same_stream(final(self)),
            r matches Some(s) ==> s.block_idx < old(self).region.config.block_count && s.data_len
                <= region::capacity_of(old(self).region.config),
            r is None ==> final(self).last_seq == old(self).last_seq,
            r is Some ==> final(self).last_seq == seq,
            exists|ops: Accesses|
                {
                    &&& final(self).region.mem.accesses() == old(self).region.mem.accesses() + ops
                    &&& #[trigger] entry_place(
                        old(self).region.config,
                        old(self).topic_idx as int,
                        seq,
                    ).tried(seq, ops, block_and_len(r))
                },
            old(self).region.mem.exclusive() ==> {
                let c = old(self).region.config;
                let m = old(self).region.mem.image();
                let t = old(self).topic_idx as int;
                let slot = layout::slot_of(c, seq);
                if readable(c, m, t, seq) {
                    &&& r matches Some(s)
                    &&& s.block_idx == region::ring_block(c, m, t, slot)
                    &&& s.data_len == region::ring_len(c, m, t, slot)
                    &&& final(self).region.mem.image() == after_acquire(c, m, s.block_idx)
                } else {
                    r is None && final(self).region.mem.image() == m
                }
            },
    {
        let ghost c = self.region.config;
        let ghost t = self.topic_idx as int;
        let ghost first = self.region.mem.accesses();
        let ghost place = entry_place(c, t, seq);
        let slot: u32 = (seq % self.region.config.ring_depth as u64) as u32;
        proof {
            layout::lemma_layout(c);
            layout::lemma_ring(c, t, slot as int);
        }
        let e: usize = ring_entry_off(&self.region.config, self.topic_idx, slot);
        let before: u64 = self.region.mem.look_u64(e + RE_SEQ);
        if before != seq {
            proof {
                let ops = seq![reading::look(place.seq, before)];
                assert(self.region.mem.accesses() =~= first + ops);
                assert(place.passed(seq, ops));
                assert(place.tried(seq, ops, None));
            }
            return None;
        }
        let block_idx: u32 = self.region.mem.look_u32(e + RE_BLOCK_IDX);
        let data_len: u32 = self.region.mem.look_u32(e + RE_DATA_LEN);
        let ghost looks = place.looks(seq, block_idx, data_len);
        assert(self.region.mem.accesses() =~= first + looks);
        let off: usize = match self.region.block_off_checked(block_idx) {
            None => {
                assert(place.passed(seq, looks));
                assert(place.tried(seq, looks, None));
                return None;
            },
            Some(off) => off,
        };
        let capacity: usize = self.region.data_capacity();
        if data_len as usize > capacity {
            assert(place.passed(seq, looks));
            assert(place.tried(seq, looks, None));
            return None;
        }
        proof {
            region::lemma_block_parts(c, block_idx as int);
        }
        let ghost looked = self.region.mem.accesses();
        let counted: bool = self.acquire(off + BK_REFCOUNT);
        let ghost tries = choose|tries: Accesses|
            self.region.mem.accesses() == looked + tries && #[trigger] reading::takes_reference(
                tries,
                place.count(block_idx),
                counted,
            );
        if !counted {
            proof {
                let ops = looks + tries;
                assert(self.region.mem.accesses() =~= first + ops);
                assert(place.was_refused(seq, ops));
                assert(place.tried(seq, ops, None));
            }
            return None;
        }
        let after: u64 = self.region.mem.look_u64(e + RE_SEQ);
        let look: EntryLook = EntryLook { before, block: block_idx, len: data_len, after };
        match reading::judge_entry(seq, look, self.region.config.block_count, capacity) {
            None => {
                let ghost late = self.region.mem.accesses();
                release_block(&mut self.region, block_idx);
                proof {
                    let rest = choose|rest: Accesses|
                        self.region.mem.accesses() == late + rest && #[trigger] reading::releases(
                            place.pool,
                            rest,
                            place.count(block_idx),
                            block_idx,
                        );
                    let ops = looks + tries + seq![reading::look(place.seq, after)] + rest;
                    assert(self.region.mem.accesses() =~= first + ops);
                    assert(place.was_late(seq, ops));
                    assert(place.tried(seq, ops, None));
                }
                None
            },
            Some((block_idx, data_len)) => {
                self.last_seq = seq;
                proof {
                    let ops = looks + tries + seq![
                        Access::Look64 { off: place.seq, found: seq },
                    ];
                    assert(self.region.mem.accesses() =~= first + ops);
                    assert(place.took(seq, ops, block_idx, data_len));
                    assert(place.tried(seq, ops, Some((block_idx, data_len))));
                }
                Some(SlotRead { block_idx, data_len })
            },
        }
    }

    /// Takes a reference, unless the count is zero or cannot grow.
    fn acquire(&mut self, off: usize) -> (r: bool)
        requires
            off + 4 <= old(self).region.mem.image().len(),
        ensures
            old(self).same_stream(final(self)),
            final(self).last_seq == old(self).last_seq,
            exists|tries: Accesses|
                {
                    &&& final(self).region.mem.accesses() == old(self).region.mem.accesses()
                        + tries
                    &&& #[trigger] reading::takes_reference(tries, off as int, r)
                },
            old(self).region.mem.exclusive() ==> {
                let count = memory::u32_at(old(self).region.mem.image(), off as int);
                if 0 < count < u32::MAX {
                    &&& r
                    &&& final(self).region.mem.image() == memory::put32(
                        old(self).region.mem.image(),
                        off as int,
                        (count + 1) as u32,
                    )
                } else {
                    &&& !r
                    &&& final(self).region.mem.image() == old(self).region.mem.image()
                }
            },
    {
        let ghost mut tries: Accesses = Seq::empty();
        assert(old(self).region.mem.accesses() + tries =~= old(self).region.mem.accesses());
        loop
            invariant
                off + 4 <= self.region.mem.image().len(),
                old(self).same_stream(self),
                self.last_seq == old(self).last_seq,
                self.region.mem.accesses() == old(self).region.mem.accesses() + tries,
                reading::takes_reference(tries, off as int, false),
                self.region.mem.exclusive() ==> self.region.mem.image() == old(
                    self,
                ).region.mem.image(),
            decreases self.region.mem.contention(),
        {
            let count: u32 = self.region.mem.load_u32(off);
            if count == 0 || count == 0xFFFF_FFFF {
                return false;
            }
            let swapped: Result<u32, u32> = self.region.mem.compare_exchange_u32(
                off,
                count,
                count + 1,
            );
            proof {
                tries = tries.push(
                    Access::Exchange32 {
                        off: off as int,
                        current: count,
                        new: (count + 1) as u32,
                        found: swapped,
                    },
                );
                assert(self.region.mem.accesses() =~= old(self).region.mem.accesses() + tries);
                assert(reading::takes_reference(tries, off as int, swapped is Ok));
            }
            if swapped.is_ok() {
                return true;
            }
        }
    }

    /// Receives the next sample as a value of a plain type. A topic that was
    /// registered with a type of another size gives nothing.
    pub fn try_recv_typed<T: Pod>(&mut self) -> (r: Option<TypedSampleGuard<T>>)
        requires
            old(self).wf(),
            T::size() <= usize::MAX,
        ensures
            final(self).wf(),
            old(self).same_stream(final(self)),
            final(self).last_seq >= old(self).last_seq,
            r is None ==> final(self).last_seq == old(self).last_seq,
            r matches Some(g) ==> g.block_idx < old(self).region.config.block_count,
            r matches Some(g) ==> final(self).took_last_typed(g.block_idx),
            old(self).type_size == 0 || old(self).type_size == T::size() ==> exists|
                s: Option<SlotRead>,
            | #[trigger] old(self).looked(final(self), s) && (s is Some <==> r is Some),
            old(self).type_size != 0 && old(self).type_size != T::size() ==> r is None
                && *final(self) == *old(self),
            (old(self).type_size == 0 || old(self).type_size == T::size())
                && old(self).region.mem.exclusive() ==> exists|s: Option<SlotRead>|
                {
                    &&& #[trigger] old(self).received(final(self), s)
                    &&& match r {
                        Some(g) => s matches Some(x) && x.block_idx == g.block_idx,
                        None => s is None,
                    }
                },
    {
        if self.type_size != 0 && self.type_size as usize != T::size_of() {
            return None;
        }
        let s: Option<SlotRead> = self.scan();
        assert(old(self).region.mem.exclusive() ==> old(self).received(self, s));
        match s {
            Some(s) => {
                assert(self.took_last_typed(s.block_idx)) by {
                    assert(self.took_last(s.block_idx, s.data_len));
                }
                Some(TypedSampleGuard { block_idx: s.block_idx, marker: PhantomData })
            },
            None => None,
        }
    }

    /// What is done to receive the pinned sample: what comes is newer than the
    /// sample received last, and its word was there before the reader was counted
    /// and after.
    pub open spec fn tried_pinned(
        &self,
        after: &Self,
        ops: Accesses,
        r: Option<PinnedGuard>,
    ) -> bool {
        match r {
            Some(g) => {
                let word = pool::packed(after.last_seq as u32, g.len as u32);
                &&& self.last_seq < after.last_seq <= u32::MAX
                &&& took_pinned(self.topic_idx as int, ops, word, g.block_idx)
            },
            None => left_pinned(self.topic_idx as int, ops),
        }
    }

    /// Receives the pinned sample, if there is a new one and the publisher is
    /// not writing it.
    pub fn try_recv_pinned(&mut self) -> (r: Option<PinnedGuard>)
        requires
            old(self).wf(),
        ensures
            final(self).wf(),
            old(self).same_stream(final(self)),
            r matches Some(g) ==> {
                &&& g.topic_idx == old(self).topic_idx
                &&& g.block_idx < old(self).region.config.block_count
                &&& g.len <= region::capacity_of(old(self).region.config)
            },
            final(self).last_seq >= old(self).last_seq,
            r is None ==> final(self).last_seq == old(self).last_seq,
            exists|ops: Accesses|
                {
                    &&& final(self).region.mem.accesses() == old(self).region.mem.accesses() + ops
                    &&& #[trigger] old(self).tried_pinned(final(self), ops, r)
                },
            r matches Some(g) ==> final(self).took_last_pinned(g.block_idx, g.len as u32),
            old(self).region.mem.exclusive() ==> {
                let c = old(self).region.config;
                let m = old(self).region.mem.image();
                let t = old(self).topic_idx as int;
                let word = region::pinned_seq_of(m, t);
                if pinned_readable(c, m, t, old(self).last_seq) {
                    &&& r matches Some(g)
                    &&& g.block_idx == region::pinned_block_of(m, t)
                    &&& g.len == pool::idx_of(word)
                    &&& final(self).last_seq == pinned_number(word)
                    &&& final(self).region.mem.image() == memory::put32(
                        m,
                        layout::topic_off(t) + TE_PINNED_READERS,
                        (region::pinned_readers_of(m, t) + 1) as u32,
                    )
                } else {
                    &&& r is None
                    &&& final(self).region.mem.image() == m
                }
            },
    {
        proof {
            layout::lemma_layout(self.region.config);
            layout::lemma_topic(self.region.config, self.topic_idx as int);
        }
        let topic: usize = topic_entry_off(self.topic_idx);
        let ghost t = self.topic_idx as int;
        let ghost first = self.region.mem.accesses();
        let word: u64 = self.region.mem.look_u64(topic + TE_PINNED_SEQ);
        let (seq, data_len) = pool::unpack(word);
        if word == 0 || seq as u64 <= self.last_seq {
            proof {
                let ops = seq![reading::look(layout::topic_off(t) + TE_PINNED_SEQ, word)];
                assert(self.region.mem.accesses() =~= first + ops);
                assert(left_pinned(t, ops));
                assert(old(self).tried_pinned(self, ops, None));
            }
            return None;
        }
        let block_idx: u32 = self.region.mem.look_u32(topic + TE_PINNED_BLOCK);
        let ghost looks = pinned_looks(t, word, block_idx);
        assert(self.region.mem.accesses() =~= first + looks);
        let capacity: usize = self.region.data_capacity();
        if block_idx >= self.region.config.block_count || data_len as usize > capacity {
            assert(left_pinned(t, looks));
            assert(old(self).tried_pinned(self, looks, None));
            return None;
        }
        let ghost looked = self.region.mem.accesses();
        let counted: bool = self.enter_pinned(topic + TE_PINNED_READERS);
        let ghost tries = choose|tries: Accesses|
            self.region.mem.accesses() == looked + tries && #[trigger] enters(
                tries,
                readers_off(t),
                counted,
            );
        if !counted {
            proof {
                let ops = looks + tries;
                assert(self.region.mem.accesses() =~= first + ops);
                assert(left_pinned(t, ops));
                assert(old(self).tried_pinned(self, ops, None));
            }
            return None;
        }
        let again: u64 = self.region.mem.look_u64(topic + TE_PINNED_SEQ);
        let look: PinnedLook = PinnedLook { before: word, block: block_idx, after: again };
        match reading::judge_pinned(
            self.last_seq,
            look,
            self.region.config.block_count,
            capacity,
        ) {
            None => {
                let before: u32 = self.region.mem.fetch_sub_u32(topic + TE_PINNED_READERS, 1);
                proof {
                    let ops = looks + tries + leaves(t, again, before);
                    assert(self.region.mem.accesses() =~= first + ops);
                    assert(left_pinned(t, ops));
                    assert(old(self).tried_pinned(self, ops, None));
                }
                None
            },
            Some((seq, data_len)) => {
                self.last_seq = seq as u64;
                let g: PinnedGuard = PinnedGuard {
                    topic_idx: self.topic_idx,
                    block_idx,
                    len: data_len as usize,
                };
                proof {
                    pool::law_pack_unpack(seq, data_len, word);
                    let ops = looks + tries + seq![
                        Access::Look64 { off: layout::topic_off(t) + TE_PINNED_SEQ, found: word },
                    ];
                    assert(self.region.mem.accesses() =~= first + ops);
                    assert(took_pinned(t, ops, word, block_idx));
                    assert(old(self).tried_pinned(self, ops, Some(g)));
                    reading::lemma_ends_with(first, ops);
                }
                Some(g)
            },
        }
    }

    /// Counts a reader of the pinned block, unless the publisher is writing it.
    /// One more reader than can be told from the writer's mark is kept out.
    fn enter_pinned(&mut self, off: usize) -> (r: bool)
        requires
            off + 4 <= old(self).region.mem.image().len(),
        ensures
            old(self).same_stream(final(self)),
            final(self).last_seq == old(self).last_seq,
            exists|tries: Accesses|
                {
                    &&& final(self).region.mem.accesses() == old(self).region.mem.accesses()
                        + tries
                    &&& #[trigger] enters(tries, off as int, r)
                },
            old(self).region.mem.exclusive() ==> {
                let count = memory::u32_at(old(self).region.mem.image(), off as int);
                if count < PINNED_WRITER_ACTIVE - 1 {
                    &&& r
                    &&& final(self).region.mem.image() == memory::put32(
                        old(self).region.mem.image(),
                        off as int,
                        (count + 1) as u32,
                    )
                } else {
                    &&& !r
                    &&& final(self).region.mem.image() == old(self).region.mem.image()
                }
            },
    {
        let ghost mut tries: Accesses = Seq::empty();
        assert(old(self).region.mem.accesses() + tries =~= old(self).region.mem.accesses());
        loop
            invariant
                off + 4 <= self.region.mem.image().len(),
                old(self).same_stream(self),
                self.last_seq == old(self).last_seq,
                self.region.mem.accesses() == old(self).region.mem.accesses() + tries,
                enters(tries, off as int, false),
                self.region.mem.exclusive() ==> self.region.mem.image() == old(
                    self,
                ).region.mem.image(),
            decreases self.region.mem.contention(),
        {
            let current: u32 = self.region.mem.load_u32(off);
            if current >= PINNED_WRITER_ACTIVE - 1 {
                return false;
            }
            let swapped: Result<u32, u32> = self.region.mem.compare_exchange_u32(
                off,
                current,
                current + 1,
            );
            proof {
                tries = tries.push(
                    Access::Exchange32 {
                        off: off as int,
                        current,
                        new: (current + 1) as u32,
                        found: swapped,
                    },
                );
                assert(self.region.mem.accesses() =~= old(self).region.mem.accesses() + tries);
                assert(enters(tries, off as int, swapped is Ok));
            }
            if swapped.is_ok() {
                return true;
            }
        }
    }

    /// Whether a check of the publisher at this time fails.
    pub open spec fn finds_dead(&self, now: Option<u64>) -> bool {
        now is None || region::is_stale(
            memory::u64_at(self.region.mem.image(), layout::GH_HEARTBEAT as int),
            now->0,
            self.region.config.stale_timeout_us,
        )
    }

    /// What a turn of a blocked receiver does that finds no sample: it issues
    /// the hints of the strategy, and checks the publisher every 1024 turns; or
    /// it announces that the subscriber goes to sleep.
    pub open spec fn waited<G>(
        &self,
        after: &Self,
        wait: RecvWait,
        wait_after: RecvWait,
        now: Option<u64>,
        r: RecvTurn<G>,
    ) -> bool {
        let m = self.region.mem.image();
        let off = layout::topic_off(self.topic_idx as int);
        &&& after.last_seq == self.last_seq
        &&& wait_after.strategy == wait.strategy
        &&& wait_after.poll_ms == wait.poll_ms
        &&& if wait.sleeps() {
            &&& r matches RecvTurn::Sleep { seen, millis } && seen == memory::u32_at(
                m,
                off + TE_WRITE_SEQ,
            ) && millis == wait.poll_ms
            &&& wait_after.iter == wait.iter
            &&& after.region.mem.image() == memory::put32(
                m,
                off + TE_WAITERS,
                memory::wrapping_sum_u32(region::waiters(m, self.topic_idx as int), 1),
            )
        } else {
            &&& wait_after.iter == crate::wait::capped_sum(wait.iter, 1)
            &&& after.region.mem.image() == m
            &&& if wait_after.iter % 1024 == 0 && self.finds_dead(now) {
                r matches RecvTurn::Failed(e) && (if now is None {
                    e is ClockError
                } else {
                    e is PublisherDead
                })
            } else {
                r is Again
            }
        }
    }

    /// What a turn of a blocked receiver does, whatever others do meanwhile. A
    /// turn that brings a sample leaves the wait as it is. Without one the
    /// subscription stays where it is: the receiver is to sleep, where its
    /// strategy says so; otherwise every 1024th turn checks the publisher, which
    /// fails without the time, and no other turn fails.
    pub open spec fn turned<G>(
        &self,
        after: &Self,
        wait: RecvWait,
        wait_after: RecvWait,
        now: Option<u64>,
        r: RecvTurn<G>,
    ) -> bool {
        &&& after.last_seq >= self.last_seq
        &&& r !is Got ==> after.last_seq == self.last_seq
        &&& wait_after.strategy == wait.strategy
        &&& wait_after.poll_ms == wait.poll_ms
        &&& if r is Got {
            wait_after == wait
        } else if wait.sleeps() {
            &&& r is Sleep
            &&& r->millis == wait.poll_ms
            &&& wait_after == wait
        } else {
            &&& wait_after.iter == crate::wait::capped_sum(wait.iter, 1)
            &&& match r {
                RecvTurn::Failed(e) => {
                    &&& wait_after.iter % 1024 == 0
                    &&& if now is None {
                        e is ClockError
                    } else {
                        e is PublisherDead
                    }
                },
                RecvTurn::Again => wait_after.iter % 1024 == 0 ==> now is Some,
                _ => false,
            }
        }
    }

    /// A subscriber is about to sleep: it saw the word that it will watch, looked
    /// once more after that and found no sample, and then counts as sleeping. So a
    /// sample that was published since has changed the word.
    pub open spec fn fell_asleep(&self, seen: u32) -> bool {
        exists|ops: Accesses, was: u32|
            {
                &&& reading::ends_with(
                    self.region.mem.accesses(),
                    seq![seen_look(self.topic_idx as int, seen)] + ops + seq![
                        #[trigger] sleeper_in(self.topic_idx as int, was),
                    ],
                )
                &&& #[trigger] looked_for(
                    self.region.config,
                    self.topic_idx as int,
                    self.last_seq,
                    ops,
                    None,
                    self.last_seq,
                )
            }
    }

    /// The same of a subscriber that looks for the pinned sample.
    pub open spec fn fell_asleep_pinned(&self, seen: u32) -> bool {
        exists|ops: Accesses, was: u32|
            {
                &&& reading::ends_with(
                    self.region.mem.accesses(),
                    seq![seen_look(self.topic_idx as int, seen)] + ops + seq![
                        #[trigger] sleeper_in(self.topic_idx as int, was),
                    ],
                )
                &&& #[trigger] left_pinned(self.topic_idx as int, ops)
            }
    }

    /// The pinned sample that the subscription has was taken from its word, and
    /// nothing was done after that: the last look still found the word.
    pub open spec fn took_last_pinned(&self, block: u32, len: u32) -> bool {
        exists|ops: Accesses|
            {
                &&& reading::ends_with(self.region.mem.accesses(), ops)
                &&& #[trigger] took_pinned(
                    self.topic_idx as int,
                    ops,
                    pool::packed(self.last_seq as u32, len),
                    block,
                )
            }
    }

    /// Begins to wait for the next sample, with the default strategy.
    pub fn recv(&self) -> (r: RecvWait)
        ensures
            r.strategy == (WaitStrategy::Adaptive { spin_iters: 100, yield_iters: 10 }),
            r.iter == 0,
            r.poll_ms == poll_interval(self.region.config.stale_timeout_us),
    {
        RecvWait::new(WaitStrategy::default(), self.region.config.stale_timeout_us)
    }

    /// Takes one turn in waiting for the next sample.
    pub fn recv_with(&mut self, wait: &mut RecvWait, now: Option<u64>) -> (r: RecvTurn<SampleGuard>)
        requires
            old(self).wf(),
        ensures
            final(self).wf(),
            old(self).same_stream(final(self)),
            r matches RecvTurn::Got(g) ==> g.block_idx < old(self).region.config.block_count
                && g.len <= region::capacity_of(old(self).region.config),
            r matches RecvTurn::Got(g) ==> final(self).took_last(g.block_idx, g.len as u32),
            r matches RecvTurn::Sleep { seen, .. } ==> final(self).fell_asleep(seen),
            old(self).turned(final(self), *old(wait), *final(wait), now, r),
            old(self).region.mem.exclusive() ==> match r {
                RecvTurn::Got(g) => *final(wait) == *old(wait) && old(self).received(
                    final(self),
                    Some(SlotRead { block_idx: g.block_idx, data_len: g.len as u32 }),
                ),
                _ => {
                    &&& next_readable(
                        old(self).region.config,
                        old(self).region.mem.image(),
                        old(self).topic_idx as int,
                        old(self).last_seq,
                    ) is None
                    &&& old(self).waited(final(self), *old(wait), *final(wait), now, r)
                },
            },
    {
        if let Some(g) = self.try_recv() {
            return RecvTurn::Got(g);
        }
        let step: WaitStep = wait.step();
        if let WaitStep::Sleep(millis) = step {
            let ghost first = self.region.mem.accesses();
            let seen: u32 = self.seen_word();
            let ghost watched = *self;
            if let Some(g) = self.try_recv() {
                return RecvTurn::Got(g);
            }
            let ghost tried = *self;
            self.begin_sleep();
            proof {
                lemma_fell_asleep(first, watched, tried, *self, seen);
            }
            return RecvTurn::Sleep { seen, millis };
        }
        self.spin_turn(step, now)
    }

    /// Takes one turn in waiting for the next sample as a value of a plain type.
    pub fn recv_typed_with<T: Pod>(&mut self, wait: &mut RecvWait, now: Option<u64>) -> (r: RecvTurn<
        TypedSampleGuard<T>,
    >)
        requires
            old(self).wf(),
            T::size() <= usize::MAX,
        ensures
            final(self).wf(),
            old(self).same_stream(final(self)),
            r matches RecvTurn::Got(g) ==> g.block_idx < old(self).region.config.block_count && (
            old(self).type_size == 0 || old(self).type_size == T::size()),
            r matches RecvTurn::Got(g) ==> final(self).took_last_typed(g.block_idx),
            r matches RecvTurn::Sleep { seen, .. } ==> (old(self).type_size != 0
                && old(self).type_size != T::size()) || final(self).fell_asleep(seen),
            old(self).turned(final(self), *old(wait), *final(wait), now, r),
            old(self).region.mem.exclusive() ==> match r {
                RecvTurn::Got(g) => *final(wait) == *old(wait) && exists|s: SlotRead|
                    #[trigger] old(self).received(final(self), Some(s)) && s.block_idx
                        == g.block_idx,
                _ => {
                    &&& old(self).type_size == 0 || old(self).type_size == T::size()
                        ==> next_readable(
                        old(self).region.config,
                        old(self).region.mem.image(),
                        old(self).topic_idx as int,
                        old(self).last_seq,
                    ) is None
                    &&& old(self).waited(final(self), *old(wait), *final(wait), now, r)
                },
            },
    {
        if let Some(g) = self.try_recv_typed::<T>() {
            proof {
                if old(self).region.mem.exclusive() {
                    let s = choose|s: Option<SlotRead>|
                        #[trigger] old(self).received(self, s) && (s matches Some(x)
                            && x.block_idx == g.block_idx);
                    assert(old(self).received(self, Some(s->0)));
                }
            }
            return RecvTurn::Got(g);
        }
        let step: WaitStep = wait.step();
        if let WaitStep::Sleep(millis) = step {
            let ghost first = self.region.mem.accesses();
            let seen: u32 = self.seen_word();
            let ghost watched = *self;
            if let Some(g) = self.try_recv_typed::<T>() {
                return RecvTurn::Got(g);
            }
            let ghost tried = *self;
            self.begin_sleep();
            proof {
                if self.type_size == 0 || self.type_size == T::size() {
                    let s = choose|s: Option<SlotRead>|
                        #[trigger] watched.looked(&tried, s) && s is None;
                    assert(watched.looked(&tried, None));
                    lemma_fell_asleep(first, watched, tried, *self, seen);
                }
            }
            return RecvTurn::Sleep { seen, millis };
        }
        self.spin_turn(step, now)
    }

    /// Takes one turn in waiting for the next pinned sample.
    pub fn recv_pinned_with(&mut self, wait: &mut RecvWait, now: Option<u64>) -> (r: RecvTurn<
        PinnedGuard,
    >)
        requires
            old(self).wf(),
        ensures
            final(self).wf(),
            old(self).same_stream(final(self)),
            r matches RecvTurn::Got(g) ==> {
                &&& g.topic_idx == old(self).topic_idx
                &&& g.block_idx < old(self).region.config.block_count
                &&& g.len <= region::capacity_of(old(self).region.config)
            },
            r matches RecvTurn::Got(g) ==> final(self).took_last_pinned(g.block_idx, g.len as u32),
            r matches RecvTurn::Sleep { seen, .. } ==> final(self).fell_asleep_pinned(seen),
            old(self).turned(final(self), *old(wait), *final(wait), now, r),
            old(self).region.mem.exclusive() ==> {
                let m = old(self).region.mem.image();
                let t = old(self).topic_idx as int;
                let word = region::pinned_seq_of(m, t);
                if pinned_readable(old(self).region.config, m, t, old(self).last_seq) {
                    &&& r matches RecvTurn::Got(g)
                    &&& *final(wait) == *old(wait)
                    &&& g.block_idx == region::pinned_block_of(m, t)
                    &&& g.len == pool::idx_of(word)
                    &&& final(self).last_seq == pinned_number(word)
                    &&& final(self).region.mem.image() == memory::put32(
                        m,
                        layout::topic_off(t) + TE_PINNED_READERS,
                        (region::pinned_readers_of(m, t) + 1) as u32,
                    )
                } else {
                    r !is Got && old(self).waited(final(self), *old(wait), *final(wait), now, r)
                }
            },
    {
        if let Some(g) = self.try_recv_pinned() {
            return RecvTurn::Got(g);
        }
        let step: WaitStep = wait.step();
        if let WaitStep::Sleep(millis) = step {
            let ghost first = self.region.mem.accesses();
            let seen: u32 = self.seen_word();
            let ghost watched = *self;
            if let Some(g) = self.try_recv_pinned() {
                return RecvTurn::Got(g);
            }
            let ghost tried = *self;
            self.begin_sleep();
            proof {
                let t = self.topic_idx as int;
                let was = choose|was: u32|
                    self.region.mem.accesses() == tried.region.mem.accesses().push(
                        #[trigger] sleeper_in(t, was),
                    );
                let ops = choose|ops: Accesses|
                    {
                        &&& tried.region.mem.accesses() == watched.region.mem.accesses() + ops
                        &&& #[trigger] watched.tried_pinned(&tried, ops, None)
                    };
                let all = seq![seen_look(t, seen)] + ops + seq![sleeper_in(t, was)];
                assert(left_pinned(t, ops));
                assert(self.region.mem.accesses() =~= first + all);
                reading::lemma_ends_with(first, all);
            }
            return RecvTurn::Sleep { seen, millis };
        }
        self.spin_turn(step, now)
    }

    /// Spins as the strategy asks for, and checks the publisher where it is
    /// time to.
    fn spin_turn<G>(&self, step: WaitStep, now: Option<u64>) -> (r: RecvTurn<G>)
        requires
            self.wf(),
            step !is Sleep,
        ensures
            r is Failed || r is Again,
            step is Spin ==> r is Again,
            step is SpinAndCheck && now is None ==> r is Failed,
            r matches RecvTurn::Failed(e) ==> (if now is None {
                e is ClockError
            } else {
                e is PublisherDead
            }),
            self.region.mem.exclusive() && step is SpinAndCheck ==> (r is Failed
                <==> self.finds_dead(now)),
    {
        match step {
            WaitStep::Spin(hints) => {
                spin(hints);
                RecvTurn::Again
            },
            WaitStep::SpinAndCheck(hints) => {
                spin(hints);
                match self.check_heartbeat(now) {
                    Ok(_) => RecvTurn::Again,
                    Err(e) => RecvTurn::Failed(e),
                }
            },
            WaitStep::Sleep(_) => RecvTurn::Again,
        }
    }

    /// The low half of the topic's sequence number.
    fn seen_word(&mut self) -> (r: u32)
        requires
            old(self).wf(),
        ensures
            final(self).wf(),
            old(self).same_stream(final(self)),
            final(self).last_seq == old(self).last_seq,
            final(self).region.mem.accesses() == old(self).region.mem.accesses().push(
                seen_look(old(self).topic_idx as int, r),
            ),
            old(self).region.mem.exclusive() ==> {
                &&& r == memory::u32_at(
                    old(self).region.mem.image(),
                    layout::topic_off(old(self).topic_idx as int) + TE_WRITE_SEQ,
                )
                &&& final(self).region.mem.image() == old(self).region.mem.image()
            },
    {
        proof {
            layout::lemma_layout(self.region.config);
            layout::lemma_topic(self.region.config, self.topic_idx as int);
        }
        let topic: usize = topic_entry_off(self.topic_idx);
        self.region.mem.look_u32(topic + TE_WRITE_SEQ)
    }

    /// Announces that this subscriber goes to sleep.
    fn begin_sleep(&mut self)
        requires
            old(self).wf(),
        ensures
            final(self).wf(),
            old(self).same_stream(final(self)),
            final(self).last_seq == old(self).last_seq,
            exists|was: u32|
                final(self).region.mem.accesses() == old(self).region.mem.accesses().push(
                    #[trigger] sleeper_in(old(self).topic_idx as int, was),
                ),
            old(self).region.mem.exclusive() ==> {
                let m = old(self).region.mem.image();
                let t = old(self).topic_idx as int;
                final(self).region.mem.image() == memory::put32(
                    m,
                    layout::topic_off(t) + TE_WAITERS,
                    memory::wrapping_sum_u32(region::waiters(m, t), 1),
                )
            },
    {
        proof {
            layout::lemma_layout(self.region.config);
            layout::lemma_topic(self.region.config, self.topic_idx as int);
        }
        let topic: usize = topic_entry_off(self.topic_idx);
        let before: u32 = self.region.mem.fetch_add_u32(topic + TE_WAITERS, 1);
        assert(self.region.mem.accesses() == old(self).region.mem.accesses().push(
            sleeper_in(self.topic_idx as int, before),
        ));
    }

    /// Ends the sleep of a turn. After one that lasted to its end the publisher
    /// is checked.
    pub fn end_sleep(&mut self, timed_out: bool, now: Option<u64>) -> (r: Result<(), Error>)
        requires
            old(self).wf(),
        ensures
            final(self).wf(),
            old(self).same_stream(final(self)),
            final(self).last_seq == old(self).last_seq,
            !timed_out ==> r is Ok,
            r matches Err(e) ==> (if now is None {
                e is ClockError
            } else {
                e is PublisherDead
            }),
            exists|was: u32|
                final(self).region.mem.accesses() == old(self).region.mem.accesses().push(
                    #[trigger] memory::one_less(layout::topic_off(old(self).topic_idx as int) + TE_WAITERS, was),
                ),
            old(self).region.mem.exclusive() ==> {
                let m = old(self).region.mem.image();
                let t = old(self).topic_idx as int;
                &&& final(self).region.mem.image() == memory::put32(
                    m,
                    layout::topic_off(t) + TE_WAITERS,
                    memory::wrapping_difference_u32(region::waiters(m, t), 1),
                )
                &&& r is Err <==> timed_out && old(self).finds_dead(now)
            },
    {
        proof {
            layout::lemma_layout(self.region.config);
            layout::lemma_topic(self.region.config, self.topic_idx as int);
        }
        let topic: usize = topic_entry_off(self.topic_idx);
        let _before: u32 = self.region.mem.fetch_sub_u32(topic + TE_WAITERS, 1);
        assert(self.region.mem.accesses() == old(self).region.mem.accesses().push(
            memory::one_less(layout::topic_off(self.topic_idx as int) + TE_WAITERS, _before),
        ));
        if timed_out {
            self.check_heartbeat(now)
        } else {
            Ok(())
        }
    }

    /// Refuses a publisher whose heartbeat is too old.
    pub fn check_heartbeat(&self, now: Option<u64>) -> (r: Result<(), Error>)
        requires
            self.wf(),
        ensures
            now is None ==> (r matches Err(e) && e is ClockError),
            now is Some && r is Err ==> r->Err_0 is PublisherDead,
            self.region.mem.exclusive() && now is Some ==> (r is Err <==> now->0 > memory::u64_at(
                self.region.mem.image(),
                layout::GH_HEARTBEAT as int,
            ) + self.region.config.stale_timeout_us),
    {
        self.region.check_heartbeat(now)
    }

    /// Ends the subscription: the topic has one subscriber less.
    pub fn close(self) -> (mem: M)
        requires
            self.wf(),
        ensures
            mem.image().len() == self.region.mem.image().len(),
            mem.exclusive() == self.region.mem.exclusive(),
            exists|was: u32|
                mem.accesses() == self.region.mem.accesses().push(
                    #[trigger] memory::one_less(layout::topic_off(self.topic_idx as int) + TE_SUBSCRIBER_COUNT, was),
                ),
            self.region.mem.exclusive() ==> {
                let off = layout::topic_off(self.topic_idx as int) + TE_SUBSCRIBER_COUNT;
                mem.image() == memory::put32(
                    self.region.mem.image(),
                    off,
                    memory::wrapping_difference_u32(
                        memory::u32_at(self.region.mem.image(), off),
                        1,
                    ),
                )
            },
    {
        proof {
            layout::lemma_layout(self.region.config);
            layout::lemma_topic(self.region.config, self.topic_idx as int);
        }
        let topic: usize = topic_entry_off(self.topic_idx);
        let mut mem: M = self.region.mem;
        let _before: u32 = mem.fetch_sub_u32(topic + TE_SUBSCRIBER_COUNT, 1);
        assert(mem.accesses() == self.region.mem.accesses().push(
            memory::one_less(
                layout::topic_off(self.topic_idx as int) + TE_SUBSCRIBER_COUNT,
                _before,
            ),
        ));
        mem
    }
}

/// The number of array entries that a structured sample of this length says it
/// has, if its length agrees.
pub open spec fn structured_count(data: Seq<u8>, header_size: nat, entry_size: nat) -> Option<
    nat,
> {
    if data.len() < header_size + 4 {
        None
    } else {
        let count = memory::u32_at(data, data.len() - 4) as nat;
        if header_size + count * entry_size + 4 == data.len() {
            Some(count)
        } else {
            None
        }
    }
}

impl SampleGuard {
    /// The sample is of a block of the segment.
    pub open spec fn of<M: SharedMemory>(&self, region: &Region<M>) -> bool {
        &&& region.wf()
        &&& self.block_idx < region.config.block_count
        &&& self.len <= region::capacity_of(region.config)
    }

    /// The data of the sample.
    pub open spec fn data<M: SharedMemory>(&self, region: &Region<M>) -> Seq<u8> {
        region::block_data(
            region.config,
            region.mem.image(),
            self.block_idx as int,
            self.len as int,
        )
    }

    /// Length of the data.
    pub fn len(&self) -> (r: usize)
        ensures
            r == self.len,
    {
        self.len
    }

    /// Whether there is no data.
    pub fn is_empty(&self) -> (r: bool)
        ensures
            r == (self.len == 0),
    {
        self.len == 0
    }

    /// Copies the data.
    pub fn to_vec<M: SharedMemory>(&self, region: &Region<M>) -> (r: Vec<u8>)
        requires
            self.of(region),
        ensures
            r@.len() == self.len,
            region.mem.exclusive() ==> r@ == self.data(region),
    {
        read_block(region, self.block_idx, self.len)
    }

    /// Reads the header of a structured sample; `None` if the sample is too
    /// short for one.
    pub fn read_header<T: Pod, M: SharedMemory>(&self, region: &Region<M>) -> (r: Option<T>)
        requires
            self.of(region),
            T::size() <= usize::MAX,
        ensures
            r is Some <==> T::size() <= self.len,
            r is Some && region.mem.exclusive() ==> r->0.encode() == self.data(region).subrange(
                0,
                T::size() as int,
            ),
    {
        let n: usize = T::size_of();
        if n > self.len {
            return None;
        }
        let b: Vec<u8> = read_block(region, self.block_idx, n);
        proof {
            region::lemma_block_parts(region.config, self.block_idx as int);
            assert(region.mem.exclusive() ==> b@ =~= self.data(region).subrange(0, n as int));
        }
        Some(T::from_bytes(b.as_slice()))
    }

    /// Reads the array of a structured sample with a header of type `T`; `None`
    /// if the number of entries at the end does not agree with the length.
    pub fn read_array<T: Pod, E: Pod, M: SharedMemory>(&self, region: &Region<M>) -> (r: Option<
        Vec<E>,
    >)
        requires
            self.of(region),
            T::size() <= usize::MAX,
            E::size() <= usize::MAX,
        ensures
            region.mem.exclusive() ==> match structured_count(
                self.data(region),
                T::size(),
                E::size(),
            ) {
                None => r is None,
                Some(n) => {
                    &&& r matches Some(v)
                    &&& v@.len() == n
                    &&& pod::flat(v@) == self.data(region).subrange(
                        T::size() as int,
                        (T::size() + n * E::size()) as int,
                    )
                },
            },
    {
        let data: Vec<u8> = read_block(region, self.block_idx, self.len);
        split_array::<T, E>(data.as_slice())
    }

    /// Lets the block go. The last reference gives it back to the pool.
    pub fn release<M: SharedMemory>(self, region: &mut Region<M>)
        requires
            old(region).wf(),
        ensures
            final(region).wf(),
            old(region).same_segment(final(region)),
            final(region).last_freed == old(region).last_freed,
            region::released(*old(region), *final(region), self.block_idx),
            old(region).mem.exclusive() ==> final(region).mem.image() == region::after_release(
                old(region).config,
                old(region).mem.image(),
                self.block_idx,
            ),
    {
        release_block(region, self.block_idx);
    }
}

/// Takes the array out of the bytes of a structured sample.
pub fn split_array<T: Pod, E: Pod>(data: &[u8]) -> (r: Option<Vec<E>>)
    requires
        T::size() <= usize::MAX,
        E::size() <= usize::MAX,
    ensures
        match structured_count(data@, T::size(), E::size()) {
            None => r is None,
            Some(n) => {
                &&& r matches Some(v)
                &&& v@.len() == n
                &&& pod::flat(v@) == data@.subrange(
                    T::size() as int,
                    (T::size() + n * E::size()) as int,
                )
            },
        },
{
    let hs: usize = T::size_of();
    let es: usize = E::size_of();
    let len: usize = data.len();
    if len < 4 || len - 4 < hs {
        return None;
    }
    let count: usize = memory::get_u32(data, len - 4) as usize;
    let array: usize = match count.checked_mul(es) {
        Some(n) => n,
        None => {
            return None;
        },
    };
    if len - 4 - hs != array {
        return None;
    }
    let mut v: Vec<E> = Vec::new();
    let mut i: usize = 0;
    proof {
        assert(0 * es == 0);
        assert(pod::flat(Seq::<E>::empty()) =~= data@.subrange(hs as int, hs + 0));
        assert(v@ =~= Seq::<E>::empty());
    }
    while i < count
        invariant
            hs == T::size(),
            es == E::size(),
            array == count * es,
            hs + array + 4 == data@.len(),
            data@.len() <= usize::MAX,
            i <= count,
            v@.len() == i,
            pod::flat(v@) == data@.subrange(hs as int, hs + i * es),
            0 <= i * es <= array,
        decreases count - i,
    {
        proof {
            pool::lemma_mul_bounds(i as int, count as int, es as int);
            assert((i + 1) * es == i * es + es) by (nonlinear_arith);
        }
        let at: usize = hs + i * es;
        let b: Vec<u8> = memory::copy_range(data, at, at + es);
        let e: E = E::from_bytes(b.as_slice());
        let ghost before = v@;
        v.push(e);
        proof {
            assert(v@.drop_last() =~= before);
            assert(pod::flat(v@) =~= data@.subrange(hs as int, hs + (i + 1) * es));
        }
        i = i + 1;
    }
    Some(v)
}

/// Copies the first bytes of a block's data.
fn read_block<M: SharedMemory>(region: &Region<M>, block_idx: u32, len: usize) -> (r: Vec<u8>)
    requires
        region.wf(),
        block_idx < region.config.block_count,
        len <= region::capacity_of(region.config),
    ensures
        r@.len() == len,
        region.mem.exclusive() ==> r@ == region::block_data(
            region.config,
            region.mem.image(),
            block_idx as int,
            len as int,
        ),
{
    proof {
        region::lemma_block_parts(region.config, block_idx as int);
    }
    let p: pool::PoolLayout = region.pool();
    let off: usize = p.block_off(block_idx) + BLOCK_DATA_OFFSET;
    region.mem.read(off, len)
}

impl<T: Pod> TypedSampleGuard<T> {
    /// Reads the value.
    pub fn get<M: SharedMemory>(&self, region: &Region<M>) -> (r: T)
        requires
            region.wf(),
            self.block_idx < region.config.block_count,
            T::size() <= region::capacity_of(region.config),
        ensures
            region.mem.exclusive() ==> r.encode() == region::block_data(
                region.config,
                region.mem.image(),
                self.block_idx as int,
                T::size() as int,
            ),
    {
        let b: Vec<u8> = read_block(region, self.block_idx, T::size_of());
        T::from_bytes(b.as_slice())
    }

    /// Lets the block go. The last reference gives it back to the pool.
    pub fn release<M: SharedMemory>(self, region: &mut Region<M>)
        requires
            old(region).wf(),
        ensures
            final(region).wf(),
            old(region).same_segment(final(region)),
            final(region).last_freed == old(region).last_freed,
            region::released(*old(region), *final(region), self.block_idx),
            old(region).mem.exclusive() ==> final(region).mem.image() == region::after_release(
                old(region).config,
                old(region).mem.image(),
                self.block_idx,
            ),
    {
        release_block(region, self.block_idx);
    }
}

impl PinnedGuard {
    /// Length of the data.
    pub fn len(&self) -> (r: usize)
        ensures
            r == self.len,
    {
        self.len
    }

    /// Whether there is no data.
    pub fn is_empty(&self) -> (r: bool)
        ensures
            r == (self.len == 0),
    {
        self.len == 0
    }

    /// Copies the data.
    pub fn to_vec<M: SharedMemory>(&self, region: &Region<M>) -> (r: Vec<u8>)
        requires
            region.wf(),
            self.block_idx < region.config.block_count,
            self.len <= region::capacity_of(region.config),
        ensures
            r@.len() == self.len,
            region.mem.exclusive() ==> r@ == region::block_data(
                region.config,
                region.mem.image(),
                self.block_idx as int,
                self.len as int,
            ),
    {
        read_block(region, self.block_idx, self.len)
    }

    /// Leaves the pinned block: it has one reader less.
    pub fn release<M: SharedMemory>(self, region: &mut Region<M>)
        requires
            old(region).wf(),
            self.topic_idx < old(region).config.max_topics,
        ensures
            final(region).wf(),
            old(region).same_segment(final(region)),
            final(region).last_freed == old(region).last_freed,
            exists|was: u32|
                final(region).mem.accesses() == old(region).mem.accesses().push(
                    #[trigger] reader_gone(self.topic_idx as int, was),
                ),
            old(region).mem.exclusive() ==> final(region).mem.image() == memory::put32(
                old(region).mem.image(),
                layout::topic_off(self.topic_idx as int) + TE_PINNED_READERS,
                memory::wrapping_difference_u32(
                    region::pinned_readers_of(old(region).mem.image(), self.topic_idx as int),
                    1,
                ),
            ),
    {
        proof {
            layout::lemma_layout(region.config);
            layout::lemma_topic(region.config, self.topic_idx as int);
        }
        let topic: usize = topic_entry_off(self.topic_idx);
        let before: u32 = region.mem.fetch_sub_u32(topic + TE_PINNED_READERS, 1);
        assert(region.mem.accesses() == old(region).mem.accesses().push(
            reader_gone(self.topic_idx as int, before),
        ));
    }
}

} // verus!
