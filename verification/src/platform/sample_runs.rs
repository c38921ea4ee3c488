//! What a subscriber sees of a ring slot while publishers write.
//!
//! A run is a sequence of images of a segment, each of which comes from the one
//! before by a store of some party. Several publishers may fill the slot, in
//! any order. Each marks it first, and puts a sequence number in it at the end
//! that nobody has used before.

use crate::memory::{self, Accesses};
use crate::platform::laws;
use crate::platform::subscription;
use crate::protocol::config::PubSubConfig;
use crate::protocol::layout::{
    self, RE_BLOCK_IDX, RE_DATA_LEN, RE_SEQ, SEQ_WRITING, TE_WRITE_SEQ,
};
use crate::protocol::pool::NO_BLOCK;
use crate::protocol::reading;
use crate::protocol::region;
use vstd::prelude::*;

verus! {

broadcast use crate::memory::group_memory;

/// A ring slot of a segment.
pub struct Slot {
    /// Parameters of the segment.
    pub config: PubSubConfig,
    /// The topic.
    pub topic: int,
    /// The slot of its ring.
    pub slot: int,
}

impl Slot {
    /// The sequence number in the slot.
    pub open spec fn seq(self, m: Seq<u8>) -> u64 {
        region::ring_seq(self.config, m, self.topic, self.slot)
    }

    /// The block in the slot.
    pub open spec fn block(self, m: Seq<u8>) -> u32 {
        region::ring_block(self.config, m, self.topic, self.slot)
    }

    /// The length of the sample in the slot.
    pub open spec fn len(self, m: Seq<u8>) -> u32 {
        region::ring_len(self.config, m, self.topic, self.slot)
    }

    /// The slot names the same sample in two images.
    pub open spec fn same(self, m: Seq<u8>, n: Seq<u8>) -> bool {
        &&& self.seq(n) == self.seq(m)
        &&& self.block(n) == self.block(m)
        &&& self.len(n) == self.len(m)
    }

    /// One store, with the sequence numbers that were used before it and after
    /// it: nothing happens to the slot, or a publisher marks it, fills it, or
    /// gives it a new number. The data of a block that is referred to does not
    /// change.
    pub open spec fn step(
        self,
        m: Seq<u8>,
        used: Set<u64>,
        n: Seq<u8>,
        then_used: Set<u64>,
    ) -> bool {
        &&& {
            ||| self.same(m, n) && then_used == used
            ||| self.seq(n) == SEQ_WRITING && then_used == used
            ||| {
                &&& self.seq(m) == SEQ_WRITING
                &&& self.seq(n) != SEQ_WRITING
                &&& !used.contains(self.seq(n))
                &&& then_used == used.insert(self.seq(n))
                &&& self.block(n) == self.block(m)
                &&& self.len(n) == self.len(m)
            }
        }
        &&& forall|b: int|
            0 <= b < self.config.block_count && region::refcount(self.config, m, b) > 0
                ==> #[trigger] self.data(n, b) == self.data(m, b)
    }

    /// The data of a block, as far as it reaches.
    pub open spec fn data(self, m: Seq<u8>, b: int) -> Seq<u8> {
        region::block_data(self.config, m, b, region::capacity_of(self.config))
    }

    /// A slot with a sample refers to its block.
    pub open spec fn refers(self, m: Seq<u8>) -> bool {
        self.seq(m) != SEQ_WRITING && self.block(m) < self.config.block_count
            ==> region::refcount(self.config, m, self.block(m) as int) > 0
    }

    /// An image, and the one after it.
    pub open spec fn goes_on(self, images: Seq<Seq<u8>>, used: Seq<Set<u64>>, i: int) -> bool {
        self.step(images[i], used[i], images[i + 1], used[i + 1])
    }

    /// A run.
    pub open spec fn run(self, images: Seq<Seq<u8>>, used: Seq<Set<u64>>) -> bool {
        &&& images.len() == used.len()
        &&& images.len() >= 1
        &&& self.seq(images[0]) != SEQ_WRITING ==> used[0].contains(self.seq(images[0]))
        &&& forall|i: int| 0 <= i < images.len() ==> self.refers(#[trigger] images[i])
        &&& forall|i: int| 0 <= i < images.len() - 1 ==> #[trigger] self.goes_on(images, used, i)
    }
}

/// The number in the slot is among those that were used, and those are not
/// forgotten.
proof fn lemma_used(s: Slot, images: Seq<Seq<u8>>, used: Seq<Set<u64>>, i: int, j: int, seq: u64)
    requires
        s.run(images, used),
        0 <= i <= j < images.len(),
    ensures
        s.seq(images[i]) != SEQ_WRITING ==> used[i].contains(s.seq(images[i])),
        used[i].contains(seq) ==> used[j].contains(seq),
    decreases j,
{
    if i < j {
        lemma_used(s, images, used, i, j - 1, seq);
        assert(s.goes_on(images, used, j - 1));
    } else if i > 0 {
        lemma_used(s, images, used, i - 1, i - 1, seq);
        assert(s.goes_on(images, used, i - 1));
    }
}

/// A number that the slot once had and does not have any more never comes back.
proof fn lemma_numbers_do_not_return(
    s: Slot,
    images: Seq<Seq<u8>>,
    used: Seq<Set<u64>>,
    t: int,
    j: int,
    seq: u64,
)
    requires
        s.run(images, used),
        0 <= t <= j < images.len(),
        seq != SEQ_WRITING,
        used[t].contains(seq),
        s.seq(images[t]) != seq,
    ensures
        s.seq(images[j]) != seq,
    decreases j - t,
{
    if t < j {
        lemma_numbers_do_not_return(s, images, used, t, j - 1, seq);
        lemma_used(s, images, used, t, j - 1, seq);
        assert(s.goes_on(images, used, j - 1));
    }
}

/// A slot that has the same sequence number at two moments names the same
/// sample at every moment in between.
pub proof fn law_same_number_means_same_sample(
    s: Slot,
    images: Seq<Seq<u8>>,
    used: Seq<Set<u64>>,
    i: int,
    t: int,
    j: int,
)
    requires
        s.run(images, used),
        0 <= i <= t <= j < images.len(),
        s.seq(images[i]) == s.seq(images[j]),
        s.seq(images[i]) != SEQ_WRITING,
    ensures
        s.same(images[i], images[t]),
    decreases t - i,
{
    let seq = s.seq(images[i]);
    if i < t {
        law_same_number_means_same_sample(s, images, used, i, t - 1, j);
        lemma_used(s, images, used, i, t, seq);
        if s.seq(images[t]) != seq {
            lemma_numbers_do_not_return(s, images, used, t, j, seq);
        }
        assert(s.goes_on(images, used, t - 1));
    }
}

/// A sample is received intact and stays so: if the slot has the number of the
/// sample when the subscriber begins and still when it has taken its reference,
/// then the data of the block that it found there is that of the sample, and
/// remains so while the block is referred to.
pub proof fn law_received_sample_is_intact(
    s: Slot,
    images: Seq<Seq<u8>>,
    used: Seq<Set<u64>>,
    i: int,
    j: int,
    k: int,
)
    requires
        s.run(images, used),
        0 <= i <= j <= k < images.len(),
        s.seq(images[i]) == s.seq(images[j]),
        s.seq(images[i]) != SEQ_WRITING,
        s.block(images[i]) < s.config.block_count,
        forall|x: int|
            j <= x <= k ==> region::refcount(
                s.config,
                #[trigger] images[x],
                s.block(images[i]) as int,
            ) > 0,
    ensures
        s.data(images[k], s.block(images[i]) as int) == s.data(
            images[i],
            s.block(images[i]) as int,
        ),
    decreases k,
{
    let b = s.block(images[i]) as int;
    if i < k {
        if j < k {
            law_received_sample_is_intact(s, images, used, i, j, k - 1);
            assert(region::refcount(s.config, images[k - 1], b) > 0);
        } else {
            law_same_number_means_same_sample(s, images, used, i, k - 1, j);
            assert(s.refers(images[k - 1]));
            law_same_number_means_same_sample(s, images, used, i, k - 1, j);
            law_received_sample_is_intact(s, images, used, i, k - 1, k - 1);
        }
        assert(s.goes_on(images, used, k - 1));
        assert(s.data(images[k], b) == s.data(images[k - 1], b));
    }
}

/// A sample that was taken is intact and stays so, whatever publishers do
/// meanwhile: a reader that took it, as `Subscription::try_recv` is stated to,
/// found its number, block and length together in the slot, and the data of the
/// block remains what it was then while the block is referred to.
pub proof fn law_taken_sample_is_intact(
    s: Slot,
    images: Seq<Seq<u8>>,
    used: Seq<Set<u64>>,
    seq: u64,
    ops: Accesses,
    block: u32,
    len: u32,
    moments: Seq<int>,
    k: int,
)
    requires
        s.run(images, used),
        s.slot == layout::slot_of(s.config, seq),
        subscription::entry_place(s.config, s.topic, seq).took(seq, ops, block, len),
        reading::happens(images, ops, moments),
        seq != SEQ_WRITING,
        block < s.config.block_count,
        moments.last() <= k < images.len(),
        forall|x: int|
            moments.last() <= x <= k ==> region::refcount(
                s.config,
                #[trigger] images[x],
                block as int,
            ) > 0,
    ensures
        0 <= moments[0] <= k,
        s.seq(images[moments[0]]) == seq,
        s.block(images[moments[0]]) == block,
        s.len(images[moments[0]]) == len,
        s.data(images[k], block as int) == s.data(images[moments[0]], block as int),
{
    let at = subscription::entry_place(s.config, s.topic, seq);
    reading::lemma_took_at(at, seq, ops, block, len, images, moments);
    let i = moments[0];
    let j = moments.last();
    assert(s.seq(images[i]) == seq);
    assert(s.seq(images[j]) == seq);
    law_same_number_means_same_sample(s, images, used, i, moments[1], j);
    law_same_number_means_same_sample(s, images, used, i, moments[2], j);
    law_received_sample_is_intact(s, images, used, i, j, k);
}

/// A store in front of the pool leaves all data as it is.
proof fn lemma_front_store(s: Slot, m: Seq<u8>, off: int, b: Seq<u8>)
    requires
        laws::segment(s.config, m),
        0 <= off,
        off + b.len() <= layout::pool_off(s.config),
    ensures
        forall|x: int|
            0 <= x < s.config.block_count ==> #[trigger] s.data(memory::put(m, off, b), x)
                == s.data(m, x),
        forall|x: int|
            0 <= x < s.config.block_count ==> #[trigger] region::refcount(
                s.config,
                memory::put(m, off, b),
                x,
            ) == region::refcount(s.config, m, x),
{
    layout::lemma_layout(s.config);
    assert forall|x: int| 0 <= x < s.config.block_count implies #[trigger] s.data(
        memory::put(m, off, b),
        x,
    ) == s.data(m, x) by {
        region::lemma_block_parts(s.config, x);
    }
    assert forall|x: int| 0 <= x < s.config.block_count implies #[trigger] region::refcount(
        s.config,
        memory::put(m, off, b),
        x,
    ) == region::refcount(s.config, m, x) by {
        region::lemma_block_parts(s.config, x);
    }
}

/// Setting a reference count leaves all data, and the slot, as they are.
proof fn lemma_count_store(s: Slot, m: Seq<u8>, block: u32, count: u32)
    requires
        laws::segment(s.config, m),
        0 <= s.topic < s.config.max_topics,
        0 <= s.slot < s.config.ring_depth,
        block < s.config.block_count,
    ensures
        ({
            let n = memory::put32(m, region::refcount_off(s.config, block as int), count);
            &&& s.same(m, n)
            &&& forall|x: int|
                0 <= x < s.config.block_count ==> #[trigger] s.data(n, x) == s.data(m, x)
        }),
{
    let c = s.config;
    let n = memory::put32(m, region::refcount_off(c, block as int), count);
    layout::lemma_layout(c);
    layout::lemma_ring(c, s.topic, s.slot);
    region::lemma_block_parts(c, block as int);
    assert forall|x: int| 0 <= x < c.block_count implies #[trigger] s.data(n, x) == s.data(
        m,
        x,
    ) by {
        region::lemma_block_parts(c, x);
        laws::lemma_apart(layout::pool_of(c), x, block as int);
    }
}

/// The slot that the next sample of a topic gets.
pub open spec fn next_slot(c: PubSubConfig, m: Seq<u8>, topic: int) -> Slot {
    Slot { config: c, topic, slot: layout::slot_of(c, region::next_seq(m, topic)) }
}

/// The images of a publication, store by store: the number that is claimed, the
/// mark, the reference, the block, the length, the number in the slot, and the
/// segment once the sample that was there is let go.
pub open spec fn publication(
    c: PubSubConfig,
    m: Seq<u8>,
    warm: u32,
    topic: int,
    block: u32,
    len: u32,
) -> Seq<Seq<u8>> {
    let seq = region::next_seq(m, topic);
    let e = layout::ring_off(c, topic, layout::slot_of(c, seq));
    let claimed = memory::put64(m, layout::topic_off(topic) + TE_WRITE_SEQ, seq);
    let marked = memory::put64(claimed, e + RE_SEQ, SEQ_WRITING);
    let referred = memory::put32(marked, region::refcount_off(c, block as int), 1);
    let named = memory::put32(referred, e + RE_BLOCK_IDX, block);
    let measured = memory::put32(named, e + RE_DATA_LEN, len);
    let numbered = memory::put64(measured, e + RE_SEQ, seq);
    seq![
        m,
        claimed,
        marked,
        referred,
        named,
        measured,
        numbered,
        region::after_commit(c, m, warm, topic, block, len).0,
    ]
}

/// The numbers that are used in each image of a publication.
pub open spec fn publication_numbers(used: Set<u64>, seq: u64) -> Seq<Set<u64>> {
    seq![used, used, used, used, used, used, used.insert(seq), used.insert(seq)]
}

/// What a publication needs: a fresh block, and a number that was not used.
pub open spec fn can_publish(
    c: PubSubConfig,
    m: Seq<u8>,
    warm: u32,
    topic: int,
    block: u32,
    used: Set<u64>,
) -> bool {
    &&& laws::segment(c, m)
    &&& warm == NO_BLOCK || warm < c.block_count
    &&& 0 <= topic < c.max_topics
    &&& laws::fresh_block(c, m, warm, topic, block)
    &&& region::next_seq(m, topic) != SEQ_WRITING
    &&& !used.contains(region::next_seq(m, topic))
    &&& next_slot(c, m, topic).refers(m)
    &&& next_slot(c, m, topic).seq(m) != SEQ_WRITING ==> used.contains(
        next_slot(c, m, topic).seq(m),
    )
}

/// A slot of a segment.
pub open spec fn is_slot(s: Slot, m: Seq<u8>) -> bool {
    &&& laws::segment(s.config, m)
    &&& 0 <= s.topic < s.config.max_topics
    &&& 0 <= s.slot < s.config.ring_depth
}

/// A store in a topic entry is a step, and keeps what the slot refers to.
proof fn lemma_elsewhere(s: Slot, m: Seq<u8>, used: Set<u64>, off: int, v: u64)
    requires
        is_slot(s, m),
        0 <= off,
        off + 8 <= layout::ring_base_spec(s.config),
    ensures
        is_slot(s, memory::put64(m, off, v)),
        s.step(m, used, memory::put64(m, off, v), used),
        s.refers(m) ==> s.refers(memory::put64(m, off, v)),
{
    layout::lemma_layout(s.config);
    layout::lemma_ring(s.config, s.topic, s.slot);
    lemma_front_store(s, m, off, memory::le64(v));
    assert(s.same(m, memory::put64(m, off, v)));
}

/// Marking the slot is a step.
proof fn lemma_marked(s: Slot, m: Seq<u8>, used: Set<u64>)
    requires
        is_slot(s, m),
    ensures
        ({
            let n = memory::put64(
                m,
                layout::ring_off(s.config, s.topic, s.slot) + RE_SEQ,
                SEQ_WRITING,
            );
            is_slot(s, n) && s.step(m, used, n, used) && s.seq(n) == SEQ_WRITING
        }),
{
    let e = layout::ring_off(s.config, s.topic, s.slot);
    layout::lemma_layout(s.config);
    layout::lemma_ring(s.config, s.topic, s.slot);
    lemma_front_store(s, m, e + RE_SEQ, memory::le64(SEQ_WRITING));
}

/// Setting a reference count is a step.
proof fn lemma_counted(s: Slot, m: Seq<u8>, used: Set<u64>, block: u32, count: u32)
    requires
        is_slot(s, m),
        block < s.config.block_count,
    ensures
        ({
            let n = memory::put32(m, region::refcount_off(s.config, block as int), count);
            is_slot(s, n) && s.step(m, used, n, used) && s.seq(n) == s.seq(m)
        }),
{
    lemma_count_store(s, m, block, count);
}

/// Filling a slot that is marked is a step.
proof fn lemma_filled(s: Slot, m: Seq<u8>, used: Set<u64>, at: int, v: u32)
    requires
        is_slot(s, m),
        s.seq(m) == SEQ_WRITING,
        at == RE_BLOCK_IDX || at == RE_DATA_LEN,
    ensures
        ({
            let n = memory::put32(m, layout::ring_off(s.config, s.topic, s.slot) + at, v);
            is_slot(s, n) && s.step(m, used, n, used) && s.seq(n) == SEQ_WRITING
        }),
{
    let e = layout::ring_off(s.config, s.topic, s.slot);
    layout::lemma_layout(s.config);
    layout::lemma_ring(s.config, s.topic, s.slot);
    lemma_front_store(s, m, e + at, memory::le32(v));
}

/// Giving a marked slot a number that was not used is a step.
proof fn lemma_numbered(s: Slot, m: Seq<u8>, used: Set<u64>, seq: u64)
    requires
        is_slot(s, m),
        s.seq(m) == SEQ_WRITING,
        seq != SEQ_WRITING,
        !used.contains(seq),
    ensures
        ({
            let n = memory::put64(m, layout::ring_off(s.config, s.topic, s.slot) + RE_SEQ, seq);
            is_slot(s, n) && s.step(m, used, n, used.insert(seq))
        }),
{
    let e = layout::ring_off(s.config, s.topic, s.slot);
    layout::lemma_layout(s.config);
    layout::lemma_ring(s.config, s.topic, s.slot);
    lemma_front_store(s, m, e + RE_SEQ, memory::le64(seq));
}

/// The stores of a publication are steps, and the slot refers to its block
/// throughout.
proof fn lemma_publication_steps(
    c: PubSubConfig,
    m: Seq<u8>,
    warm: u32,
    topic: int,
    block: u32,
    len: u32,
    used: Set<u64>,
)
    requires
        can_publish(c, m, warm, topic, block, used),
    ensures
        ({
            let s = next_slot(c, m, topic);
            let images = publication(c, m, warm, topic, block, len);
            let seq = region::next_seq(m, topic);
            &&& s.step(images[0], used, images[1], used)
            &&& s.refers(images[1])
            &&& s.step(images[1], used, images[2], used)
            &&& s.seq(images[2]) == SEQ_WRITING
            &&& s.step(images[2], used, images[3], used)
            &&& s.seq(images[3]) == SEQ_WRITING
            &&& s.step(images[3], used, images[4], used)
            &&& s.seq(images[4]) == SEQ_WRITING
            &&& s.step(images[4], used, images[5], used)
            &&& s.seq(images[5]) == SEQ_WRITING
            &&& s.step(images[5], used, images[6], used.insert(seq))
        }),
{
    let s = next_slot(c, m, topic);
    let seq = region::next_seq(m, topic);
    let images = publication(c, m, warm, topic, block, len);
    layout::lemma_layout(c);
    layout::lemma_topic(c, topic);
    lemma_elsewhere(s, m, used, layout::topic_off(topic) + TE_WRITE_SEQ, seq);
    lemma_marked(s, images[1], used);
    lemma_counted(s, images[2], used, block, 1);
    lemma_filled(s, images[3], used, RE_BLOCK_IDX as int, block);
    lemma_filled(s, images[4], used, RE_DATA_LEN as int, len);
    lemma_numbered(s, images[5], used, seq);
}

/// Letting the replaced sample go changes neither the slot nor any data.
#[verifier::rlimit(40)]
proof fn lemma_publication_end(
    c: PubSubConfig,
    m: Seq<u8>,
    warm: u32,
    topic: int,
    block: u32,
    len: u32,
)
    requires
        laws::segment(c, m),
        warm == NO_BLOCK || warm < c.block_count,
        0 <= topic < c.max_topics,
        laws::fresh_block(c, m, warm, topic, block),
    ensures
        ({
            let s = next_slot(c, m, topic);
            let images = publication(c, m, warm, topic, block, len);
            &&& images[6] == region::with_entry(c, m, topic, block, len)
            &&& s.same(images[6], images[7])
            &&& s.seq(images[7]) == region::next_seq(m, topic)
            &&& s.block(images[7]) == block
            &&& region::refcount(c, images[6], block as int) == 1
            &&& region::refcount(c, images[7], block as int) == 1
            &&& forall|x: int|
                0 <= x < c.block_count ==> #[trigger] s.data(images[7], x) == s.data(images[6], x)
        }),
{
    let s = next_slot(c, m, topic);
    let seq = region::next_seq(m, topic);
    let e = layout::ring_off(c, topic, s.slot);
    let images = publication(c, m, warm, topic, block, len);
    layout::lemma_layout(c);
    layout::lemma_topic(c, topic);
    layout::lemma_ring(c, topic, s.slot);
    region::lemma_block_parts(c, block as int);
    let k = region::with_entry(c, m, topic, block, len);
    region::lemma_entry_written(
        images[1],
        region::refcount_off(c, block as int),
        e,
        block,
        len,
        seq,
    );
    laws::law_publish_effect(c, m, warm, topic, block, len);
    assert forall|x: int| 0 <= x < c.block_count implies #[trigger] s.data(images[7], x)
        == s.data(images[6], x) by {
        region::lemma_block_parts(c, x);
        laws::lemma_apart(layout::pool_of(c), x, block as int);
        assert(region::block_data(c, images[7], x, region::capacity_of(c)) == region::block_data(
            c,
            m,
            x,
            region::capacity_of(c),
        ));
        assert(s.data(k, x) =~= s.data(m, x));
    }
}

/// The images of a publication are what its stores make, one after the other, of
/// the segment: those that `commit_to_ring` is stated to do until the sample that
/// was there is let go.
pub proof fn law_publication_is_what_is_stored(
    c: PubSubConfig,
    m: Seq<u8>,
    warm: u32,
    topic: int,
    block: u32,
    len: u32,
    marks: Accesses,
    single_publisher: bool,
    i: int,
)
    requires
        region::marks_entry(c, topic, region::write_seq(m, topic), marks, single_publisher),
        marks.len() == 1,
        0 <= i < 6,
    ensures
        ({
            let ops = region::entry_stores(
                c,
                topic,
                block,
                len,
                region::write_seq(m, topic),
                marks,
            );
            let images = publication(c, m, warm, topic, block, len);
            &&& ops.len() == 6
            &&& images[i + 1] == memory::after_access(images[i], ops[i])
        }),
{
    let e = layout::ring_off(c, topic, layout::slot_of(c, region::next_seq(m, topic)));
    if !single_publisher {
        assert(region::tries_entry(marks[0], e + RE_SEQ, true));
    }
    assert(i == 0 || i == 1 || i == 2 || i == 3 || i == 4 || i == 5);
}

/// Publishing a sample is a run of its slot, so that subscribers and other
/// publishers may look at any moment of it.
#[verifier::rlimit(50)]
pub proof fn law_publish_is_a_run(
    c: PubSubConfig,
    m: Seq<u8>,
    warm: u32,
    topic: int,
    block: u32,
    len: u32,
    used: Set<u64>,
)
    requires
        can_publish(c, m, warm, topic, block, used),
    ensures
        next_slot(c, m, topic).run(
            publication(c, m, warm, topic, block, len),
            publication_numbers(used, region::next_seq(m, topic)),
        ),
        publication(c, m, warm, topic, block, len)[7] == region::after_commit(
            c,
            m,
            warm,
            topic,
            block,
            len,
        ).0,
{
    let s = next_slot(c, m, topic);
    let images = publication(c, m, warm, topic, block, len);
    let numbers = publication_numbers(used, region::next_seq(m, topic));
    lemma_publication_steps(c, m, warm, topic, block, len, used);
    lemma_publication_end(c, m, warm, topic, block, len);
    assert forall|i: int| 0 <= i < images.len() - 1 implies #[trigger] s.goes_on(
        images,
        numbers,
        i,
    ) by {
        assert(i == 0 || i == 1 || i == 2 || i == 3 || i == 4 || i == 5 || i == 6);
    }
    assert forall|i: int| 0 <= i < images.len() implies s.refers(#[trigger] images[i]) by {
        assert(i == 0 || i == 1 || i == 2 || i == 3 || i == 4 || i == 5 || i == 6 || i == 7);
    }
}

} // verus!
