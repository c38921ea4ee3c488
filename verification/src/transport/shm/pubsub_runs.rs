//! What a subscriber sees of a ring of samples while the publisher writes.
//!
//! A run is a sequence of images of a segment, each of which comes from the one
//! before by a store. The publisher of a topic only writes in the place of the
//! sample that comes next.

use crate::memory::{self, Access};
use crate::transport::shm::cells;
use crate::transport::shm::pubsub::{
    self, PubSubConfig, SAMPLE_HEADER_SIZE, SS_DATA_LEN, SS_SEQ, TE_WRITE_SEQ,
};
use crate::transport::shm::pubsub_laws;
use vstd::prelude::*;

verus! {

broadcast use crate::memory::group_memory;

/// The place of a sample is the same in two images.
pub open spec fn kept(c: PubSubConfig, m: Seq<u8>, n: Seq<u8>, topic: int, slot: int) -> bool {
    let s = pubsub::sample_off(c, topic, slot);
    memory::bytes_at(m, s, SAMPLE_HEADER_SIZE + c.sample_capacity) == memory::bytes_at(
        n,
        s,
        SAMPLE_HEADER_SIZE + c.sample_capacity,
    )
}

/// The place of the sample that comes next.
pub open spec fn next_slot(c: PubSubConfig, m: Seq<u8>, topic: int) -> int {
    pubsub::slot_of(c, pubsub_laws::next_seq(m, topic))
}

/// One store: of the samples of a topic only the place of the next one is
/// written, and the number of the newest one grows by one at most.
pub open spec fn step(c: PubSubConfig, m: Seq<u8>, n: Seq<u8>, topic: int) -> bool {
    &&& n.len() == m.len()
    &&& pubsub::write_seq(m, topic) < u64::MAX
    &&& pubsub::write_seq(m, topic) <= pubsub::write_seq(n, topic) <= pubsub::write_seq(m, topic)
        + 1
    &&& forall|slot: int|
        0 <= slot < c.ring_depth && slot != next_slot(c, m, topic) ==> #[trigger] kept(
            c,
            m,
            n,
            topic,
            slot,
        )
}

/// An image, and the one after it.
pub open spec fn goes_on(c: PubSubConfig, images: Seq<Seq<u8>>, topic: int, i: int) -> bool {
    step(c, images[i], images[i + 1], topic)
}

/// A run.
pub open spec fn run(c: PubSubConfig, images: Seq<Seq<u8>>, topic: int) -> bool {
    &&& images.len() >= 1
    &&& pubsub_laws::fits(c, images[0])
    &&& 0 <= topic < c.max_topics
    &&& forall|i: int| 0 <= i < images.len() - 1 ==> #[trigger] goes_on(c, images, topic, i)
}

/// The number of the newest sample never goes back.
proof fn lemma_numbers_grow(c: PubSubConfig, images: Seq<Seq<u8>>, topic: int, i: int, j: int)
    requires
        run(c, images, topic),
        0 <= i <= j < images.len(),
    ensures
        pubsub::write_seq(images[i], topic) <= pubsub::write_seq(images[j], topic),
        images[i].len() == images[j].len(),
    decreases j - i,
{
    if i < j {
        lemma_numbers_grow(c, images, topic, i, j - 1);
        assert(goes_on(c, images, topic, j - 1));
    }
}

/// A sample stays as it is while the publisher is less than a ring ahead of it.
pub proof fn law_sample_stays(
    c: PubSubConfig,
    images: Seq<Seq<u8>>,
    topic: int,
    i: int,
    t: int,
    j: int,
    seq: u64,
)
    requires
        run(c, images, topic),
        0 <= i <= t <= j < images.len(),
        seq <= pubsub::write_seq(images[i], topic),
        pubsub::write_seq(images[j], topic) + 1 < seq + c.ring_depth,
    ensures
        kept(c, images[i], images[t], topic, pubsub::slot_of(c, seq)),
    decreases t - i,
{
    if i < t {
        law_sample_stays(c, images, topic, i, t - 1, j, seq);
        lemma_numbers_grow(c, images, topic, i, t - 1);
        lemma_numbers_grow(c, images, topic, t - 1, j);
        assert(goes_on(c, images, topic, t - 1));
        let next = pubsub_laws::next_seq(images[t - 1], topic);
        pubsub_laws::lemma_slots_differ(seq as int, next as int, c.ring_depth as int);
        assert(kept(c, images[t - 1], images[t], topic, pubsub::slot_of(c, seq)));
    }
}

/// No sample is torn: a subscriber that copies a sample while the publisher
/// writes gets the sample as it was published, as long as the publisher is less
/// than a ring ahead.
pub proof fn law_no_torn_sample(
    c: PubSubConfig,
    images: Seq<Seq<u8>>,
    topic: int,
    i: int,
    j: int,
    seq: u64,
    data: Seq<u8>,
    moments: Seq<int>,
    copy: Seq<u8>,
)
    requires
        run(c, images, topic),
        0 <= i <= j < images.len(),
        seq <= pubsub::write_seq(images[i], topic),
        pubsub::write_seq(images[j], topic) + 1 < seq + c.ring_depth,
        pubsub::sample_data(c, images[i], topic, seq) == Some(data),
        moments.len() == copy.len() == data.len(),
        forall|x: int|
            0 <= x < copy.len() ==> i <= #[trigger] moments[x] <= j && copy[x]
                == images[moments[x]][pubsub::sample_off(c, topic, pubsub::slot_of(c, seq))
                + SAMPLE_HEADER_SIZE + x],
    ensures
        copy == data,
        pubsub::sample_data(c, images[j], topic, seq) == Some(data),
{
    let slot = pubsub::slot_of(c, seq);
    let s = pubsub::sample_off(c, topic, slot);
    lemma_numbers_grow(c, images, topic, 0, i);
    pubsub::lemma_sample(c, topic, slot);
    assert forall|x: int| 0 <= x < copy.len() implies copy[x] == data[x] by {
        let t = moments[x];
        lemma_numbers_grow(c, images, topic, i, t);
        law_sample_stays(c, images, topic, i, t, j, seq);
        lemma_kept_byte(c, images[i], images[t], topic, slot, SAMPLE_HEADER_SIZE + x);
    }
    assert(copy =~= data);
    lemma_numbers_grow(c, images, topic, i, j);
    law_sample_stays(c, images, topic, i, j, j, seq);
    lemma_kept_sample(c, images[i], images[j], topic, seq);
}

/// A byte in a place that is kept.
proof fn lemma_kept_byte(
    c: PubSubConfig,
    m: Seq<u8>,
    n: Seq<u8>,
    topic: int,
    slot: int,
    x: int,
)
    requires
        pubsub_laws::fits(c, m),
        n.len() == m.len(),
        0 <= topic < c.max_topics,
        0 <= slot < c.ring_depth,
        kept(c, m, n, topic, slot),
        0 <= x < SAMPLE_HEADER_SIZE + c.sample_capacity,
    ensures
        m[pubsub::sample_off(c, topic, slot) + x] == n[pubsub::sample_off(c, topic, slot) + x],
{
    let s = pubsub::sample_off(c, topic, slot);
    pubsub::lemma_sample(c, topic, slot);
    let size = SAMPLE_HEADER_SIZE + c.sample_capacity;
    assert(memory::bytes_at(m, s, size)[x] == m[s + x]);
    assert(memory::bytes_at(n, s, size)[x] == n[s + x]);
}

/// A sample in a place that is kept.
proof fn lemma_kept_sample(c: PubSubConfig, m: Seq<u8>, n: Seq<u8>, topic: int, seq: u64)
    requires
        pubsub_laws::fits(c, m),
        n.len() == m.len(),
        0 <= topic < c.max_topics,
        kept(c, m, n, topic, pubsub::slot_of(c, seq)),
    ensures
        pubsub::sample_data(c, n, topic, seq) == pubsub::sample_data(c, m, topic, seq),
{
    let slot = pubsub::slot_of(c, seq);
    let s = pubsub::sample_off(c, topic, slot);
    pubsub::lemma_sample(c, topic, slot);
    assert(memory::u64_at(m, s + SS_SEQ) == memory::u64_at(n, s + SS_SEQ)) by {
        lemma_kept_byte(c, m, n, topic, slot, 0);
        lemma_kept_byte(c, m, n, topic, slot, 1);
        lemma_kept_byte(c, m, n, topic, slot, 2);
        lemma_kept_byte(c, m, n, topic, slot, 3);
        lemma_kept_byte(c, m, n, topic, slot, 4);
        lemma_kept_byte(c, m, n, topic, slot, 5);
        lemma_kept_byte(c, m, n, topic, slot, 6);
        lemma_kept_byte(c, m, n, topic, slot, 7);
    }
    assert(memory::u32_at(m, s + SS_DATA_LEN) == memory::u32_at(n, s + SS_DATA_LEN)) by {
        lemma_kept_byte(c, m, n, topic, slot, 8);
        lemma_kept_byte(c, m, n, topic, slot, 9);
        lemma_kept_byte(c, m, n, topic, slot, 10);
        lemma_kept_byte(c, m, n, topic, slot, 11);
    }
    let len = memory::u32_at(m, s + SS_DATA_LEN);
    if len <= c.sample_capacity {
        let a = memory::bytes_at(m, s + SAMPLE_HEADER_SIZE, len as int);
        let b = memory::bytes_at(n, s + SAMPLE_HEADER_SIZE, len as int);
        assert forall|x: int| 0 <= x < len implies #[trigger] a[x] == b[x] by {
            lemma_kept_byte(c, m, n, topic, slot, SAMPLE_HEADER_SIZE + x);
        }
        assert(a =~= b);
    }
}

/// The images of a publication, store by store: the data, the mark, the length,
/// the number of the sample, and the number of the newest sample.
pub open spec fn publication(
    c: PubSubConfig,
    m: Seq<u8>,
    topic: int,
    data: Seq<u8>,
) -> Seq<Seq<u8>> {
    let seq = pubsub_laws::next_seq(m, topic);
    let s = pubsub::sample_off(c, topic, pubsub::slot_of(c, seq));
    let written = memory::put(m, s + SAMPLE_HEADER_SIZE, data);
    let marked = memory::put64(written, s + SS_SEQ, 0);
    let measured = memory::put32(marked, s + SS_DATA_LEN, data.len() as u32);
    let stamped = memory::put64(measured, s + SS_SEQ, seq);
    seq![
        m,
        written,
        marked,
        measured,
        stamped,
        memory::put64(stamped, pubsub::topic_off(topic) + TE_WRITE_SEQ, seq),
    ]
}

/// A store in the place of the next sample is a step.
proof fn lemma_store(c: PubSubConfig, m: Seq<u8>, topic: int, off: int, b: Seq<u8>)
    requires
        pubsub_laws::fits(c, m),
        0 <= topic < c.max_topics,
        pubsub::write_seq(m, topic) < u64::MAX,
        pubsub::sample_off(c, topic, next_slot(c, m, topic)) <= off,
        off + b.len() <= pubsub::sample_off(c, topic, next_slot(c, m, topic)) + SAMPLE_HEADER_SIZE
            + c.sample_capacity,
    ensures
        step(c, m, memory::put(m, off, b), topic),
        pubsub::write_seq(memory::put(m, off, b), topic) == pubsub::write_seq(m, topic),
        next_slot(c, memory::put(m, off, b), topic) == next_slot(c, m, topic),
{
    let n = memory::put(m, off, b);
    let a = next_slot(c, m, topic);
    pubsub::lemma_topic(c, topic);
    pubsub::lemma_sample(c, topic, a);
    assert forall|slot: int| 0 <= slot < c.ring_depth && slot != a implies #[trigger] kept(
        c,
        m,
        n,
        topic,
        slot,
    ) by {
        pubsub::lemma_sample(c, topic, slot);
        pubsub::lemma_stride(c);
        cells::lemma_cells_apart(c.ring_depth as int, pubsub::stride(c), topic, a, topic, slot);
        let s = pubsub::sample_off(c, topic, slot);
        let size = SAMPLE_HEADER_SIZE + c.sample_capacity;
        assert(memory::bytes_at(m, s, size) =~= memory::bytes_at(n, s, size));
    }
}

/// The images of a publication are what its stores make, one after the other, of
/// the segment: the data that `set_data` writes, and what `publish` is stated to
/// store.
pub proof fn law_publication_is_what_is_stored(
    c: PubSubConfig,
    m: Seq<u8>,
    topic: int,
    data: Seq<u8>,
    i: int,
)
    requires
        0 <= i < 4,
    ensures
        ({
            let seq = pubsub_laws::next_seq(m, topic);
            let s = pubsub::sample_off(c, topic, pubsub::slot_of(c, seq));
            let ops = pubsub::sample_stores(c, topic, data.len() as u32, seq);
            let images = publication(c, m, topic, data);
            &&& images[0] == m
            &&& images[1] == memory::after_access(
                m,
                Access::Bytes { off: s + SAMPLE_HEADER_SIZE, data },
            )
            &&& images[i + 2] == memory::after_access(images[i + 1], ops[i])
        }),
{
    assert(i == 0 || i == 1 || i == 2 || i == 3);
}

/// No subscriber gets a torn sample: a copy that was taken by the looks that
/// `try_recv` is stated to make is the sample of its number, as long as the
/// publisher is less than a ring ahead. `i`, `t` and `j` are the moments of the
/// first look at the number, of the look at the length, and of the last look;
/// `moments` those at which the bytes were copied.
pub proof fn law_copied_sample_is_whole(
    c: PubSubConfig,
    images: Seq<Seq<u8>>,
    topic: int,
    seq: u64,
    data: Seq<u8>,
    i: int,
    t: int,
    j: int,
    moments: Seq<int>,
)
    requires
        run(c, images, topic),
        0 <= i <= t <= j < images.len(),
        seq <= pubsub::write_seq(images[i], topic),
        pubsub::write_seq(images[j], topic) + 1 < seq + c.ring_depth,
        data.len() <= c.sample_capacity,
        ({
            let s = pubsub::sample_off(c, topic, pubsub::slot_of(c, seq));
            let looks = pubsub::copy_looks(s, seq, data);
            &&& memory::told_of(images[i], looks[0])
            &&& memory::told_of(images[t], looks[1])
            &&& memory::told_of(images[j], looks[4])
            &&& moments.len() == data.len()
            &&& forall|x: int|
                0 <= x < data.len() ==> i <= #[trigger] moments[x] <= j && data[x]
                    == images[moments[x]][s + SAMPLE_HEADER_SIZE + x]
        }),
    ensures
        pubsub::sample_data(c, images[i], topic, seq) == Some(data),
{
    let slot = pubsub::slot_of(c, seq);
    let s = pubsub::sample_off(c, topic, slot);
    let looks = pubsub::copy_looks(s, seq, data);
    assert(looks[0] == pubsub::length_looks(s, seq, data.len() as u32, seq)[0]);
    assert(looks[1] == pubsub::length_looks(s, seq, data.len() as u32, seq)[1]);
    lemma_numbers_grow(c, images, topic, 0, i);
    lemma_numbers_grow(c, images, topic, i, t);
    law_sample_stays(c, images, topic, i, t, j, seq);
    lemma_kept_length(c, images[i], images[t], topic, slot);
    let found = memory::bytes_at(images[i], s + SAMPLE_HEADER_SIZE, data.len() as int);
    assert(pubsub::sample_data(c, images[i], topic, seq) == Some(found));
    pubsub::lemma_sample(c, topic, slot);
    law_no_torn_sample(c, images, topic, i, j, seq, found, moments, data);
}

/// The length in a place that is kept.
proof fn lemma_kept_length(c: PubSubConfig, m: Seq<u8>, n: Seq<u8>, topic: int, slot: int)
    requires
        pubsub_laws::fits(c, m),
        n.len() == m.len(),
        0 <= topic < c.max_topics,
        0 <= slot < c.ring_depth,
        kept(c, m, n, topic, slot),
    ensures
        ({
            let s = pubsub::sample_off(c, topic, slot);
            memory::u32_at(n, s + SS_DATA_LEN) == memory::u32_at(m, s + SS_DATA_LEN)
        }),
{
    pubsub::lemma_sample(c, topic, slot);
    lemma_kept_byte(c, m, n, topic, slot, 8);
    lemma_kept_byte(c, m, n, topic, slot, 9);
    lemma_kept_byte(c, m, n, topic, slot, 10);
    lemma_kept_byte(c, m, n, topic, slot, 11);
}

/// Publishing a sample is a run, so that subscribers may look at any moment of
/// it.
#[verifier::rlimit(50)]
pub proof fn law_publish_is_a_run(c: PubSubConfig, m: Seq<u8>, topic: int, data: Seq<u8>)
    requires
        pubsub_laws::fits(c, m),
        0 <= topic < c.max_topics,
        data.len() <= c.sample_capacity,
        pubsub::write_seq(m, topic) < u64::MAX,
    ensures
        run(c, publication(c, m, topic, data), topic),
        publication(c, m, topic, data)[5] == pubsub_laws::published(c, m, topic, data),
{
    let images = publication(c, m, topic, data);
    let seq = pubsub_laws::next_seq(m, topic);
    let a = pubsub::slot_of(c, seq);
    let s = pubsub::sample_off(c, topic, a);
    lemma_store(c, m, topic, s + SAMPLE_HEADER_SIZE, data);
    lemma_store(c, images[1], topic, s + SS_SEQ, memory::le64(0));
    lemma_store(c, images[2], topic, s + SS_DATA_LEN, memory::le32(data.len() as u32));
    lemma_store(c, images[3], topic, s + SS_SEQ, memory::le64(seq));
    lemma_counted(c, images[4], topic, seq);
    assert forall|i: int| 0 <= i < images.len() - 1 implies #[trigger] goes_on(
        c,
        images,
        topic,
        i,
    ) by {
        assert(i == 0 || i == 1 || i == 2 || i == 3 || i == 4);
    }
}

/// Counting the new sample is a step.
proof fn lemma_counted(c: PubSubConfig, m: Seq<u8>, topic: int, seq: u64)
    requires
        pubsub_laws::fits(c, m),
        0 <= topic < c.max_topics,
        pubsub::write_seq(m, topic) < u64::MAX,
        seq == pubsub::write_seq(m, topic) + 1,
    ensures
        step(c, m, memory::put64(m, pubsub::topic_off(topic) + TE_WRITE_SEQ, seq), topic),
{
    let n = memory::put64(m, pubsub::topic_off(topic) + TE_WRITE_SEQ, seq);
    pubsub::lemma_topic(c, topic);
    assert forall|slot: int| 0 <= slot < c.ring_depth implies #[trigger] kept(
        c,
        m,
        n,
        topic,
        slot,
    ) by {
        pubsub::lemma_sample(c, topic, slot);
        let s = pubsub::sample_off(c, topic, slot);
        let size = SAMPLE_HEADER_SIZE + c.sample_capacity;
        assert(memory::bytes_at(m, s, size) =~= memory::bytes_at(n, s, size));
    }
}

} // verus!
