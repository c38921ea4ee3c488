//! What holds of topics with rings of samples.

use crate::memory;
use crate::protocol::layout;
use crate::transport::shm::cells;
use crate::transport::shm::pubsub::{
    self, PubSubConfig, GH_HEARTBEAT, SAMPLE_HEADER_SIZE, SS_DATA_LEN, SS_SEQ, TE_URI_HASH,
    TOPIC_ENTRY_SIZE,
};
use vstd::prelude::*;

verus! {

broadcast use crate::memory::group_memory;

/// A segment has room for its parts.
pub open spec fn fits(c: PubSubConfig, m: Seq<u8>) -> bool {
    pubsub::sound(c) && pubsub::total_size(c) <= m.len() <= usize::MAX
}

/// The sequence number of the next sample.
pub open spec fn next_seq(m: Seq<u8>, topic: int) -> u64 {
    memory::wrapping_sum_u64(pubsub::write_seq(m, topic), 1)
}

/// The segment after a sample was written and published.
pub open spec fn published(c: PubSubConfig, m: Seq<u8>, topic: int, data: Seq<u8>) -> Seq<u8> {
    let seq = next_seq(m, topic);
    let s = pubsub::sample_off(c, topic, pubsub::slot_of(c, seq));
    pubsub::after_commit(
        c,
        memory::put(m, s + SAMPLE_HEADER_SIZE, data),
        topic,
        seq,
        data.len() as u32,
    )
}

/// A sample that was published is in the ring, and is the newest one of its
/// topic.
pub proof fn law_published_sample_is_in_the_ring(
    c: PubSubConfig,
    m: Seq<u8>,
    topic: int,
    data: Seq<u8>,
)
    requires
        fits(c, m),
        0 <= topic < c.max_topics,
        data.len() <= c.sample_capacity,
    ensures
        ({
            let n = published(c, m, topic, data);
            &&& n.len() == m.len()
            &&& pubsub::write_seq(n, topic) == next_seq(m, topic)
            &&& pubsub::sample_data(c, n, topic, next_seq(m, topic)) == Some(data)
        }),
{
    let seq = next_seq(m, topic);
    let s = pubsub::sample_off(c, topic, pubsub::slot_of(c, seq));
    pubsub::lemma_topic(c, topic);
    pubsub::lemma_sample(c, topic, pubsub::slot_of(c, seq));
    let m1 = memory::put(m, s + SAMPLE_HEADER_SIZE, data);
    assert(memory::bytes_at(m1, s + SAMPLE_HEADER_SIZE, data.len() as int) =~= data);
    let n = published(c, m, topic, data);
    assert(memory::u64_at(n, s + SS_SEQ) == seq);
    assert(memory::u32_at(n, s + SS_DATA_LEN) == data.len());
}

/// A subscriber that is up to date receives the sample that is published next,
/// whether it asks for the next or for the newest one.
pub proof fn law_publish_then_receive(c: PubSubConfig, m: Seq<u8>, topic: int, data: Seq<u8>)
    requires
        fits(c, m),
        0 <= topic < c.max_topics,
        data.len() <= c.sample_capacity,
        pubsub::write_seq(m, topic) < u64::MAX,
    ensures
        ({
            let n = published(c, m, topic, data);
            let last = pubsub::write_seq(m, topic);
            &&& pubsub::received_seq(c, n, topic, last) == Some(next_seq(m, topic))
            &&& pubsub::latest_seq(c, n, topic, last) == Some(next_seq(m, topic))
            &&& pubsub::received_seq(c, n, topic, next_seq(m, topic)) is None
        }),
{
    law_published_sample_is_in_the_ring(c, m, topic, data);
}

/// A sample stays in the ring while fewer samples than the ring has slots are
/// published after it, and those of other topics stay in theirs.
pub proof fn law_publish_keeps_other_samples(
    c: PubSubConfig,
    m: Seq<u8>,
    topic: int,
    data: Seq<u8>,
    other: int,
    seq: u64,
)
    requires
        fits(c, m),
        0 <= topic < c.max_topics,
        0 <= other < c.max_topics,
        data.len() <= c.sample_capacity,
        other != topic || 0 < next_seq(m, topic) - seq < c.ring_depth,
    ensures
        pubsub::sample_data(c, published(c, m, topic, data), other, seq) == pubsub::sample_data(
            c,
            m,
            other,
            seq,
        ),
        other != topic ==> pubsub::write_seq(published(c, m, topic, data), other)
            == pubsub::write_seq(m, other),
{
    let next = next_seq(m, topic);
    let a = pubsub::slot_of(c, next);
    let b = pubsub::slot_of(c, seq);
    if other == topic {
        lemma_slots_differ(seq as int, next as int, c.ring_depth as int);
    }
    pubsub::lemma_topic(c, topic);
    pubsub::lemma_topic(c, other);
    pubsub::lemma_sample(c, topic, a);
    pubsub::lemma_sample(c, other, b);
    pubsub::lemma_stride(c);
    cells::lemma_cells_apart(c.ring_depth as int, pubsub::stride(c), topic, a, other, b);
    let s = pubsub::sample_off(c, topic, a);
    let o = pubsub::sample_off(c, other, b);
    let n = published(c, m, topic, data);
    assert(forall|i: int|
        o <= i < o + SAMPLE_HEADER_SIZE + c.sample_capacity ==> #[trigger] n[i] == m[i]);
    let len = memory::u32_at(m, o + SS_DATA_LEN);
    assert(memory::u32_at(n, o + SS_DATA_LEN) == len);
    assert(memory::u64_at(n, o + SS_SEQ) == memory::u64_at(m, o + SS_SEQ));
    if len <= c.sample_capacity {
        assert(memory::bytes_at(n, o + SAMPLE_HEADER_SIZE, len as int) =~= memory::bytes_at(
            m,
            o + SAMPLE_HEADER_SIZE,
            len as int,
        ));
    }
}

/// Two numbers less than `n` apart have different remainders.
pub proof fn lemma_slots_differ(a: int, b: int, n: int)
    requires
        0 <= a < b,
        b - a < n,
    ensures
        a % n != b % n,
{
    assert(a % n != b % n) by (nonlinear_arith)
        requires
            0 <= a < b,
            b - a < n,
    {
        let q = a / n;
        let p = b / n;
        if a % n == b % n {
            assert(b - a == (p - q) * n);
        }
    }
}

/// Telling subscribers of a sample changes no sample and no sequence number.
pub proof fn law_notice_keeps_samples(
    c: PubSubConfig,
    m: Seq<u8>,
    topic: int,
    other: int,
    seq: u64,
)
    requires
        fits(c, m),
        0 <= topic < c.max_topics,
        0 <= other < c.max_topics,
    ensures
        pubsub::sample_data(c, pubsub::with_notice(m, topic), other, seq) == pubsub::sample_data(
            c,
            m,
            other,
            seq,
        ),
        pubsub::write_seq(pubsub::with_notice(m, topic), other) == pubsub::write_seq(m, other),
{
    pubsub::lemma_topic(c, topic);
    pubsub::lemma_topic(c, other);
    pubsub::lemma_sample(c, other, pubsub::slot_of(c, seq));
    lemma_topics_apart(topic, other);
}

proof fn lemma_topics_apart(a: int, b: int)
    ensures
        a < b ==> pubsub::topic_off(a) + TOPIC_ENTRY_SIZE <= pubsub::topic_off(b),
        b < a ==> pubsub::topic_off(b) + TOPIC_ENTRY_SIZE <= pubsub::topic_off(a),
{
}

/// A subscriber that has not fallen too far behind receives the samples in
/// order, without leaving one out.
pub proof fn law_receive_in_order(c: PubSubConfig, m: Seq<u8>, topic: int, last: u64)
    requires
        last < pubsub::write_seq(m, topic),
        pubsub::write_seq(m, topic) - last <= c.ring_depth,
        pubsub::sample_data(c, m, topic, (last + 1) as u64) is Some,
    ensures
        pubsub::received_seq(c, m, topic, last) == Some((last + 1) as u64),
{
}

/// A subscriber that has fallen too far behind skips to the newest sample.
pub proof fn law_receive_skips_to_the_newest(c: PubSubConfig, m: Seq<u8>, topic: int, last: u64)
    requires
        pubsub::write_seq(m, topic) - last > c.ring_depth,
        pubsub::sample_data(c, m, topic, pubsub::write_seq(m, topic)) is Some,
    ensures
        pubsub::received_seq(c, m, topic, last) == Some(pubsub::write_seq(m, topic)),
{
}

/// What is received is newer than what was received before, and not newer than
/// the newest sample.
pub proof fn law_receive_moves_forward(c: PubSubConfig, m: Seq<u8>, topic: int, last: u64)
    ensures
        pubsub::received_seq(c, m, topic, last) matches Some(s) ==> last < s
            <= pubsub::write_seq(m, topic),
        pubsub::latest_seq(c, m, topic, last) matches Some(s) ==> last < s && s
            == pubsub::write_seq(m, topic),
{
}

/// A segment that was created can be connected to while its heartbeat is
/// fresh, and has the parameters that it was created with.
#[verifier::rlimit(50)]
pub proof fn law_create_then_connect(c: PubSubConfig, m: Seq<u8>, pid: u32, beat: u64, now: u64)
    requires
        pubsub::config_fault(c) is None,
        pubsub::total_size(c) <= m.len(),
        now - beat <= c.stale_timeout_us,
    ensures
        ({
            let n = pubsub::with_header(c, m, pid, beat);
            let h = pubsub::header_config(n, None);
            &&& pubsub::connect_fault(n, None, now) is None
            &&& h.max_topics == c.max_topics
            &&& h.sample_capacity == c.sample_capacity
            &&& h.ring_depth == c.ring_depth
            &&& h.stale_timeout_us == c.stale_timeout_us
            &&& pubsub::is_active(n, 0, now)
        }),
{
    pubsub::lemma_parts(c);
    pubsub::lemma_sample(c, 0, 0);
    let n = pubsub::with_header(c, m, pid, beat);
    let h = pubsub::header_config(n, None);
    assert(memory::bytes_at(n, 0, 8) =~= pubsub::magic());
    assert(pubsub::total_size(h) == pubsub::total_size(c));
    assert(pubsub::stride(h) == pubsub::stride(c));
    assert(memory::u64_at(n, GH_HEARTBEAT as int) == beat);
}

/// A topic that was registered is found by its URI, with no samples, where no
/// topic before it has the same hash.
pub proof fn law_register_then_subscribe(c: PubSubConfig, m: Seq<u8>, topic: int, uri: Seq<u8>)
    requires
        fits(c, m),
        pubsub::free_topic(c, m, 0) == Some(topic as u32),
        0 <= topic < c.max_topics,
        uri.len() <= pubsub::MAX_URI_LEN,
        forall|t: int|
            0 <= t < topic ==> memory::u64_at(m, #[trigger] pubsub::topic_off(t) + TE_URI_HASH)
                != layout::fnv(uri),
    ensures
        ({
            let n = pubsub::with_topic(m, topic, uri);
            &&& pubsub::search_topic(c, n, uri, 0) == pubsub::TopicSearch::Found(topic)
            &&& pubsub::write_seq(n, topic) == 0
        }),
{
    let n = pubsub::with_topic(m, topic, uri);
    pubsub::lemma_topic(c, topic);
    lemma_topic_written(c, m, topic, uri);
    assert forall|t: int| 0 <= t < topic implies memory::u64_at(
        n,
        #[trigger] pubsub::topic_off(t) + TE_URI_HASH,
    ) != layout::fnv(uri) by {
        pubsub::lemma_topic(c, t);
        lemma_topics_apart(t, topic);
    }
    lemma_search(c, n, uri, topic, 0);
}

proof fn lemma_topic_written(c: PubSubConfig, m: Seq<u8>, topic: int, uri: Seq<u8>)
    requires
        fits(c, m),
        0 <= topic < c.max_topics,
        uri.len() <= pubsub::MAX_URI_LEN,
    ensures
        ({
            let n = pubsub::with_topic(m, topic, uri);
            let t = pubsub::topic_off(topic);
            &&& pubsub::is_registered(n, topic)
            &&& memory::u64_at(n, t + TE_URI_HASH) == layout::fnv(uri)
            &&& pubsub::holds_uri(n, topic, uri)
            &&& pubsub::write_seq(n, topic) == 0
        }),
{
    pubsub::lemma_topic(c, topic);
    let n = pubsub::with_topic(m, topic, uri);
    let t = pubsub::topic_off(topic);
    assert(memory::bytes_at(n, t + pubsub::TE_URI_STR, uri.len() as int) =~= uri);
}

proof fn lemma_search(c: PubSubConfig, n: Seq<u8>, uri: Seq<u8>, topic: int, from: int)
    requires
        0 <= from <= topic < c.max_topics,
        pubsub::is_registered(n, topic),
        memory::u64_at(n, pubsub::topic_off(topic) + TE_URI_HASH) == layout::fnv(uri),
        pubsub::holds_uri(n, topic, uri),
        forall|t: int|
            0 <= t < topic ==> memory::u64_at(n, #[trigger] pubsub::topic_off(t) + TE_URI_HASH)
                != layout::fnv(uri),
    ensures
        pubsub::search_topic(c, n, uri, from) == pubsub::TopicSearch::Found(topic),
    decreases topic - from,
{
    if from < topic {
        assert(memory::u64_at(n, pubsub::topic_off(from) + TE_URI_HASH) != layout::fnv(uri));
        lemma_search(c, n, uri, topic, from + 1);
    }
}

} // verus!
