//! What holds of the publish/subscribe segment across operations.

use crate::memory;
use crate::protocol::config::PubSubConfig;
use crate::protocol::header;
use crate::protocol::layout::{
    self, GH_HEARTBEAT, GH_POOL_HEAD, GH_VERSION, HEADER_SIZE, MAX_TOPICS_LIMIT, RING_ENTRY_SIZE,
    VERSION,
};
use crate::protocol::pool::{self, NO_BLOCK};
use crate::protocol::region;
use vstd::prelude::*;

verus! {

broadcast use crate::memory::group_memory;

/// `m` and `n` differ at most in the bytes `[lo, hi)`.
pub open spec fn same_outside(m: Seq<u8>, n: Seq<u8>, lo: int, hi: int) -> bool {
    &&& m.len() == n.len()
    &&& forall|i: int| 0 <= i < m.len() && !(lo <= i < hi) ==> #[trigger] n[i] == m[i]
}

/// A slot of a ring is empty.
spec fn empty_slot(c: PubSubConfig, m: Seq<u8>, topic: int, s: int) -> bool {
    &&& region::ring_seq(c, m, topic, s) == 0
    &&& region::ring_block(c, m, topic, s) == NO_BLOCK
    &&& region::ring_len(c, m, topic, s) == 0
}

/// The first `n` slots of a ring are empty.
spec fn empty_slots(c: PubSubConfig, m: Seq<u8>, topic: int, n: int) -> bool {
    forall|s: int| 0 <= s < n ==> #[trigger] empty_slot(c, m, topic, s)
}

proof fn lemma_empty_ring_frame(c: PubSubConfig, m: Seq<u8>, topic: int, slots: nat)
    requires
        layout::valid_config(c),
        layout::region_size(c) <= m.len(),
        0 <= topic < c.max_topics,
        slots <= c.ring_depth,
    ensures
        same_outside(
            m,
            header::with_empty_ring(c, m, topic, slots),
            layout::ring_off(c, topic, 0),
            layout::ring_off(c, topic, 0) + slots * RING_ENTRY_SIZE,
        ),
        empty_slots(c, header::with_empty_ring(c, m, topic, slots), topic, slots as int),
    decreases slots,
{
    layout::lemma_layout(c);
    if slots > 0 {
        let k = slots - 1;
        lemma_empty_ring_frame(c, m, topic, k as nat);
        layout::lemma_ring(c, topic, k);
        let a = header::with_empty_ring(c, m, topic, k as nat);
        let z = header::with_empty_ring(c, m, topic, slots);
        assert forall|s: int| 0 <= s < slots implies #[trigger] empty_slot(c, z, topic, s) by {
            layout::lemma_ring(c, topic, s);
            if s < k {
                assert(empty_slot(c, a, topic, s));
            }
        }
    }
}

#[verifier::rlimit(40)]
proof fn lemma_empty_rings_frame(c: PubSubConfig, m: Seq<u8>, topics: nat)
    requires
        layout::valid_config(c),
        layout::region_size(c) <= m.len(),
        topics <= c.max_topics,
    ensures
        same_outside(
            m,
            header::with_empty_rings(c, m, topics),
            layout::ring_base_spec(c),
            layout::ring_off(c, topics as int, 0),
        ),
        layout::ring_off(c, topics as int, 0) <= layout::pool_off(c),
        forall|t: int, s: int|
            0 <= t < topics && 0 <= s < c.ring_depth ==> {
                &&& #[trigger] region::ring_seq(c, header::with_empty_rings(c, m, topics), t, s)
                    == 0
                &&& region::ring_block(c, header::with_empty_rings(c, m, topics), t, s) == NO_BLOCK
                &&& region::ring_len(c, header::with_empty_rings(c, m, topics), t, s) == 0
            },
    decreases topics,
{
    layout::lemma_layout(c);
    let d = c.ring_depth as int;
    if topics > 0 {
        let k = topics - 1;
        lemma_empty_rings_frame(c, m, k as nat);
        let a = header::with_empty_rings(c, m, k as nat);
        let z = header::with_empty_rings(c, m, topics);
        lemma_empty_ring_frame(c, a, k, c.ring_depth as nat);
        layout::lemma_ring(c, k, d - 1);
        assert(topics * d == k * d + d) by (nonlinear_arith)
            requires
                topics == k + 1,
        ;
        assert forall|t: int, s: int| 0 <= t < topics && 0 <= s < c.ring_depth implies {
            &&& #[trigger] region::ring_seq(c, z, t, s) == 0
            &&& region::ring_block(c, z, t, s) == NO_BLOCK
            &&& region::ring_len(c, z, t, s) == 0
        } by {
            layout::lemma_ring(c, t, s);
            if t < k {
                assert(region::ring_seq(c, a, t, s) == 0);
                assert(t * d + d <= k * d) by (nonlinear_arith)
                    requires
                        t < k,
                        0 <= d,
                ;
            } else {
                assert(empty_slot(c, z, k, s));
            }
        }
    } else {
        assert(0 * d == 0);
    }
}

/// Initialising the free list touches nothing but the list head and the pool.
proof fn lemma_init_frame(p: pool::PoolLayout, m: Seq<u8>, n: nat)
    requires
        p.fits(m.len()),
        n <= p.block_count,
    ensures
        same_outside(m, p.linked(m, n), p.base as int, m.len() as int),
    decreases n,
{
    if n > 0 {
        lemma_init_frame(p, m, (n - 1) as nat);
        pool::lemma_block(p, n - 1, m.len());
    }
}

/// A segment that was created has all blocks on its free list, and all its
/// rings are empty.
pub proof fn law_created_is_empty(c: PubSubConfig, m: Seq<u8>, pid: u64, now: u64)
    requires
        layout::valid_config(c),
        layout::region_size(c) <= m.len() <= usize::MAX,
    ensures
        header::created(c, m, pid, now).len() == m.len(),
        layout::pool_of(c).is_free_list(
            header::created(c, m, pid, now),
            layout::pool_of(c).full_list(),
        ),
        forall|t: int, s: int|
            0 <= t < c.max_topics && 0 <= s < c.ring_depth ==> {
                &&& #[trigger] region::ring_seq(c, header::created(c, m, pid, now), t, s) == 0
                &&& region::ring_block(c, header::created(c, m, pid, now), t, s) == NO_BLOCK
                &&& region::ring_len(c, header::created(c, m, pid, now), t, s) == 0
            },
{
    let p = layout::pool_of(c);
    layout::lemma_layout(c);
    let m1 = header::with_header(c, m, pid);
    let m3 = p.after_init(m1);
    let beat = memory::larger_u64(memory::u64_at(m3, GH_HEARTBEAT as int), now);
    let m4 = memory::put64(m3, GH_HEARTBEAT as int, beat);
    let z = header::created(c, m, pid, now);
    lemma_init_frame(p, m1, c.block_count as nat);
    lemma_empty_rings_frame(c, m4, c.max_topics as nat);
    pool::law_init_frees_every_block(p, m1);
    lemma_free_list_kept(p, m3, m4, p.full_list());
    lemma_free_list_kept(p, m4, z, p.full_list());
}

/// A segment opens after it was created, with the configuration that it was
/// created with, and the publisher is alive. A segment of more topics than a
/// header may announce is the exception.
pub proof fn law_create_then_open(c: PubSubConfig, m: Seq<u8>, pid: u64, now: u64)
    requires
        layout::valid_config(c),
        layout::region_size(c) <= m.len() <= usize::MAX,
        c.max_topics <= MAX_TOPICS_LIMIT,
    ensures
        header::header_fault(header::created(c, m, pid, now)) is None,
        header::header_config(header::created(c, m, pid, now)) == (PubSubConfig {
            heartbeat_interval_us:
                crate::protocol::config::default_config().heartbeat_interval_us,
            ..c
        }),
        !region::is_stale(
            memory::u64_at(header::created(c, m, pid, now), GH_HEARTBEAT as int),
            now,
            c.stale_timeout_us,
        ),
{
    let p = layout::pool_of(c);
    layout::lemma_layout(c);
    let m1 = header::with_header(c, m, pid);
    lemma_init_frame(p, m1, c.block_count as nat);
    let m3 = p.after_init(m1);
    let beat = memory::larger_u64(memory::u64_at(m3, GH_HEARTBEAT as int), now);
    let m4 = memory::put64(m3, GH_HEARTBEAT as int, beat);
    let z = header::created(c, m, pid, now);
    lemma_empty_rings_frame(c, m4, c.max_topics as nat);
    lemma_header_kept(c, m, pid, z, beat, m3);
}

/// The free list depends on the head word and the pool alone.
pub proof fn lemma_free_list_kept(p: pool::PoolLayout, m: Seq<u8>, n: Seq<u8>, list: Seq<u32>)
    requires
        p.fits(m.len()),
        m.len() == n.len(),
        p.is_free_list(m, list),
        forall|i: int| p.head <= i < p.head + 8 ==> m[i] == #[trigger] n[i],
        forall|i: int| p.base <= i < m.len() ==> m[i] == #[trigger] n[i],
    ensures
        p.is_free_list(n, list),
{
    pool::lemma_bounds(p, m.len());
    assert(p.first(n) == p.first(m));
    assert forall|i: int| 0 <= i < list.len() implies p.next(n, #[trigger] list[i] as int)
        == pool::link(list, i + 1) by {
        pool::lemma_block(p, list[i] as int, m.len());
    }
}

/// A header that was written holds the magic bytes, the version and the
/// configuration.
proof fn lemma_header_written(c: PubSubConfig, m: Seq<u8>, pid: u64)
    requires
        HEADER_SIZE <= m.len(),
    ensures
        ({
            let n = header::with_header(c, m, pid);
            &&& n.len() == m.len()
            &&& memory::bytes_at(n, 0, 8) == layout::magic()
            &&& memory::u32_at(n, GH_VERSION as int) == VERSION
            &&& header::header_config(n) == (PubSubConfig {
                heartbeat_interval_us:
                    crate::protocol::config::default_config().heartbeat_interval_us,
                ..c
            })
        }),
{
    let n = header::with_header(c, m, pid);
    assert(memory::bytes_at(n, 0, 8) =~= layout::magic());
}

/// The parts of a header that say what the segment is depend on nothing but
/// their own bytes.
proof fn lemma_same_header(m: Seq<u8>, n: Seq<u8>)
    requires
        HEADER_SIZE <= m.len(),
        m.len() == n.len(),
        forall|i: int|
            0 <= i < HEADER_SIZE && !(GH_POOL_HEAD <= i < GH_POOL_HEAD + 16) ==> #[trigger] n[i]
                == m[i],
    ensures
        memory::bytes_at(n, 0, 8) == memory::bytes_at(m, 0, 8),
        memory::u32_at(n, GH_VERSION as int) == memory::u32_at(m, GH_VERSION as int),
        header::header_config(n) == header::header_config(m),
{
    assert(memory::bytes_at(n, 0, 8) =~= memory::bytes_at(m, 0, 8));
}

proof fn lemma_header_kept(
    c: PubSubConfig,
    m: Seq<u8>,
    pid: u64,
    z: Seq<u8>,
    beat: u64,
    m3: Seq<u8>,
)
    requires
        layout::valid_config(c),
        layout::region_size(c) <= m.len() <= usize::MAX,
        c.max_topics <= MAX_TOPICS_LIMIT,
        z.len() == m.len() == m3.len(),
        forall|i: int|
            0 <= i < HEADER_SIZE && !(GH_POOL_HEAD <= i < GH_POOL_HEAD + 8) ==> #[trigger] m3[i]
                == header::with_header(c, m, pid)[i],
        forall|i: int|
            0 <= i < HEADER_SIZE ==> #[trigger] z[i] == memory::put64(
                m3,
                GH_HEARTBEAT as int,
                beat,
            )[i],
    ensures
        header::header_fault(z) is None,
        header::header_config(z) == (PubSubConfig {
            heartbeat_interval_us:
                crate::protocol::config::default_config().heartbeat_interval_us,
            ..c
        }),
        memory::u64_at(z, GH_HEARTBEAT as int) == beat,
{
    layout::lemma_layout(c);
    let m1 = header::with_header(c, m, pid);
    let m4 = memory::put64(m3, GH_HEARTBEAT as int, beat);
    assert(memory::u64_at(z, GH_HEARTBEAT as int) == memory::u64_at(m4, GH_HEARTBEAT as int));
    lemma_header_written(c, m, pid);
    lemma_same_header(m1, z);
}

/// A publisher counts as dead exactly if more time than the timeout has passed since its
/// heartbeat: it is alive up to and including the last microsecond of the timeout, and
/// dead from the next one on, whatever the timeout is.
pub proof fn law_dead_after_the_timeout(heartbeat: u64, now: u64, timeout: u64)
    ensures
        region::is_stale(heartbeat, now, timeout) <==> now > heartbeat + timeout,
        heartbeat + timeout <= u64::MAX ==> !region::is_stale(
            heartbeat,
            (heartbeat + timeout) as u64,
            timeout,
        ),
        heartbeat + timeout < u64::MAX ==> region::is_stale(
            heartbeat,
            (heartbeat + timeout + 1) as u64,
            timeout,
        ),
{
}

proof fn lemma_created_beat(c: PubSubConfig, m: Seq<u8>, pid: u64, now: u64)
    requires
        layout::valid_config(c),
        layout::region_size(c) <= m.len() <= usize::MAX,
        c.max_topics <= MAX_TOPICS_LIMIT,
        memory::u64_at(m, GH_HEARTBEAT as int) <= now,
    ensures
        memory::u64_at(header::created(c, m, pid, now), GH_HEARTBEAT as int) == now,
{
    let p = layout::pool_of(c);
    layout::lemma_layout(c);
    let m1 = header::with_header(c, m, pid);
    lemma_init_frame(p, m1, c.block_count as nat);
    let m3 = p.after_init(m1);
    let beat = memory::larger_u64(memory::u64_at(m3, GH_HEARTBEAT as int), now);
    let m4 = memory::put64(m3, GH_HEARTBEAT as int, beat);
    let z = header::created(c, m, pid, now);
    lemma_empty_rings_frame(c, m4, c.max_topics as nat);
    lemma_header_kept(c, m, pid, z, beat, m3);
    assert forall|k: int| GH_HEARTBEAT <= k < GH_HEARTBEAT + 8 implies #[trigger] m3[k]
        == m[k] by {
        assert(m1[k] == m[k]);
    }
    assert(memory::u64_at(m3, GH_HEARTBEAT as int) == memory::u64_at(m, GH_HEARTBEAT as int));
}

/// A segment tells everyone who opens it the timeout that it was created with, and the
/// time at which it was created: opened at a later time, its publisher counts as dead
/// exactly if the timeout has passed since.
pub proof fn law_created_segment_dies_after_its_timeout(
    c: PubSubConfig,
    m: Seq<u8>,
    pid: u64,
    created_at: u64,
    now: u64,
)
    requires
        layout::valid_config(c),
        layout::region_size(c) <= m.len() <= usize::MAX,
        c.max_topics <= MAX_TOPICS_LIMIT,
        memory::u64_at(m, GH_HEARTBEAT as int) <= created_at,
    ensures
        ({
            let z = header::created(c, m, pid, created_at);
            let heartbeat = memory::u64_at(z, GH_HEARTBEAT as int);
            let timeout = header::header_config(z).stale_timeout_us;
            &&& timeout == c.stale_timeout_us
            &&& heartbeat == created_at
            &&& region::is_stale(heartbeat, now, timeout) <==> now - created_at
                > c.stale_timeout_us
        }),
{
    law_create_then_open(c, m, pid, created_at);
    lemma_created_beat(c, m, pid, created_at);
}

/// Two to the power of `k`.
pub open spec fn doubled(k: nat) -> int
    decreases k,
{
    if k == 0 {
        1
    } else {
        2 * doubled((k - 1) as nat)
    }
}

/// A power of two is one doubled some number of times, and nothing else is one.
pub proof fn law_powers_of_two(n: int, k: nat)
    ensures
        layout::is_power_of_two(doubled(k)),
        layout::is_power_of_two(n) ==> exists|j: nat| n == #[trigger] doubled(j),
    decreases k, n,
{
    if k > 0 {
        law_powers_of_two(0, (k - 1) as nat);
        lemma_doubled_positive((k - 1) as nat);
        assert(doubled(k) / 2 == doubled((k - 1) as nat));
    }
    if layout::is_power_of_two(n) {
        if n == 1 {
            assert(n == doubled(0));
        } else {
            lemma_is_doubled(n);
        }
    }
}

proof fn lemma_doubled_positive(k: nat)
    ensures
        doubled(k) >= 1,
    decreases k,
{
    if k > 0 {
        lemma_doubled_positive((k - 1) as nat);
    }
}

proof fn lemma_is_doubled(n: int)
    requires
        layout::is_power_of_two(n),
    ensures
        exists|j: nat| n == #[trigger] doubled(j),
    decreases n,
{
    if n == 1 {
        assert(n == doubled(0));
    } else {
        lemma_is_doubled(n / 2);
        let j = choose|j: nat| n / 2 == #[trigger] doubled(j);
        assert(n == doubled(j + 1));
    }
}

/// A segment is opened exactly if its header is whole: it begins with the magic bytes, has
/// the version, room for a byte in a block, a ring whose depth is a power of two, blocks
/// and topics, of which there are not too many, and the segment is as long as all of that
/// takes.
pub proof fn law_what_is_opened(m: Seq<u8>)
    ensures
        header::header_fault(m) is None <==> {
            let topics = memory::u32_at(m, layout::GH_MAX_TOPICS as int);
            let blocks = memory::u32_at(m, layout::GH_BLOCK_COUNT as int);
            let size = memory::u32_at(m, layout::GH_BLOCK_SIZE as int);
            let depth = memory::u32_at(m, layout::GH_RING_DEPTH as int);
            &&& m.len() >= HEADER_SIZE
            &&& memory::bytes_at(m, 0, 8) == layout::magic()
            &&& memory::u32_at(m, GH_VERSION as int) == 3
            &&& size >= 9
            &&& exists|k: nat| depth == #[trigger] doubled(k)
            &&& blocks >= 1
            &&& 1 <= topics <= 4096
            &&& HEADER_SIZE + topics * layout::TOPIC_ENTRY_SIZE + topics * depth
                * RING_ENTRY_SIZE + blocks * size <= if m.len() <= usize::MAX {
                m.len() as int
            } else {
                usize::MAX as int
            }
        },
{
    let depth = memory::u32_at(m, layout::GH_RING_DEPTH as int) as int;
    if layout::is_power_of_two(depth) {
        lemma_is_doubled(depth);
    }
    if exists|k: nat| depth == #[trigger] doubled(k) {
        let k = choose|k: nat| depth == #[trigger] doubled(k);
        law_powers_of_two(0, k);
    }
}

/// A name is refused if it is empty, or has a slash, a backslash, a zero or two dots in a
/// row anywhere; any other name is accepted.
pub proof fn law_segment_names(a: Seq<char>, b: Seq<char>, name: Seq<char>)
    ensures
        !layout::valid_segment_name(Seq::empty()),
        !layout::valid_segment_name(a + seq!['/'] + b),
        !layout::valid_segment_name(a + seq!['\\'] + b),
        !layout::valid_segment_name(a + seq!['\0'] + b),
        !layout::valid_segment_name(a + seq!['.', '.'] + b),
        name.len() > 0 && (forall|i: int|
            0 <= i < name.len() ==> #[trigger] name[i] != '/' && name[i] != '\\' && name[i]
                != '\0' && !(name[i] == '.' && i + 1 < name.len() && name[i + 1] == '.'))
            ==> layout::valid_segment_name(name),
{
    let n = a.len() as int;
    assert((a + seq!['/'] + b)[n] == '/');
    assert((a + seq!['\\'] + b)[n] == '\\');
    assert((a + seq!['\0'] + b)[n] == '\0');
    assert((a + seq!['.', '.'] + b)[n] == '.');
    assert((a + seq!['.', '.'] + b)[n + 1] == '.');
}

} // verus!
