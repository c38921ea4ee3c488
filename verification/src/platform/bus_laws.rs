//! What holds across publishing on a bus and receiving from it.

use crate::memory::{self, SharedMemory};
use crate::platform::pod_bus::{
    self, BusSubscriber, PodBus, Verdict, MAX_POD_ALIGN, MAX_SUBSCRIBER_SLOTS,
    PH_HEARTBEAT_US, PH_MAGIC, PH_RING_SIZE, PH_VALUE_ALIGN, PH_VALUE_SIZE, PH_VERSION,
    PH_WRITE_SEQ, POD_BUS_HEADER_SIZE, POD_BUS_VERSION_V2, SS_STATE_FREE,
};
use crate::pod::Pod;
use vstd::prelude::*;

verus! {

broadcast use crate::memory::group_memory;

/// Clearing the subscriber slots leaves what lies around them alone.
pub proof fn lemma_clear_subs(m: Seq<u8>, n: nat)
    requires
        n <= MAX_SUBSCRIBER_SLOTS,
        pod_bus::ring_start(true) <= m.len(),
    ensures
        pod_bus::with_clear_subs(m, n).len() == m.len(),
        forall|k: int|
            0 <= k < m.len() && !(POD_BUS_HEADER_SIZE <= k < pod_bus::sub_slot(n as int))
                ==> #[trigger] pod_bus::with_clear_subs(m, n)[k] == m[k],
        forall|i: int|
            0 <= i < n ==> #[trigger] pod_bus::sub_state(pod_bus::with_clear_subs(m, n), i)
                == SS_STATE_FREE,
    decreases n,
{
    if n > 0 {
        lemma_clear_subs(m, (n - 1) as nat);
        let a = pod_bus::with_clear_subs(m, (n - 1) as nat);
        let z = pod_bus::with_clear_subs(m, n);
        assert forall|i: int| 0 <= i < n implies #[trigger] pod_bus::sub_state(z, i)
            == SS_STATE_FREE by {
            if i < n - 1 {
                assert(pod_bus::sub_state(a, i) == SS_STATE_FREE);
            }
        }
    }
}

/// Clearing the stamps leaves everything in front of the ring alone.
pub proof fn lemma_clear_stamps(m: Seq<u8>, value_size: nat, bounded: bool, ring_size: nat, n: nat)
    requires
        n <= ring_size,
        pod_bus::bus_bytes(value_size, ring_size, bounded) <= m.len(),
    ensures
        pod_bus::with_clear_stamps(m, value_size, bounded, n).len() == m.len(),
        forall|k: int|
            0 <= k < pod_bus::ring_start(bounded) ==> #[trigger] pod_bus::with_clear_stamps(
                m,
                value_size,
                bounded,
                n,
            )[k] == m[k],
    decreases n,
{
    if n > 0 {
        lemma_clear_stamps(m, value_size, bounded, ring_size, (n - 1) as nat);
        pod_bus::lemma_ring_slot(value_size, ring_size, bounded, n - 1);
    }
}

/// A bus can be connected to after it was created: the header reads back, no
/// value is published, the publisher is alive, and every subscriber slot is
/// free.
#[verifier::rlimit(40)]
pub proof fn law_create_then_connect(
    m: Seq<u8>,
    value_size: nat,
    value_align: nat,
    ring_size: nat,
    watermark: Option<u64>,
    pid: u64,
    now: u64,
)
    requires
        pod_bus::valid_bus(value_size, ring_size as int, watermark),
        value_size <= u32::MAX,
        value_align <= MAX_POD_ALIGN,
        pod_bus::bus_bytes(value_size, ring_size, watermark is Some) <= m.len() <= usize::MAX,
    ensures
        ({
            let z = pod_bus::bus_created(
                m,
                value_size,
                value_align,
                ring_size,
                watermark,
                pid,
                now,
            );
            &&& pod_bus::bus_fault(z, value_size, value_align) is None
            &&& memory::u32_at(z, PH_RING_SIZE as int) == ring_size
            &&& (memory::u32_at(z, PH_VERSION as int) == POD_BUS_VERSION_V2 <==> watermark is Some)
            &&& pod_bus::published(z) == 0
            &&& memory::u64_at(z, PH_HEARTBEAT_US as int) == now
            &&& watermark is Some ==> pod_bus::free_sub(z, 0) == Some(0int)
        }),
{
    let bounded = watermark is Some;
    pod_bus::lemma_ring_slot(value_size, ring_size, bounded, 0);
    let m1 = pod_bus::with_bus_header(m, value_size, value_align, ring_size, watermark, pid);
    let m2 = if bounded {
        pod_bus::with_clear_subs(m1, MAX_SUBSCRIBER_SLOTS as nat)
    } else {
        m1
    };
    if bounded {
        lemma_clear_subs(m1, MAX_SUBSCRIBER_SLOTS as nat);
    }
    let m3 = pod_bus::with_clear_stamps(m2, value_size, bounded, ring_size);
    lemma_clear_stamps(m2, value_size, bounded, ring_size, ring_size);
    let z = pod_bus::bus_created(m, value_size, value_align, ring_size, watermark, pid, now);
    assert(z == memory::put64(m3, PH_HEARTBEAT_US as int, now));
    assert forall|k: int|
        0 <= k < POD_BUS_HEADER_SIZE && !(PH_HEARTBEAT_US <= k < PH_HEARTBEAT_US + 8) implies z[k]
        == m1[k] by {}
    assert(memory::bytes_at(z, PH_MAGIC as int, 8) =~= memory::bytes_at(m1, PH_MAGIC as int, 8));
    assert(memory::bytes_at(m1, PH_MAGIC as int, 8) =~= pod_bus::bus_magic());
    assert(memory::u32_at(z, PH_VERSION as int) == memory::u32_at(m1, PH_VERSION as int));
    assert(memory::u32_at(z, PH_RING_SIZE as int) == memory::u32_at(m1, PH_RING_SIZE as int));
    assert(memory::u32_at(z, PH_VALUE_SIZE as int) == memory::u32_at(m1, PH_VALUE_SIZE as int));
    assert(memory::u32_at(z, PH_VALUE_ALIGN as int) == memory::u32_at(
        m1,
        PH_VALUE_ALIGN as int,
    ));
    assert(memory::u64_at(z, PH_WRITE_SEQ as int) == memory::u64_at(m1, PH_WRITE_SEQ as int));
    if bounded {
        assert(pod_bus::sub_state(m2, 0) == SS_STATE_FREE);
        assert(pod_bus::sub_state(z, 0) == SS_STATE_FREE);
    }
}

/// The slot of value `seq` in a ring of `ring_size` slots.
pub open spec fn slot_at<T: Pod, M: SharedMemory>(bus: PodBus<T, M>, seq: u64) -> int {
    pod_bus::ring_slot(
        T::size(),
        bus.watermark is Some,
        seq as int % bus.ring_size as int,
    )
}

/// The stamp of a complete value is what its reader looks for.
proof fn lemma_ready(seq: u64)
    requires
        seq < 0x7FFF_FFFF_FFFF_FFFF,
    ensures
        pod_bus::verdict(seq, pod_bus::done_stamp(seq), pod_bus::done_stamp(seq))
            == Verdict::Ready,
{
    assert((2 * seq + 2) % 0x1_0000_0000_0000_0000 == 2 * seq + 2);
}

/// What a publication leaves in the segment: the value and its stamp in the
/// slot, and the count.
pub proof fn lemma_published<T: Pod, M: SharedMemory>(
    bus: PodBus<T, M>,
    m: Seq<u8>,
    value: T,
    now: Option<u64>,
)
    requires
        bus.wf(),
        m.len() == bus.mem.image().len(),
    ensures
        ({
            let n = bus.after_publish(m, value, now);
            let off = slot_at(bus, pod_bus::published(m));
            &&& n.len() == m.len()
            &&& pod_bus::published(n) == memory::wrapping_sum_u64(pod_bus::published(m), 1)
            &&& memory::u64_at(n, off) == pod_bus::done_stamp(pod_bus::published(m))
            &&& memory::bytes_at(n, off + 8, T::size() as int) == value.encode()
        }),
{
    value.encode_size();
    let seq = pod_bus::published(m);
    let bounded = bus.watermark is Some;
    let idx = seq as int % bus.ring_size as int;
    pod_bus::lemma_ring_slot(T::size(), bus.ring_size as nat, bounded, idx);
    let off = pod_bus::ring_slot(T::size(), bounded, idx);
    let m1 = if seq % 1024 == 0 && now is Some {
        memory::put64(m, PH_HEARTBEAT_US as int, now->0)
    } else {
        m
    };
    let m2 = memory::put(m1, off + 8, value.encode());
    let m3 = memory::put64(m2, off, pod_bus::done_stamp(seq));
    assert(value.encode().subrange(0, T::size() as int) =~= value.encode());
    assert(memory::bytes_at(m2, off + 8, T::size() as int) == value.encode());
    assert(memory::bytes_at(m3, off + 8, T::size() as int) == value.encode());
}

/// A subscriber that has read everything receives the next value that is
/// published, and it is the value that was published.
pub proof fn law_publish_then_receive<T: Pod, M: SharedMemory>(
    bus: PodBus<T, M>,
    m: Seq<u8>,
    value: T,
    now: Option<u64>,
    sub: BusSubscriber<T, M>,
)
    requires
        bus.wf(),
        m.len() == bus.mem.image().len(),
        pod_bus::published(m) < 0x7FFF_FFFF_FFFF_FFFF,
        sub.mem.image() == bus.after_publish(m, value, now),
        sub.ring_size == bus.ring_size,
        sub.bounded == bus.watermark is Some,
        sub.cursor == pod_bus::published(m),
    ensures
        pod_bus::published(sub.mem.image()) == sub.cursor + 1,
        sub.position() == sub.cursor,
        pod_bus::verdict(sub.cursor, sub.stamp(sub.cursor), sub.stamp(sub.cursor))
            == Verdict::Ready,
        sub.value_bytes(sub.cursor) == value.encode(),
{
    lemma_published(bus, m, value, now);
    lemma_ready(sub.cursor);
}

/// Publishing a value leaves the values in all other slots as they are.
pub proof fn law_publish_keeps_other_values<T: Pod, M: SharedMemory>(
    bus: PodBus<T, M>,
    m: Seq<u8>,
    value: T,
    now: Option<u64>,
    other: u64,
)
    requires
        bus.wf(),
        m.len() == bus.mem.image().len(),
        other as int % bus.ring_size as int != pod_bus::published(m) as int
            % bus.ring_size as int,
    ensures
        ({
            let n = bus.after_publish(m, value, now);
            &&& memory::u64_at(n, slot_at(bus, other)) == memory::u64_at(m, slot_at(bus, other))
            &&& memory::bytes_at(n, slot_at(bus, other) + 8, T::size() as int)
                == memory::bytes_at(m, slot_at(bus, other) + 8, T::size() as int)
        }),
{
    value.encode_size();
    let bounded = bus.watermark is Some;
    let a = pod_bus::published(m) as int % bus.ring_size as int;
    let b = other as int % bus.ring_size as int;
    pod_bus::lemma_ring_slot(T::size(), bus.ring_size as nat, bounded, a);
    pod_bus::lemma_ring_slot(T::size(), bus.ring_size as nat, bounded, b);
    if a < b {
        pod_bus::lemma_ring_slots_apart(T::size(), bounded, a, b);
    } else {
        pod_bus::lemma_ring_slots_apart(T::size(), bounded, b, a);
    }
}

/// The slowest position is not ahead of any subscriber that counts, and if one
/// counts there is a slowest position.
proof fn lemma_slowest(m: Seq<u8>, dead: Seq<u32>, n: nat, i: int)
    requires
        0 <= i < n,
        pod_bus::sub_counts(m, i, dead),
    ensures
        pod_bus::slowest(m, dead, n) is Some,
        pod_bus::slowest(m, dead, n)->0 <= pod_bus::sub_cursor(m, i),
    decreases n,
{
    if i < n - 1 {
        lemma_slowest(m, dead, (n - 1) as nat, i);
    }
}

/// A bounded bus loses nothing: as long as it is not full, publishing leaves
/// every live subscriber with at most as many unread values as the ring has
/// slots outside of the watermark. The position kept from the last look must be
/// one that no live subscriber is behind.
pub proof fn law_bounded_bus_is_lossless<T: Pod, M: SharedMemory>(
    bus: PodBus<T, M>,
    dead: Seq<u32>,
    i: int,
)
    requires
        bus.wf(),
        bus.watermark is Some,
        !bus.full(dead),
        forall|j: int|
            0 <= j < MAX_SUBSCRIBER_SLOTS && #[trigger] pod_bus::sub_counts(
                bus.mem.image(),
                j,
                dead,
            ) ==> bus.cached_slowest <= pod_bus::sub_cursor(bus.mem.image(), j),
        0 <= i < MAX_SUBSCRIBER_SLOTS,
        pod_bus::sub_counts(bus.mem.image(), i, dead),
    ensures
        pod_bus::published(bus.mem.image()) + 1 - pod_bus::sub_cursor(bus.mem.image(), i)
            <= bus.ring_size - bus.watermark->0,
{
    lemma_slowest(bus.mem.image(), dead, MAX_SUBSCRIBER_SLOTS as nat, i);
}

/// A subscriber that is no further behind than the ring is long reads on where
/// it stopped, and misses nothing.
pub proof fn law_no_lag_within_the_ring<T: Pod, M: SharedMemory>(sub: BusSubscriber<T, M>)
    requires
        pod_bus::published(sub.mem.image()) - sub.cursor <= sub.ring_size,
    ensures
        sub.position() == sub.cursor,
{
}

/// A subscriber that is further behind than the ring is long goes on with the
/// oldest value that the ring holds.
pub proof fn law_lag_skips_to_the_oldest<T: Pod, M: SharedMemory>(sub: BusSubscriber<T, M>)
    requires
        pod_bus::published(sub.mem.image()) - sub.cursor > sub.ring_size,
    ensures
        sub.position() == pod_bus::published(sub.mem.image()) - sub.ring_size,
{
}

/// Once every subscriber has left, or is gone, a bounded bus is never full.
pub proof fn law_nobody_holds_back<T: Pod, M: SharedMemory>(bus: PodBus<T, M>, dead: Seq<u32>)
    requires
        forall|j: int|
            0 <= j < MAX_SUBSCRIBER_SLOTS ==> !#[trigger] pod_bus::sub_counts(
                bus.mem.image(),
                j,
                dead,
            ),
    ensures
        !bus.full(dead),
{
    lemma_no_slowest(bus.mem.image(), dead, MAX_SUBSCRIBER_SLOTS as nat);
}

proof fn lemma_no_slowest(m: Seq<u8>, dead: Seq<u32>, n: nat)
    requires
        n <= MAX_SUBSCRIBER_SLOTS,
        forall|j: int|
            0 <= j < MAX_SUBSCRIBER_SLOTS ==> !#[trigger] pod_bus::sub_counts(m, j, dead),
    ensures
        pod_bus::slowest(m, dead, n) is None,
    decreases n,
{
    if n > 0 {
        lemma_no_slowest(m, dead, (n - 1) as nat);
    }
}

} // verus!
