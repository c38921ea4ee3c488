//! What a bus is for, over its whole life: every subscriber of a bounded bus reads every
//! value that is published from the moment it joins, in order, and the publisher is held
//! back exactly while a subscriber has no room left. A subscriber of a bus that overwrites
//! reads the oldest value that is still there.
//!
//! All of it is stated over the words of the segment and the values that were published.

use crate::memory::{self, SharedMemory};
use crate::platform::bus_laws;
use crate::platform::pod_bus::{
    self, BusSubscriber, PodBus, Verdict, MAX_SUBSCRIBER_SLOTS, PH_HEARTBEAT_US, PH_WRITE_SEQ,
    POD_BUS_HEADER_SIZE, SS_ACTIVE, SS_CURSOR, SS_PID, SS_STATE_ACTIVE, SS_STATE_CLAIMING,
    SS_STATE_FREE, SUBSCRIBER_SLOT_SIZE,
};
use crate::error::Error;
use crate::pod::Pod;
use crate::protocol::laws::{self, doubled};
use crate::protocol::layout;
use crate::transport::shm::pubsub_laws;
use vstd::prelude::*;

verus! {

broadcast use crate::memory::group_memory;

/// Where a subscriber slot lies.
pub open spec fn at(i: int) -> int {
    POD_BUS_HEADER_SIZE + i * SUBSCRIBER_SLOT_SIZE
}

/// The state word of a subscriber slot.
pub open spec fn state(m: Seq<u8>, i: int) -> u32 {
    memory::u32_at(m, at(i) + SS_ACTIVE)
}

/// The process of a subscriber slot.
pub open spec fn process(m: Seq<u8>, i: int) -> u32 {
    memory::u32_at(m, at(i) + SS_PID)
}

/// The number of the value that the subscriber in a slot reads next.
pub open spec fn next_of(m: Seq<u8>, i: int) -> u64 {
    memory::u64_at(m, at(i) + SS_CURSOR)
}

/// The number of values published.
pub open spec fn count(m: Seq<u8>) -> u64 {
    memory::u64_at(m, PH_WRITE_SEQ as int)
}

/// A slot is in use, and its process is not known to be gone.
pub open spec fn live(m: Seq<u8>, i: int, dead: Seq<u32>) -> bool {
    &&& 0 <= i < MAX_SUBSCRIBER_SLOTS
    &&& state(m, i) == SS_STATE_ACTIVE
    &&& process(m, i) == 0 || !dead.contains(process(m, i))
}

proof fn lemma_minimum(m: Seq<u8>, dead: Seq<u32>, n: nat)
    requires
        n <= MAX_SUBSCRIBER_SLOTS,
    ensures
        match pod_bus::slowest(m, dead, n) {
            Some(c) => {
                &&& exists|i: int| i < n && #[trigger] live(m, i, dead) && next_of(m, i) == c
                &&& forall|i: int| i < n && #[trigger] live(m, i, dead) ==> c <= next_of(m, i)
            },
            None => forall|i: int| i < n ==> !#[trigger] live(m, i, dead),
        },
    decreases n,
{
    if n > 0 {
        lemma_minimum(m, dead, (n - 1) as nat);
        let last = n - 1;
        assert(pod_bus::sub_counts(m, last, dead) == live(m, last, dead));
        match pod_bus::slowest(m, dead, (n - 1) as nat) {
            Some(c) => {
                let i = choose|i: int| i < n - 1 && #[trigger] live(m, i, dead) && next_of(m, i)
                    == c;
                assert(live(m, i, dead));
            },
            None => {},
        }
        if live(m, last, dead) {
            assert(next_of(m, last) == pod_bus::sub_cursor(m, last));
        }
    }
}

/// The slowest position is the smallest of the positions of all subscribers that are live,
/// whichever slots they have; there is none exactly if no subscriber is live.
pub proof fn law_slowest_is_the_smallest(m: Seq<u8>, dead: Seq<u32>)
    ensures
        match pod_bus::slowest(m, dead, MAX_SUBSCRIBER_SLOTS as nat) {
            Some(c) => {
                &&& exists|i: int| #[trigger] live(m, i, dead) && next_of(m, i) == c
                &&& forall|i: int| #[trigger] live(m, i, dead) ==> c <= next_of(m, i)
            },
            None => forall|i: int| !#[trigger] live(m, i, dead),
        },
{
    lemma_minimum(m, dead, MAX_SUBSCRIBER_SLOTS as nat);
    match pod_bus::slowest(m, dead, MAX_SUBSCRIBER_SLOTS as nat) {
        Some(c) => {
            let i = choose|i: int|
                i < MAX_SUBSCRIBER_SLOTS && #[trigger] live(m, i, dead) && next_of(m, i) == c;
            assert(live(m, i, dead));
        },
        None => {},
    }
}

/// The ring holds the newest values: as many as it has slots, each complete, in the slot
/// of its number.
pub open spec fn holds_newest<T: Pod>(
    m: Seq<u8>,
    bounded: bool,
    ring_size: int,
    vals: Seq<Seq<u8>>,
) -> bool {
    &&& count(m) == vals.len()
    &&& forall|k: int|
        0 <= k < vals.len() && vals.len() - ring_size <= k ==> holds_value::<T>(
            m,
            bounded,
            ring_size,
            k,
            #[trigger] vals[k],
        )
}

/// A value stands complete in the slot of its number.
pub open spec fn holds_value<T: Pod>(
    m: Seq<u8>,
    bounded: bool,
    ring_size: int,
    k: int,
    value: Seq<u8>,
) -> bool {
    let off = pod_bus::ring_slot(T::size(), bounded, k % ring_size);
    &&& memory::u64_at(m, off) == 2 * k + 2
    &&& memory::bytes_at(m, off + 8, T::size() as int) == value
}

/// A bounded bus in order: the ring holds the newest values, and no subscriber has more
/// unread values than there are slots in front of the watermark. The position that the
/// publisher remembers is not ahead of any subscriber.
pub open spec fn in_order<T: Pod, M: SharedMemory>(
    bus: PodBus<T, M>,
    m: Seq<u8>,
    remembered: u64,
    vals: Seq<Seq<u8>>,
) -> bool {
    &&& bus.wf()
    &&& bus.watermark is Some
    &&& m.len() == bus.mem.image().len()
    &&& vals.len() < 0x7FFF_FFFF_FFFF_FFFF
    &&& holds_newest::<T>(m, true, bus.ring_size as int, vals)
    &&& remembered <= vals.len()
    &&& forall|i: int|
        0 <= i < MAX_SUBSCRIBER_SLOTS && #[trigger] state(m, i) == SS_STATE_ACTIVE ==> {
            &&& remembered <= next_of(m, i) <= vals.len()
            &&& vals.len() - next_of(m, i) <= bus.ring_size - bus.watermark->0
        }
}

/// What freeing the slots of processes that are gone does to one slot.
proof fn lemma_pruned_slot(m: Seq<u8>, dead: Seq<u32>, n: nat, i: int)
    requires
        n <= MAX_SUBSCRIBER_SLOTS,
        0 <= i < MAX_SUBSCRIBER_SLOTS,
        pod_bus::ring_start(true) <= m.len(),
    ensures
        ({
            let z = pod_bus::pruned(m, dead, n);
            &&& z.len() == m.len()
            &&& process(z, i) == process(m, i)
            &&& next_of(z, i) == next_of(m, i)
            &&& state(z, i) == if i < n && (state(m, i) == SS_STATE_ACTIVE || state(m, i)
                == SS_STATE_CLAIMING) && process(m, i) != 0 && dead.contains(process(m, i)) {
                SS_STATE_FREE
            } else {
                state(m, i)
            }
        }),
    decreases n,
{
    if n > 0 {
        lemma_pruned_slot(m, dead, (n - 1) as nat, i);
        pod_bus::lemma_pruned(m, dead, (n - 1) as nat);
    }
}

/// The ring does not depend on the subscriber slots and the heartbeat.
proof fn lemma_ring_kept<T: Pod>(
    m: Seq<u8>,
    n: Seq<u8>,
    ring_size: int,
    vals: Seq<Seq<u8>>,
)
    requires
        ring_size > 0,
        pod_bus::bus_bytes(T::size(), ring_size as nat, true) <= m.len(),
        n.len() == m.len(),
        holds_newest::<T>(m, true, ring_size, vals),
        count(n) == count(m),
        forall|k: int| pod_bus::ring_start(true) <= k < m.len() ==> #[trigger] n[k] == m[k],
    ensures
        holds_newest::<T>(n, true, ring_size, vals),
{
    assert forall|k: int|
        0 <= k < vals.len() && vals.len() - ring_size <= k implies holds_value::<T>(
        n,
        true,
        ring_size,
        k,
        #[trigger] vals[k],
    ) by {
        assert(holds_value::<T>(m, true, ring_size, k, vals[k]));
        vstd::arithmetic::div_mod::lemma_mod_bound(k, ring_size);
        pod_bus::lemma_ring_slot(T::size(), ring_size as nat, true, k % ring_size);
        let off = pod_bus::ring_slot(T::size(), true, k % ring_size);
        assert(memory::bytes_at(n, off + 8, T::size() as int) =~= memory::bytes_at(
            m,
            off + 8,
            T::size() as int,
        ));
    }
}

/// A bus that was just created is in order: nothing is published, and every subscriber
/// slot is free.
pub proof fn law_created_bus_is_in_order<T: Pod, M: SharedMemory>(
    bus: PodBus<T, M>,
    m: Seq<u8>,
    watermark: u64,
    pid: u64,
    now: u64,
)
    requires
        bus.wf(),
        bus.watermark == Some(watermark),
        m.len() == bus.mem.image().len(),
        T::size() <= u32::MAX,
    ensures
        in_order(
            bus,
            pod_bus::bus_created(
                m,
                T::size(),
                T::align(),
                bus.ring_size as nat,
                Some(watermark),
                pid,
                now,
            ),
            0,
            Seq::empty(),
        ),
{
    let ring_size = bus.ring_size as nat;
    let z = pod_bus::bus_created(
        m,
        T::size(),
        T::align(),
        ring_size,
        Some(watermark),
        pid,
        now,
    );
    bus_laws::law_create_then_connect(
        m,
        T::size(),
        T::align(),
        ring_size,
        Some(watermark),
        pid,
        now,
    );
    pod_bus::lemma_ring_slot(T::size(), ring_size, true, 0);
    let m1 = pod_bus::with_bus_header(m, T::size(), T::align(), ring_size, Some(watermark), pid);
    let m2 = pod_bus::with_clear_subs(m1, MAX_SUBSCRIBER_SLOTS as nat);
    bus_laws::lemma_clear_subs(m1, MAX_SUBSCRIBER_SLOTS as nat);
    let m3 = pod_bus::with_clear_stamps(m2, T::size(), true, ring_size);
    bus_laws::lemma_clear_stamps(m2, T::size(), true, ring_size, ring_size);
    assert(z == memory::put64(m3, PH_HEARTBEAT_US as int, now));
    assert forall|i: int| 0 <= i < MAX_SUBSCRIBER_SLOTS implies #[trigger] state(z, i)
        != SS_STATE_ACTIVE by {
        assert(pod_bus::sub_state(m2, i) == SS_STATE_FREE);
        assert(state(z, i) == state(m2, i));
    }
}

/// The publisher of a bounded bus in order is held back exactly if some live subscriber
/// has as many unread values as there are slots in front of the watermark, whichever slot
/// that subscriber has.
pub proof fn law_held_back_by_a_live_subscriber<T: Pod, M: SharedMemory>(
    bus: PodBus<T, M>,
    dead: Seq<u32>,
    vals: Seq<Seq<u8>>,
)
    requires
        in_order(bus, bus.mem.image(), bus.cached_slowest, vals),
    ensures
        bus.full(dead) <==> exists|i: int|
            #[trigger] live(bus.mem.image(), i, dead) && vals.len() - next_of(bus.mem.image(), i)
                >= bus.ring_size - bus.watermark->0,
{
    let m = bus.mem.image();
    law_slowest_is_the_smallest(m, dead);
    assert(pod_bus::published(m) == count(m));
    if exists|i: int|
        #[trigger] live(m, i, dead) && vals.len() - next_of(m, i) >= bus.ring_size
            - bus.watermark->0 {
        let i = choose|i: int|
            #[trigger] live(m, i, dead) && vals.len() - next_of(m, i) >= bus.ring_size
                - bus.watermark->0;
        assert(state(m, i) == SS_STATE_ACTIVE);
    }
}

/// A value that is published on a bounded bus that is not full comes behind all others,
/// and none of the values is lost that any subscriber has yet to read: the bus stays in
/// order.
pub proof fn law_publishing_loses_nothing<T: Pod, M: SharedMemory>(
    bus: PodBus<T, M>,
    dead: Seq<u32>,
    vals: Seq<Seq<u8>>,
    value: T,
    now: Option<u64>,
)
    requires
        in_order(bus, bus.mem.image(), bus.cached_slowest, vals),
        !bus.full(dead),
        vals.len() + 1 < 0x7FFF_FFFF_FFFF_FFFF,
    ensures
        in_order(
            bus,
            bus.after_publish(bus.after_scan(dead), value, now),
            bus.found_slowest(dead),
            vals.push(value.encode()),
        ),
        forall|i: int|
            #[trigger] live(bus.mem.image(), i, dead) ==> {
                let z = bus.after_publish(bus.after_scan(dead), value, now);
                &&& state(z, i) == SS_STATE_ACTIVE
                &&& next_of(z, i) == next_of(bus.mem.image(), i)
                &&& count(z) - next_of(z, i) <= bus.ring_size - bus.watermark->0
            },
{
    let m = bus.mem.image();
    let scanned = bus.after_scan(dead);
    let z = bus.after_publish(scanned, value, now);
    let more = vals.push(value.encode());
    let ring = bus.ring_size as int;
    pod_bus::lemma_ring_slot(T::size(), bus.ring_size as nat, true, 0);
    law_slowest_is_the_smallest(m, dead);
    pod_bus::lemma_pruned(m, dead, MAX_SUBSCRIBER_SLOTS as nat);
    assert(count(scanned) == count(m));
    lemma_ring_kept::<T>(m, scanned, ring, vals);
    lemma_published_keeps(bus, scanned, value, now, vals);
    assert forall|i: int| 0 <= i < MAX_SUBSCRIBER_SLOTS implies {
        &&& #[trigger] state(z, i) == state(scanned, i)
        &&& next_of(z, i) == next_of(m, i)
        &&& state(scanned, i) == SS_STATE_ACTIVE ==> state(m, i) == SS_STATE_ACTIVE
        &&& live(m, i, dead) ==> state(scanned, i) == SS_STATE_ACTIVE
        &&& bus.looks() && state(scanned, i) == SS_STATE_ACTIVE ==> live(m, i, dead)
    } by {
        lemma_pruned_slot(m, dead, MAX_SUBSCRIBER_SLOTS as nat, i);
        lemma_publish_keeps_slot(bus, scanned, value, now, i);
    }
    assert forall|i: int|
        0 <= i < MAX_SUBSCRIBER_SLOTS && #[trigger] state(z, i) == SS_STATE_ACTIVE implies {
        &&& bus.found_slowest(dead) <= next_of(z, i) <= more.len()
        &&& more.len() - next_of(z, i) <= bus.ring_size - bus.watermark->0
    } by {
        assert(state(z, i) == state(scanned, i));
        assert(state(m, i) == SS_STATE_ACTIVE);
        if bus.looks() {
            assert(live(m, i, dead));
        }
    }
    assert forall|i: int| #[trigger] live(m, i, dead) implies {
        &&& state(z, i) == SS_STATE_ACTIVE
        &&& next_of(z, i) == next_of(m, i)
        &&& count(z) - next_of(z, i) <= bus.ring_size - bus.watermark->0
    } by {
        assert(state(z, i) == state(scanned, i));
    }
}

/// A publication does not touch the subscriber slots.
proof fn lemma_publish_keeps_slot<T: Pod, M: SharedMemory>(
    bus: PodBus<T, M>,
    m: Seq<u8>,
    value: T,
    now: Option<u64>,
    i: int,
)
    requires
        bus.wf(),
        bus.watermark is Some,
        m.len() == bus.mem.image().len(),
        0 <= i < MAX_SUBSCRIBER_SLOTS,
    ensures
        ({
            let z = bus.after_publish(m, value, now);
            &&& state(z, i) == state(m, i)
            &&& process(z, i) == process(m, i)
            &&& next_of(z, i) == next_of(m, i)
        }),
{
    value.encode_size();
    let idx = count(m) as int % bus.ring_size as int;
    vstd::arithmetic::div_mod::lemma_mod_bound(count(m) as int, bus.ring_size as int);
    pod_bus::lemma_ring_slot(T::size(), bus.ring_size as nat, true, idx);
}

proof fn lemma_stamp(seq: u64)
    requires
        seq < 0x7FFF_FFFF_FFFF_FFFF,
    ensures
        pod_bus::done_stamp(seq) == 2 * seq + 2,
{
    assert((2 * seq + 2) % 0x1_0000_0000_0000_0000 == 2 * seq + 2);
}

/// A publication puts its value complete into the slot of its number.
proof fn lemma_new_value<T: Pod, M: SharedMemory>(
    bus: PodBus<T, M>,
    m: Seq<u8>,
    value: T,
    now: Option<u64>,
)
    requires
        bus.wf(),
        m.len() == bus.mem.image().len(),
        count(m) < 0x7FFF_FFFF_FFFF_FFFE,
    ensures
        ({
            let z = bus.after_publish(m, value, now);
            &&& z.len() == m.len()
            &&& count(z) == count(m) + 1
            &&& holds_value::<T>(
                z,
                bus.watermark is Some,
                bus.ring_size as int,
                count(m) as int,
                value.encode(),
            )
        }),
{
    let seq = count(m);
    bus_laws::lemma_published(bus, m, value, now);
    lemma_stamp(seq);
}

/// A publication leaves the values alone that are less than a ring older.
proof fn lemma_older_value<T: Pod, M: SharedMemory>(
    bus: PodBus<T, M>,
    m: Seq<u8>,
    value: T,
    now: Option<u64>,
    k: int,
    v: Seq<u8>,
)
    requires
        bus.wf(),
        m.len() == bus.mem.image().len(),
        0 <= k < count(m),
        count(m) - k < bus.ring_size,
        holds_value::<T>(m, bus.watermark is Some, bus.ring_size as int, k, v),
    ensures
        holds_value::<T>(
            bus.after_publish(m, value, now),
            bus.watermark is Some,
            bus.ring_size as int,
            k,
            v,
        ),
{
    pubsub_laws::lemma_slots_differ(k, count(m) as int, bus.ring_size as int);
    bus_laws::law_publish_keeps_other_values(bus, m, value, now, k as u64);
}

/// A publication puts its value behind the others, and keeps as many of them as fit.
proof fn lemma_published_keeps<T: Pod, M: SharedMemory>(
    bus: PodBus<T, M>,
    m: Seq<u8>,
    value: T,
    now: Option<u64>,
    vals: Seq<Seq<u8>>,
)
    requires
        bus.wf(),
        m.len() == bus.mem.image().len(),
        vals.len() < 0x7FFF_FFFF_FFFF_FFFE,
        holds_newest::<T>(m, bus.watermark is Some, bus.ring_size as int, vals),
    ensures
        holds_newest::<T>(
            bus.after_publish(m, value, now),
            bus.watermark is Some,
            bus.ring_size as int,
            vals.push(value.encode()),
        ),
        bus.after_publish(m, value, now).len() == m.len(),
{
    let z = bus.after_publish(m, value, now);
    let more = vals.push(value.encode());
    let ring = bus.ring_size as int;
    let bounded = bus.watermark is Some;
    lemma_new_value(bus, m, value, now);
    assert forall|k: int|
        0 <= k < more.len() && more.len() - ring <= k implies holds_value::<T>(
        z,
        bounded,
        ring,
        k,
        #[trigger] more[k],
    ) by {
        if k < vals.len() {
            assert(more[k] == vals[k]);
            assert(holds_value::<T>(m, bounded, ring, k, vals[k]));
            lemma_older_value(bus, m, value, now, k, vals[k]);
        }
    }
}

/// A subscriber that joins takes a free slot and starts behind the values published so
/// far: the bus stays in order, and no other subscriber is moved.
pub proof fn law_joining_keeps_order<T: Pod, M: SharedMemory>(
    bus: PodBus<T, M>,
    m: Seq<u8>,
    remembered: u64,
    vals: Seq<Seq<u8>>,
    pid: u32,
)
    requires
        in_order(bus, m, remembered, vals),
        pod_bus::free_sub(m, 0) is Some,
    ensures
        ({
            let i = pod_bus::free_sub(m, 0)->0;
            let z = pod_bus::with_sub(m, i, pid, count(m));
            &&& 0 <= i < MAX_SUBSCRIBER_SLOTS
            &&& state(m, i) == SS_STATE_FREE
            &&& state(z, i) == SS_STATE_ACTIVE
            &&& process(z, i) == pid
            &&& next_of(z, i) == vals.len()
            &&& in_order(bus, z, remembered, vals)
            &&& forall|j: int|
                0 <= j < MAX_SUBSCRIBER_SLOTS && j != i ==> #[trigger] state(z, j) == state(m, j)
                    && process(z, j) == process(m, j) && next_of(z, j) == next_of(m, j)
        }),
{
    lemma_free_slot(m, 0);
    let i = pod_bus::free_sub(m, 0)->0;
    let z = pod_bus::with_sub(m, i, pid, count(m));
    pod_bus::lemma_ring_slot(T::size(), bus.ring_size as nat, true, 0);
    lemma_ring_kept::<T>(m, z, bus.ring_size as int, vals);
    assert forall|j: int| 0 <= j < MAX_SUBSCRIBER_SLOTS && j != i implies #[trigger] state(z, j)
        == state(m, j) && process(z, j) == process(m, j) && next_of(z, j) == next_of(m, j) by {}
    assert forall|j: int|
        0 <= j < MAX_SUBSCRIBER_SLOTS && #[trigger] state(z, j) == SS_STATE_ACTIVE implies {
        &&& remembered <= next_of(z, j) <= vals.len()
        &&& vals.len() - next_of(z, j) <= bus.ring_size - bus.watermark->0
    } by {
        if j != i {
            assert(state(m, j) == SS_STATE_ACTIVE);
        }
    }
}

proof fn lemma_free_slot(m: Seq<u8>, from: int)
    requires
        0 <= from,
    ensures
        pod_bus::free_sub(m, from) matches Some(i) ==> from <= i < MAX_SUBSCRIBER_SLOTS && state(
            m,
            i,
        ) == SS_STATE_FREE,
        pod_bus::free_sub(m, from) is None ==> forall|i: int|
            from <= i < MAX_SUBSCRIBER_SLOTS ==> #[trigger] state(m, i) != SS_STATE_FREE,
    decreases MAX_SUBSCRIBER_SLOTS - from,
{
    if from < MAX_SUBSCRIBER_SLOTS {
        lemma_free_slot(m, from + 1);
    }
}

/// A subscriber is turned away only if no slot is free.
pub proof fn law_a_free_slot_is_found(m: Seq<u8>)
    ensures
        pod_bus::free_sub(m, 0) is None <==> forall|i: int|
            0 <= i < MAX_SUBSCRIBER_SLOTS ==> #[trigger] state(m, i) != SS_STATE_FREE,
{
    lemma_free_slot(m, 0);
}

/// A subscriber of a bounded bus in order reads the next value in the order of their
/// publication: nothing if it has read all of them, and otherwise the one behind the last
/// that it read. It skips none.
pub proof fn law_bounded_subscriber_reads_every_value<T: Pod, M: SharedMemory>(
    bus: PodBus<T, M>,
    sub: BusSubscriber<T, M>,
    remembered: u64,
    vals: Seq<Seq<u8>>,
    i: int,
)
    requires
        in_order(bus, sub.mem.image(), remembered, vals),
        sub.ring_size == bus.ring_size,
        sub.bounded,
        0 <= i < MAX_SUBSCRIBER_SLOTS,
        state(sub.mem.image(), i) == SS_STATE_ACTIVE,
        next_of(sub.mem.image(), i) == sub.cursor,
    ensures
        sub.cursor >= pod_bus::published(sub.mem.image()) <==> sub.cursor == vals.len(),
        sub.position() == sub.cursor,
        sub.cursor < vals.len() ==> {
            let stamp = sub.stamp(sub.cursor);
            &&& pod_bus::verdict(sub.cursor, stamp, stamp) == Verdict::Ready
            &&& sub.value_bytes(sub.cursor) == vals[sub.cursor as int]
        },
{
    let m = sub.mem.image();
    if sub.cursor < vals.len() {
        assert(holds_value::<T>(
            m,
            true,
            bus.ring_size as int,
            sub.cursor as int,
            vals[sub.cursor as int],
        ));
        assert((2 * sub.cursor + 2) % 0x1_0000_0000_0000_0000 == 2 * sub.cursor + 2);
    }
}

/// After a subscriber has read a value, its slot says so, the bus is in order, and no
/// other subscriber is moved.
pub proof fn law_reading_keeps_order<T: Pod, M: SharedMemory>(
    bus: PodBus<T, M>,
    m: Seq<u8>,
    remembered: u64,
    vals: Seq<Seq<u8>>,
    i: int,
)
    requires
        in_order(bus, m, remembered, vals),
        0 <= i < MAX_SUBSCRIBER_SLOTS,
        state(m, i) == SS_STATE_ACTIVE,
        next_of(m, i) < vals.len(),
    ensures
        ({
            let z = memory::put64(
                m,
                pod_bus::sub_slot(i) + SS_CURSOR,
                (next_of(m, i) + 1) as u64,
            );
            &&& in_order(bus, z, remembered, vals)
            &&& state(z, i) == SS_STATE_ACTIVE
            &&& next_of(z, i) == next_of(m, i) + 1
            &&& forall|j: int|
                0 <= j < MAX_SUBSCRIBER_SLOTS && j != i ==> #[trigger] state(z, j) == state(m, j)
                    && process(z, j) == process(m, j) && next_of(z, j) == next_of(m, j)
        }),
{
    let z = memory::put64(m, pod_bus::sub_slot(i) + SS_CURSOR, (next_of(m, i) + 1) as u64);
    pod_bus::lemma_ring_slot(T::size(), bus.ring_size as nat, true, 0);
    lemma_ring_kept::<T>(m, z, bus.ring_size as int, vals);
    assert forall|j: int| 0 <= j < MAX_SUBSCRIBER_SLOTS && j != i implies #[trigger] state(z, j)
        == state(m, j) && process(z, j) == process(m, j) && next_of(z, j) == next_of(m, j) by {}
    assert forall|j: int|
        0 <= j < MAX_SUBSCRIBER_SLOTS && #[trigger] state(z, j) == SS_STATE_ACTIVE implies {
        &&& remembered <= next_of(z, j) <= vals.len()
        &&& vals.len() - next_of(z, j) <= bus.ring_size - bus.watermark->0
    } by {
        assert(state(m, j) == state(z, j));
    }
}

/// A subscriber that leaves holds nobody back any more: its slot is free, the bus is in
/// order, and no other subscriber is moved.
pub proof fn law_leaving_keeps_order<T: Pod, M: SharedMemory>(
    bus: PodBus<T, M>,
    m: Seq<u8>,
    remembered: u64,
    vals: Seq<Seq<u8>>,
    i: int,
)
    requires
        in_order(bus, m, remembered, vals),
        0 <= i < MAX_SUBSCRIBER_SLOTS,
    ensures
        ({
            let z = memory::put32(m, pod_bus::sub_slot(i) + SS_ACTIVE, SS_STATE_FREE);
            &&& in_order(bus, z, remembered, vals)
            &&& state(z, i) == SS_STATE_FREE
            &&& forall|j: int|
                0 <= j < MAX_SUBSCRIBER_SLOTS && j != i ==> #[trigger] state(z, j) == state(m, j)
                    && process(z, j) == process(m, j) && next_of(z, j) == next_of(m, j)
        }),
{
    let z = memory::put32(m, pod_bus::sub_slot(i) + SS_ACTIVE, SS_STATE_FREE);
    pod_bus::lemma_ring_slot(T::size(), bus.ring_size as nat, true, 0);
    lemma_ring_kept::<T>(m, z, bus.ring_size as int, vals);
    assert forall|j: int| 0 <= j < MAX_SUBSCRIBER_SLOTS && j != i implies #[trigger] state(z, j)
        == state(m, j) && process(z, j) == process(m, j) && next_of(z, j) == next_of(m, j) by {}
    assert forall|j: int|
        0 <= j < MAX_SUBSCRIBER_SLOTS && #[trigger] state(z, j) == SS_STATE_ACTIVE implies {
        &&& remembered <= next_of(z, j) <= vals.len()
        &&& vals.len() - next_of(z, j) <= bus.ring_size - bus.watermark->0
    } by {
        if j != i {
            assert(state(m, j) == SS_STATE_ACTIVE);
        }
    }
}

/// A value that is published on a bus that overwrites comes behind all others, and the
/// ring keeps as many of the newest as it has slots.
pub proof fn law_overwriting_bus_keeps_the_newest<T: Pod, M: SharedMemory>(
    bus: PodBus<T, M>,
    m: Seq<u8>,
    vals: Seq<Seq<u8>>,
    value: T,
    now: Option<u64>,
)
    requires
        bus.wf(),
        m.len() == bus.mem.image().len(),
        vals.len() < 0x7FFF_FFFF_FFFF_FFFE,
        holds_newest::<T>(m, bus.watermark is Some, bus.ring_size as int, vals),
    ensures
        holds_newest::<T>(
            bus.after_publish(m, value, now),
            bus.watermark is Some,
            bus.ring_size as int,
            vals.push(value.encode()),
        ),
{
    lemma_published_keeps(bus, m, value, now, vals);
}

/// A subscriber reads the next value, or, if that is overwritten, the oldest one that the
/// ring holds; it misses exactly the values in between.
#[verifier::rlimit(100)]
pub proof fn law_subscriber_reads_the_oldest_there_is<T: Pod, M: SharedMemory>(
    sub: BusSubscriber<T, M>,
    vals: Seq<Seq<u8>>,
)
    requires
        sub.wf(),
        vals.len() < 0x7FFF_FFFF_FFFF_FFFF,
        holds_newest::<T>(sub.mem.image(), sub.bounded, sub.ring_size as int, vals),
        sub.cursor < vals.len(),
    ensures
        ({
            let oldest = if vals.len() > sub.ring_size {
                vals.len() - sub.ring_size
            } else {
                0
            };
            let at = sub.position();
            let stamp = sub.stamp(at);
            &&& at == if sub.cursor < oldest {
                oldest
            } else {
                sub.cursor as int
            }
            &&& pod_bus::verdict(at, stamp, stamp) == Verdict::Ready
            &&& sub.value_bytes(at) == vals[at as int]
        }),
{
    let at = sub.position();
    assert(holds_value::<T>(
        sub.mem.image(),
        sub.bounded,
        sub.ring_size as int,
        at as int,
        vals[at as int],
    ));
    assert((2 * at + 2) % 0x1_0000_0000_0000_0000 == 2 * at + 2);
}

/// A reader takes a value only if the slot carries the stamp of that very value before and
/// after it was read; an odd stamp, no stamp, or one that changed meanwhile gives nothing.
pub proof fn law_only_the_stamped_value_is_taken(cursor: u64, before: u64, after: u64)
    requires
        cursor < 0x7FFF_FFFF_FFFF_FFFF,
    ensures
        pod_bus::verdict(cursor, before, after) == Verdict::Ready <==> before == after && before
            == 2 * cursor + 2,
        pod_bus::verdict(cursor, before, after) == Verdict::Nothing <==> before != after || before
            == 0 || before % 2 == 1,
        pod_bus::verdict(cursor, before, after) matches Verdict::Other(k) ==> before == after
            && before == 2 * k + 2 && k != cursor,
{
    assert((2 * cursor + 2) % 0x1_0000_0000_0000_0000 == 2 * cursor + 2);
}

/// Connecting to a bus fails exactly if its publisher was not heard of for more than five
/// seconds, or if it is bounded and has no free slot. Otherwise the subscriber starts
/// behind the values published so far; on a bounded bus it has a slot that was free, which
/// says so, and on one that overwrites the segment is not touched.
pub proof fn law_connect_call<T: Pod, M: SharedMemory>(
    name: Seq<char>,
    mem: M,
    pid: u32,
    now: u64,
    r: Result<BusSubscriber<T, M>, Error>,
)
    requires
        pod_bus::connected_as(name, mem, pid, Some(now), r),
        layout::valid_segment_name(name),
        T::align() <= 8,
        mem.exclusive(),
        pod_bus::bus_fault(mem.image(), T::size(), T::align()) is None,
    ensures
        ({
            let m = mem.image();
            let beat = memory::u64_at(m, PH_HEARTBEAT_US as int);
            let bounded = memory::u32_at(m, pod_bus::PH_VERSION as int) == 2;
            let crowded = bounded && forall|i: int|
                0 <= i < MAX_SUBSCRIBER_SLOTS ==> #[trigger] state(m, i) != SS_STATE_FREE;
            &&& (r matches Err(Error::PublisherDead)) <==> now > beat + 5_000_000
            &&& r is Ok <==> now <= beat + 5_000_000 && !crowded
            &&& r matches Ok(s) ==> {
                &&& s.cursor == count(m)
                &&& s.total_lagged == 0
                &&& s.bounded == bounded
                &&& s.ring_size == memory::u32_at(m, pod_bus::PH_RING_SIZE as int)
                &&& !bounded ==> s.mem.image() == m
                &&& bounded ==> {
                    &&& s.slot_index matches Some(i)
                    &&& i < MAX_SUBSCRIBER_SLOTS
                    &&& state(m, i as int) == SS_STATE_FREE
                    &&& state(s.mem.image(), i as int) == SS_STATE_ACTIVE
                    &&& process(s.mem.image(), i as int) == pid
                    &&& next_of(s.mem.image(), i as int) == count(m)
                }
            }
        }),
{
    lemma_free_slot(mem.image(), 0);
    let ring = memory::u32_at(mem.image(), pod_bus::PH_RING_SIZE as int);
    pod_bus::lemma_pow2_positive(ring as int);
    pod_bus::lemma_ring_slot(
        T::size(),
        ring as nat,
        memory::u32_at(mem.image(), pod_bus::PH_VERSION as int) == 2,
        0,
    );
}

/// A segment can be connected to as a bus exactly if its header is whole: it begins with
/// the magic bytes, has one of the two versions, a ring whose size is a power of two,
/// values of the size and the alignment of the type, and is as long as all of that takes.
pub proof fn law_what_can_be_connected_to(m: Seq<u8>, value_size: nat, value_align: nat)
    ensures
        pod_bus::bus_fault(m, value_size, value_align) is None <==> {
            let version = memory::u32_at(m, pod_bus::PH_VERSION as int);
            let ring = memory::u32_at(m, pod_bus::PH_RING_SIZE as int);
            &&& m.len() >= POD_BUS_HEADER_SIZE
            &&& memory::bytes_at(m, 0, 8) == pod_bus::bus_magic()
            &&& version == 1 || version == 2
            &&& exists|k: nat| ring == #[trigger] doubled(k)
            &&& memory::u32_at(m, pod_bus::PH_VALUE_SIZE as int) == value_size
            &&& memory::u32_at(m, pod_bus::PH_VALUE_ALIGN as int) == value_align
            &&& m.len() >= POD_BUS_HEADER_SIZE + if version == 2 {
                MAX_SUBSCRIBER_SLOTS * SUBSCRIBER_SLOT_SIZE
            } else {
                0
            } + ring * pod_bus::slot_bytes(value_size)
        },
{
    let ring = memory::u32_at(m, pod_bus::PH_RING_SIZE as int) as int;
    laws::law_powers_of_two(ring, 0);
    if exists|k: nat| ring == #[trigger] doubled(k) {
        let k = choose|k: nat| ring == #[trigger] doubled(k);
        laws::law_powers_of_two(0, k);
    }
}

/// A slot of the ring has room for the stamp and the value, is made of whole lines of 64
/// bytes, and wastes less than one of them.
pub proof fn law_slots_are_whole_lines(value_size: nat)
    ensures
        pod_bus::slot_bytes(value_size) % 64 == 0,
        8 + value_size <= pod_bus::slot_bytes(value_size) < 8 + value_size + 64,
{
}

/// A bus can be made exactly if its ring has a power of two of slots, no more than 32 bits
/// can number, if it keeps fewer of them free than there are, and if it fits the address
/// space.
pub proof fn law_which_buses_there_are(
    value_size: nat,
    ring_size: int,
    watermark: Option<u64>,
)
    ensures
        pod_bus::valid_bus(value_size, ring_size, watermark) <==> {
            &&& exists|k: nat| ring_size == #[trigger] doubled(k)
            &&& 0 < ring_size <= u32::MAX
            &&& watermark matches Some(w) ==> w < ring_size
            &&& POD_BUS_HEADER_SIZE + if watermark is Some {
                MAX_SUBSCRIBER_SLOTS * SUBSCRIBER_SLOT_SIZE
            } else {
                0
            } + ring_size * pod_bus::slot_bytes(value_size) <= usize::MAX
        },
{
    laws::law_powers_of_two(ring_size, 0);
    if exists|k: nat| ring_size == #[trigger] doubled(k) {
        let k = choose|k: nat| ring_size == #[trigger] doubled(k);
        laws::law_powers_of_two(0, k);
    }
}

/// The heartbeat of a publisher that waits for room, or that publishes, is renewed as long
/// as it goes on: with every 1024th value, from the first one on.
pub proof fn law_publishing_renews_the_heartbeat<T: Pod, M: SharedMemory>(
    bus: PodBus<T, M>,
    m: Seq<u8>,
    value: T,
    now: u64,
)
    requires
        bus.wf(),
        m.len() == bus.mem.image().len(),
    ensures
        memory::u64_at(bus.after_publish(m, value, Some(now)), PH_HEARTBEAT_US as int) == if count(
            m,
        ) % 1024 == 0 {
            now
        } else {
            memory::u64_at(m, PH_HEARTBEAT_US as int)
        },
        memory::u64_at(bus.after_publish(m, value, None), PH_HEARTBEAT_US as int)
            == memory::u64_at(m, PH_HEARTBEAT_US as int),
{
    value.encode_size();
    let idx = count(m) as int % bus.ring_size as int;
    vstd::arithmetic::div_mod::lemma_mod_bound(count(m) as int, bus.ring_size as int);
    pod_bus::lemma_ring_slot(T::size(), bus.ring_size as nat, bus.watermark is Some, idx);
}

} // verus!
