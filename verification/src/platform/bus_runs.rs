//! What a reader of a bus sees while the publisher writes.
//!
//! A run is a sequence of images of a segment, each of which comes from the one
//! before by one store of the publisher, or by stores of others, who do not
//! touch the ring. A reader looks at a stamp at one moment of the run, at each
//! byte of the value at some later moment, and at the stamp once more at the
//! end.

use crate::memory::{self, Accesses, SharedMemory};
use crate::platform::bus_laws;
use crate::platform::pod_bus::{
    self, BusSubscriber, PodBus, Sight, Verdict, MAX_SUBSCRIBER_SLOTS, PH_HEARTBEAT_US,
    PH_WRITE_SEQ,
};
use crate::pod::Pod;
use vstd::prelude::*;

verus! {

broadcast use crate::memory::group_memory;

/// How far the publisher is.
pub struct Progress {
    /// The value that it writes, or writes next.
    pub seq: nat,
    /// It has marked the slot of that value, and is not done with it.
    pub busy: bool,
}

/// The ring of a bus.
pub struct Ring {
    /// Size of a value.
    pub value_size: nat,
    /// The bus holds its publisher back.
    pub bounded: bool,
    /// Number of slots.
    pub slots: nat,
}

impl Ring {
    /// Offset of a slot.
    pub open spec fn slot(self, k: int) -> int {
        pod_bus::ring_slot(self.value_size, self.bounded, k)
    }

    /// The stamp of a slot.
    pub open spec fn stamp(self, m: Seq<u8>, k: int) -> u64 {
        memory::u64_at(m, self.slot(k))
    }

    /// The bytes of the value in a slot.
    pub open spec fn data(self, m: Seq<u8>, k: int) -> Seq<u8> {
        memory::bytes_at(m, self.slot(k) + 8, self.value_size as int)
    }

    /// A segment has room for the ring.
    pub open spec fn fits(self, m: Seq<u8>) -> bool {
        &&& self.slots >= 1
        &&& pod_bus::bus_bytes(self.value_size, self.slots, self.bounded) <= m.len()
    }

    /// A slot is the same in two images.
    pub open spec fn same_slot(self, m: Seq<u8>, n: Seq<u8>, k: int) -> bool {
        &&& self.stamp(n, k) == self.stamp(m, k)
        &&& self.data(n, k) == self.data(m, k)
    }

    /// The slot that the publisher writes, or writes next.
    pub open spec fn current(self, p: Progress) -> int {
        p.seq as int % self.slots as int
    }

    /// What a slot holds: it was never written, or holds one of the values so
    /// far, under its stamp.
    pub open spec fn complete(
        self,
        m: Seq<u8>,
        p: Progress,
        values: Seq<Seq<u8>>,
        k: int,
    ) -> bool {
        let stamp = self.stamp(m, k);
        let s = stamp as int / 2 - 1;
        &&& stamp % 2 == 0
        &&& stamp != 0 ==> {
            &&& s < p.seq
            &&& s < values.len()
            &&& s % self.slots as int == k
            &&& self.data(m, k) == values[s]
        }
    }

    /// All slots hold what they should, but for one that is being written.
    pub open spec fn consistent(self, m: Seq<u8>, p: Progress, values: Seq<Seq<u8>>) -> bool {
        &&& self.fits(m)
        &&& 2 * p.seq + 2 <= u64::MAX
        &&& forall|k: int|
            0 <= k < self.slots ==> if p.busy && k == self.current(p) {
                #[trigger] self.stamp(m, k) == 2 * p.seq + 1
            } else {
                self.complete(m, p, values, k)
            }
    }

    /// One store: nothing happens to the ring, or the publisher marks a slot,
    /// writes in it, or stamps it.
    pub open spec fn step(
        self,
        m: Seq<u8>,
        p: Progress,
        n: Seq<u8>,
        q: Progress,
        values: Seq<Seq<u8>>,
    ) -> bool {
        let k = self.current(p);
        &&& n.len() == m.len()
        &&& forall|j: int| 0 <= j < self.slots && j != k ==> #[trigger] self.same_slot(m, n, j)
        &&& {
            ||| q == p && self.same_slot(m, n, k)
            ||| {
                &&& !p.busy
                &&& q == (Progress { busy: true, ..p })
                &&& 2 * p.seq + 2 <= u64::MAX
                &&& self.stamp(n, k) == 2 * p.seq + 1
            }
            ||| p.busy && q == p && self.stamp(n, k) == self.stamp(m, k)
            ||| {
                &&& p.busy
                &&& q == (Progress { seq: p.seq + 1, busy: false })
                &&& 2 * q.seq + 2 <= u64::MAX
                &&& p.seq < values.len()
                &&& self.data(m, k) == values[p.seq as int]
                &&& self.data(n, k) == self.data(m, k)
                &&& self.stamp(n, k) == 2 * p.seq + 2
            }
        }
    }

    /// A run: the values are those that the publisher publishes.
    pub open spec fn run(
        self,
        images: Seq<Seq<u8>>,
        progress: Seq<Progress>,
        values: Seq<Seq<u8>>,
    ) -> bool {
        &&& images.len() == progress.len()
        &&& images.len() >= 1
        &&& self.consistent(images[0], progress[0], values)
        &&& forall|i: int|
            0 <= i < images.len() - 1 ==> #[trigger] self.goes_on(images, progress, values, i)
    }

    /// An image of a run, and the one after it.
    pub open spec fn goes_on(
        self,
        images: Seq<Seq<u8>>,
        progress: Seq<Progress>,
        values: Seq<Seq<u8>>,
        i: int,
    ) -> bool {
        self.step(images[i], progress[i], images[i + 1], progress[i + 1], values)
    }
}

/// A step keeps the ring consistent.
proof fn lemma_step(
    r: Ring,
    m: Seq<u8>,
    p: Progress,
    n: Seq<u8>,
    q: Progress,
    values: Seq<Seq<u8>>,
)
    requires
        r.consistent(m, p, values),
        r.step(m, p, n, q, values),
    ensures
        r.consistent(n, q, values),
        forall|k: int| 0 <= k < r.slots ==> r.stamp(m, k) <= #[trigger] r.stamp(n, k),
        forall|k: int|
            0 <= k < r.slots && r.stamp(m, k) == #[trigger] r.stamp(n, k) && r.stamp(m, k) % 2 == 0
                ==> r.data(m, k) == r.data(n, k),
{
    let c = r.current(p);
    assert(0 <= c < r.slots) by {
        vstd::arithmetic::div_mod::lemma_mod_bound(p.seq as int, r.slots as int);
    }
    assert(r.stamp(m, c) == r.stamp(m, c));
    assert forall|k: int| 0 <= k < r.slots implies if q.busy && k == r.current(q) {
        #[trigger] r.stamp(n, k) == 2 * q.seq + 1
    } else {
        r.complete(n, q, values, k)
    } by {
        assert(r.stamp(m, k) == r.stamp(m, k));
        if k != c {
            assert(r.same_slot(m, n, k));
            assert(r.complete(m, p, values, k));
        }
    }
    assert forall|k: int| 0 <= k < r.slots implies r.stamp(m, k) <= #[trigger] r.stamp(n, k) by {
        assert(r.stamp(m, k) == r.stamp(m, k));
        if k != c {
            assert(r.same_slot(m, n, k));
        }
    }
    assert forall|k: int|
        0 <= k < r.slots && r.stamp(m, k) == #[trigger] r.stamp(n, k) && r.stamp(m, k) % 2
            == 0 implies r.data(m, k) == r.data(n, k) by {
        if k != c {
            assert(r.same_slot(m, n, k));
        }
    }
}

/// A ring stays consistent throughout a run: every slot holds the value of its
/// stamp, but for the one that is being written.
pub proof fn law_ring_stays_consistent(
    r: Ring,
    images: Seq<Seq<u8>>,
    progress: Seq<Progress>,
    values: Seq<Seq<u8>>,
    i: int,
)
    requires
        r.run(images, progress, values),
        0 <= i < images.len(),
    ensures
        r.consistent(images[i], progress[i], values),
        images[i].len() == images[0].len(),
    decreases i,
{
    if i > 0 {
        law_ring_stays_consistent(r, images, progress, values, i - 1);
        assert(r.goes_on(images, progress, values, i - 1));
        lemma_step(r, images[i - 1], progress[i - 1], images[i], progress[i], values);
    }
}

/// Stamps never go back.
proof fn lemma_stamps_grow(
    r: Ring,
    images: Seq<Seq<u8>>,
    progress: Seq<Progress>,
    values: Seq<Seq<u8>>,
    i: int,
    j: int,
    k: int,
)
    requires
        r.run(images, progress, values),
        0 <= i <= j < images.len(),
        0 <= k < r.slots,
    ensures
        r.stamp(images[i], k) <= r.stamp(images[j], k),
    decreases j - i,
{
    if i < j {
        lemma_stamps_grow(r, images, progress, values, i, j - 1, k);
        law_ring_stays_consistent(r, images, progress, values, j - 1);
        assert(r.goes_on(images, progress, values, j - 1));
        lemma_step(r, images[j - 1], progress[j - 1], images[j], progress[j], values);
        assert(r.stamp(images[j - 1], k) <= r.stamp(images[j], k));
    }
}

/// A slot whose stamp is even and the same at two moments is the same at every
/// moment in between.
pub proof fn law_same_stamp_means_same_value(
    r: Ring,
    images: Seq<Seq<u8>>,
    progress: Seq<Progress>,
    values: Seq<Seq<u8>>,
    i: int,
    t: int,
    j: int,
    k: int,
)
    requires
        r.run(images, progress, values),
        0 <= i <= t <= j < images.len(),
        0 <= k < r.slots,
        r.stamp(images[i], k) == r.stamp(images[j], k),
        r.stamp(images[i], k) % 2 == 0,
    ensures
        r.same_slot(images[i], images[t], k),
    decreases t - i,
{
    lemma_stamps_grow(r, images, progress, values, i, t, k);
    lemma_stamps_grow(r, images, progress, values, t, j, k);
    if i < t {
        law_same_stamp_means_same_value(r, images, progress, values, i, t - 1, j, k);
        law_ring_stays_consistent(r, images, progress, values, t - 1);
        assert(r.goes_on(images, progress, values, t - 1));
        lemma_step(r, images[t - 1], progress[t - 1], images[t], progress[t], values);
        assert(r.stamp(images[t - 1], k) == r.stamp(images[t], k));
    }
}

/// A byte of a value.
proof fn lemma_byte(r: Ring, m: Seq<u8>, k: int, x: int)
    requires
        r.fits(m),
        0 <= k < r.slots,
        0 <= x < r.value_size,
    ensures
        r.data(m, k)[x] == m[r.slot(k) + 8 + x],
{
    pod_bus::lemma_ring_slot(r.value_size, r.slots, r.bounded, k);
}

/// No value is torn: whatever the publisher does while a reader copies a slot,
/// if the stamps make the reader take what it has copied, then that is the
/// value that was published under the number it looks for.
pub proof fn law_no_torn_value(
    r: Ring,
    images: Seq<Seq<u8>>,
    progress: Seq<Progress>,
    values: Seq<Seq<u8>>,
    cursor: u64,
    i: int,
    j: int,
    moments: Seq<int>,
    copy: Seq<u8>,
)
    requires
        r.run(images, progress, values),
        0 <= i <= j < images.len(),
        2 * cursor + 2 <= u64::MAX,
        ({
            let k = cursor as int % r.slots as int;
            &&& pod_bus::verdict(cursor, r.stamp(images[i], k), r.stamp(images[j], k))
                == Verdict::Ready
            &&& moments.len() == copy.len() == r.value_size
            &&& forall|x: int|
                0 <= x < copy.len() ==> i <= #[trigger] moments[x] <= j && copy[x]
                    == images[moments[x]][r.slot(k) + 8 + x]
        }),
    ensures
        cursor < values.len(),
        copy == values[cursor as int],
{
    let k = cursor as int % r.slots as int;
    assert(0 <= k < r.slots) by {
        vstd::arithmetic::div_mod::lemma_mod_bound(cursor as int, r.slots as int);
    }
    law_ring_stays_consistent(r, images, progress, values, i);
    assert(r.stamp(images[i], k) == 2 * cursor + 2);
    assert(r.complete(images[i], progress[i], values, k));
    assert(r.data(images[i], k) == values[cursor as int]);
    assert forall|x: int| 0 <= x < copy.len() implies copy[x] == r.data(images[i], k)[x] by {
        let t = moments[x];
        law_same_stamp_means_same_value(r, images, progress, values, i, t, j, k);
        law_ring_stays_consistent(r, images, progress, values, t);
        lemma_byte(r, images[t], k, x);
    }
    law_ring_stays_consistent(r, images, progress, values, i);
    pod_bus::lemma_ring_slot(r.value_size, r.slots, r.bounded, k);
    assert(copy =~= r.data(images[i], k));
}

/// A store outside of the ring leaves every slot as it is.
proof fn lemma_outside(r: Ring, m: Seq<u8>, off: int, b: Seq<u8>)
    requires
        r.fits(m),
        0 <= off,
        off + b.len() <= pod_bus::ring_start(r.bounded),
    ensures
        forall|k: int|
            0 <= k < r.slots ==> #[trigger] r.same_slot(m, memory::put(m, off, b), k),
{
    assert forall|k: int| 0 <= k < r.slots implies #[trigger] r.same_slot(
        m,
        memory::put(m, off, b),
        k,
    ) by {
        pod_bus::lemma_ring_slot(r.value_size, r.slots, r.bounded, k);
    }
}

/// A store in one slot leaves the others as they are.
proof fn lemma_inside(r: Ring, m: Seq<u8>, c: int, off: int, b: Seq<u8>)
    requires
        r.fits(m),
        0 <= c < r.slots,
        r.slot(c) <= off,
        off + b.len() <= r.slot(c) + 8 + r.value_size,
    ensures
        forall|k: int|
            0 <= k < r.slots && k != c ==> #[trigger] r.same_slot(m, memory::put(m, off, b), k),
{
    assert forall|k: int| 0 <= k < r.slots && k != c implies #[trigger] r.same_slot(
        m,
        memory::put(m, off, b),
        k,
    ) by {
        pod_bus::lemma_ring_slot(r.value_size, r.slots, r.bounded, k);
        pod_bus::lemma_ring_slot(r.value_size, r.slots, r.bounded, c);
        if k < c {
            pod_bus::lemma_ring_slots_apart(r.value_size, r.bounded, k, c);
        } else {
            pod_bus::lemma_ring_slots_apart(r.value_size, r.bounded, c, k);
        }
    }
}

/// Marking a slot is a step.
proof fn lemma_mark(r: Ring, m: Seq<u8>, seq: nat, values: Seq<Seq<u8>>)
    requires
        r.fits(m),
        2 * seq + 2 <= u64::MAX,
    ensures
        ({
            let p = Progress { seq, busy: false };
            r.step(
                m,
                p,
                memory::put64(m, r.slot(r.current(p)), (2 * seq + 1) as u64),
                Progress { seq, busy: true },
                values,
            )
        }),
{
    let c = r.current(Progress { seq, busy: false });
    vstd::arithmetic::div_mod::lemma_mod_bound(seq as int, r.slots as int);
    pod_bus::lemma_ring_slot(r.value_size, r.slots, r.bounded, c);
    lemma_inside(r, m, c, r.slot(c), memory::le64((2 * seq + 1) as u64));
}

/// Writing a value in a slot that is marked is a step.
proof fn lemma_write(r: Ring, m: Seq<u8>, seq: nat, value: Seq<u8>, values: Seq<Seq<u8>>)
    requires
        r.fits(m),
        value.len() == r.value_size,
    ensures
        ({
            let p = Progress { seq, busy: true };
            let n = memory::put(m, r.slot(r.current(p)) + 8, value);
            r.step(m, p, n, p, values) && r.data(n, r.current(p)) == value
        }),
{
    let p = Progress { seq, busy: true };
    let c = r.current(p);
    vstd::arithmetic::div_mod::lemma_mod_bound(seq as int, r.slots as int);
    pod_bus::lemma_ring_slot(r.value_size, r.slots, r.bounded, c);
    lemma_inside(r, m, c, r.slot(c) + 8, value);
    assert(r.data(memory::put(m, r.slot(c) + 8, value), c) =~= value);
}

/// Stamping a slot with its value is a step.
proof fn lemma_stamp(r: Ring, m: Seq<u8>, seq: nat, values: Seq<Seq<u8>>)
    requires
        r.fits(m),
        2 * seq + 4 <= u64::MAX,
        seq < values.len(),
        r.data(m, r.current(Progress { seq, busy: true })) == values[seq as int],
    ensures
        ({
            let p = Progress { seq, busy: true };
            r.step(
                m,
                p,
                memory::put64(m, r.slot(r.current(p)), pod_bus::done_stamp(seq as u64)),
                Progress { seq: seq + 1, busy: false },
                values,
            )
        }),
{
    let p = Progress { seq, busy: true };
    let c = r.current(p);
    let n = memory::put64(m, r.slot(c), pod_bus::done_stamp(seq as u64));
    vstd::arithmetic::div_mod::lemma_mod_bound(seq as int, r.slots as int);
    pod_bus::lemma_ring_slot(r.value_size, r.slots, r.bounded, c);
    lemma_inside(r, m, c, r.slot(c), memory::le64(pod_bus::done_stamp(seq as u64)));
    assert(r.data(n, c) =~= r.data(m, c));
}

/// A store outside of the ring is a step.
proof fn lemma_quiet(
    r: Ring,
    m: Seq<u8>,
    p: Progress,
    off: int,
    b: Seq<u8>,
    values: Seq<Seq<u8>>,
)
    requires
        r.fits(m),
        0 <= off,
        off + b.len() <= pod_bus::ring_start(r.bounded),
    ensures
        r.step(m, p, memory::put(m, off, b), p, values),
{
    vstd::arithmetic::div_mod::lemma_mod_bound(p.seq as int, r.slots as int);
    lemma_outside(r, m, off, b);
}

/// Marking a slot first leaves no trace in the end.
proof fn lemma_mark_leaves_no_trace(m: Seq<u8>, off: int, mark: u64, value: Seq<u8>, stamp: u64)
    requires
        0 <= off,
        off + 8 + value.len() <= m.len(),
    ensures
        memory::put64(memory::put(memory::put64(m, off, mark), off + 8, value), off, stamp)
            == memory::put64(memory::put(m, off + 8, value), off, stamp),
{
    assert(memory::put64(memory::put(memory::put64(m, off, mark), off + 8, value), off, stamp)
        =~= memory::put64(memory::put(m, off + 8, value), off, stamp));
}

/// The ring of a bus.
pub open spec fn ring_of<T: Pod, M: SharedMemory>(bus: PodBus<T, M>) -> Ring {
    Ring { value_size: T::size(), bounded: bus.watermark is Some, slots: bus.ring_size as nat }
}

/// The images of a publication, store by store: the heartbeat where it is due,
/// the mark, the value, the stamp, and the number of values.
pub open spec fn publication<T: Pod, M: SharedMemory>(
    bus: PodBus<T, M>,
    m: Seq<u8>,
    value: T,
    now: Option<u64>,
) -> Seq<Seq<u8>> {
    let seq = pod_bus::published(m);
    let off = ring_of(bus).slot(seq as int % bus.ring_size as int);
    let beaten = if seq % 1024 == 0 && now is Some {
        memory::put64(m, PH_HEARTBEAT_US as int, now->0)
    } else {
        m
    };
    let marked = memory::put64(beaten, off, (2 * seq + 1) as u64);
    let written = memory::put(marked, off + 8, value.encode());
    let stamped = memory::put64(written, off, pod_bus::done_stamp(seq));
    seq![
        m,
        beaten,
        marked,
        written,
        stamped,
        memory::put64(stamped, PH_WRITE_SEQ as int, memory::wrapping_sum_u64(seq, 1)),
    ]
}

/// How far the publisher is in each image of a publication.
pub open spec fn publication_progress(seq: nat) -> Seq<Progress> {
    let before = Progress { seq, busy: false };
    let during = Progress { seq, busy: true };
    let after = Progress { seq: seq + 1, busy: false };
    seq![before, before, during, during, after, after]
}

/// The images of a publication are a run.
proof fn lemma_publication_runs<T: Pod, M: SharedMemory>(
    bus: PodBus<T, M>,
    m: Seq<u8>,
    value: T,
    now: Option<u64>,
    values: Seq<Seq<u8>>,
    i: int,
)
    requires
        ring_of(bus).fits(m),
        2 * pod_bus::published(m) + 4 <= u64::MAX,
        pod_bus::published(m) < values.len(),
        values[pod_bus::published(m) as int] == value.encode(),
        0 <= i < 5,
    ensures
        ring_of(bus).goes_on(
            publication(bus, m, value, now),
            publication_progress(pod_bus::published(m) as nat),
            values,
            i,
        ),
{
    let r = ring_of(bus);
    let seq = pod_bus::published(m);
    let images = publication(bus, m, value, now);
    let progress = publication_progress(seq as nat);
    value.encode_size();
    pod_bus::lemma_ring_slot(r.value_size, r.slots, r.bounded, 0);
    if i == 0 {
        if images[1] != m {
            let beat = memory::le64(now->0);
            lemma_quiet(r, m, progress[0], PH_HEARTBEAT_US as int, beat, values);
        }
    } else if i == 1 {
        lemma_mark(r, images[1], seq as nat, values);
    } else if i == 2 {
        lemma_write(r, images[2], seq as nat, value.encode(), values);
    } else if i == 3 {
        lemma_write(r, images[2], seq as nat, value.encode(), values);
        lemma_stamp(r, images[3], seq as nat, values);
    } else {
        let count = memory::le64(memory::wrapping_sum_u64(seq, 1));
        lemma_quiet(r, images[4], progress[4], PH_WRITE_SEQ as int, count, values);
    }
}

/// The images of a publication are what its stores make, one after the other, of
/// the segment: those that `publish` and `try_publish` are stated to do for the
/// value.
pub proof fn law_publication_is_what_is_stored<T: Pod, M: SharedMemory>(
    bus: PodBus<T, M>,
    m: Seq<u8>,
    value: T,
    now: Option<u64>,
    ops: Accesses,
    i: int,
)
    requires
        bus.publishes(ops, pod_bus::published(m), value, now),
        2 * pod_bus::published(m) + 2 <= u64::MAX,
        0 <= i < 4,
    ensures
        ({
            let images = publication(bus, m, value, now);
            let beats = ops.len() - 4;
            &&& images[0] == m
            &&& beats == 0 && images[1] == m || beats == 1 && images[1] == memory::after_access(
                m,
                ops[0],
            )
            &&& images[i + 2] == memory::after_access(images[i + 1], ops[beats + i])
        }),
{
    let seq = pod_bus::published(m);
    let off = ring_of(bus).slot(seq as int % bus.ring_size as int);
    let stores = pod_bus::value_stores(off, seq, value.encode());
    assert(ops[ops.len() - 4 + i] == stores[i]);
    assert(pod_bus::writing_stamp(seq) == (2 * seq + 1) as u64);
    assert(i == 0 || i == 1 || i == 2 || i == 3);
}

/// No subscriber gets a torn value: whatever the publisher does meanwhile, what
/// a look for the next value brings is the value that was published under the
/// number behind which the subscriber then stands. `i` and `j` are the moments of
/// its two looks at the stamp, `moments` those at which it copied the bytes.
pub proof fn law_received_value_is_whole<T: Pod, M: SharedMemory>(
    s: BusSubscriber<T, M>,
    after: BusSubscriber<T, M>,
    got: T,
    seen: Sight,
    images: Seq<Seq<u8>>,
    progress: Seq<Progress>,
    values: Seq<Seq<u8>>,
    i: int,
    j: int,
    moments: Seq<int>,
)
    requires
        s.comes_of(&after, Some(got), seen),
        2 * s.position_at(seen.head) + 2 <= u64::MAX,
        ({
            let r = Ring { value_size: T::size(), bounded: s.bounded, slots: s.ring_size as nat };
            let off = r.slot(s.position_at(seen.head) as int % s.ring_size as int);
            let looks = pod_bus::slot_looks(off, seen.stamp, seen.value, seen.after);
            &&& r.run(images, progress, values)
            &&& 0 <= i <= j < images.len()
            &&& memory::told_of(images[i], looks[0])
            &&& memory::told_of(images[j], looks[2])
            &&& moments.len() == seen.value.len()
            &&& forall|x: int|
                0 <= x < moments.len() ==> i <= #[trigger] moments[x] <= j && seen.value[x]
                    == images[moments[x]][off + 8 + x]
        }),
    ensures
        after.cursor >= 1,
        after.cursor - 1 < values.len(),
        got.encode() == values[after.cursor - 1],
{
    let r = Ring { value_size: T::size(), bounded: s.bounded, slots: s.ring_size as nat };
    let at = s.position_at(seen.head);
    got.encode_size();
    law_no_torn_value(r, images, progress, values, at, i, j, moments, seen.value);
}

/// Publishing on a bus is a run, so that readers may look at any moment of it.
#[verifier::rlimit(50)]
pub proof fn law_publish_is_a_run<T: Pod, M: SharedMemory>(
    bus: PodBus<T, M>,
    m: Seq<u8>,
    value: T,
    now: Option<u64>,
    values: Seq<Seq<u8>>,
)
    requires
        ring_of(bus).consistent(
            m,
            Progress { seq: pod_bus::published(m) as nat, busy: false },
            values,
        ),
        2 * pod_bus::published(m) + 4 <= u64::MAX,
        pod_bus::published(m) < values.len(),
        values[pod_bus::published(m) as int] == value.encode(),
    ensures
        ring_of(bus).run(
            publication(bus, m, value, now),
            publication_progress(pod_bus::published(m) as nat),
            values,
        ),
        publication(bus, m, value, now)[5] == bus.after_publish(m, value, now),
        pod_bus::published(bus.after_publish(m, value, now)) == pod_bus::published(m) + 1,
{
    let r = ring_of(bus);
    let seq = pod_bus::published(m);
    let images = publication(bus, m, value, now);
    let progress = publication_progress(seq as nat);
    assert forall|i: int| 0 <= i < images.len() - 1 implies #[trigger] r.goes_on(
        images,
        progress,
        values,
        i,
    ) by {
        lemma_publication_runs(bus, m, value, now, values, i);
    }
    lemma_publication_end(bus, m, value, now);
}

/// A publication ends with the value in the ring.
proof fn lemma_publication_end<T: Pod, M: SharedMemory>(
    bus: PodBus<T, M>,
    m: Seq<u8>,
    value: T,
    now: Option<u64>,
)
    requires
        ring_of(bus).fits(m),
        2 * pod_bus::published(m) + 4 <= u64::MAX,
    ensures
        publication(bus, m, value, now)[5] == bus.after_publish(m, value, now),
        pod_bus::published(bus.after_publish(m, value, now)) == pod_bus::published(m) + 1,
{
    let r = ring_of(bus);
    let seq = pod_bus::published(m);
    let c = seq as int % bus.ring_size as int;
    vstd::arithmetic::div_mod::lemma_mod_bound(seq as int, r.slots as int);
    value.encode_size();
    pod_bus::lemma_ring_slot(r.value_size, r.slots, r.bounded, c);
    lemma_mark_leaves_no_trace(
        publication(bus, m, value, now)[1],
        r.slot(c),
        (2 * seq + 1) as u64,
        value.encode(),
        pod_bus::done_stamp(seq),
    );
}

/// The stamps of the first `n` slots are zero once cleared.
proof fn lemma_cleared(r: Ring, m: Seq<u8>, n: nat)
    requires
        r.fits(m),
        n <= r.slots,
    ensures
        pod_bus::with_clear_stamps(m, r.value_size, r.bounded, n).len() == m.len(),
        forall|k: int|
            0 <= k < n ==> #[trigger] r.stamp(
                pod_bus::with_clear_stamps(m, r.value_size, r.bounded, n),
                k,
            ) == 0,
    decreases n,
{
    if n > 0 {
        lemma_cleared(r, m, (n - 1) as nat);
        let a = pod_bus::with_clear_stamps(m, r.value_size, r.bounded, (n - 1) as nat);
        let z = pod_bus::with_clear_stamps(m, r.value_size, r.bounded, n);
        pod_bus::lemma_ring_slot(r.value_size, r.slots, r.bounded, n - 1);
        lemma_inside(r, a, n - 1, r.slot(n - 1), memory::le64(0));
        assert forall|k: int| 0 <= k < n implies #[trigger] r.stamp(z, k) == 0 by {
            if k < n - 1 {
                assert(r.stamp(a, k) == 0);
                assert(r.same_slot(a, z, k));
            }
        }
    }
}

/// A run can begin with a bus that was just created: none of its slots was ever
/// written.
pub proof fn law_created_bus_is_consistent(
    m: Seq<u8>,
    value_size: nat,
    value_align: nat,
    ring_size: nat,
    watermark: Option<u64>,
    pid: u64,
    now: u64,
    values: Seq<Seq<u8>>,
)
    requires
        pod_bus::valid_bus(value_size, ring_size as int, watermark),
        pod_bus::bus_bytes(value_size, ring_size, watermark is Some) <= m.len(),
    ensures
        (Ring { value_size, bounded: watermark is Some, slots: ring_size }).consistent(
            pod_bus::bus_created(m, value_size, value_align, ring_size, watermark, pid, now),
            Progress { seq: 0, busy: false },
            values,
        ),
{
    let r = Ring { value_size, bounded: watermark is Some, slots: ring_size };
    let p = Progress { seq: 0, busy: false };
    let z = pod_bus::bus_created(m, value_size, value_align, ring_size, watermark, pid, now);
    pod_bus::lemma_pow2_positive(ring_size as int);
    pod_bus::lemma_ring_slot(value_size, ring_size, r.bounded, 0);
    let m1 = pod_bus::with_bus_header(m, value_size, value_align, ring_size, watermark, pid);
    let m2 = if r.bounded {
        pod_bus::with_clear_subs(m1, MAX_SUBSCRIBER_SLOTS as nat)
    } else {
        m1
    };
    if r.bounded {
        bus_laws::lemma_clear_subs(m1, MAX_SUBSCRIBER_SLOTS as nat);
    }
    lemma_cleared(r, m2, ring_size);
    let m3 = pod_bus::with_clear_stamps(m2, value_size, r.bounded, ring_size);
    lemma_outside(r, m3, PH_HEARTBEAT_US as int, memory::le64(now));
    assert forall|k: int| 0 <= k < r.slots implies if p.busy && k == r.current(p) {
        #[trigger] r.stamp(z, k) == 2 * p.seq + 1
    } else {
        r.complete(z, p, values, k)
    } by {
        assert(r.stamp(m3, k) == 0);
        assert(r.same_slot(m3, z, k));
    }
}

} // verus!
