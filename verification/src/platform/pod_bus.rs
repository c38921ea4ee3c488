//! A ring that broadcasts plain values from one publisher to many subscribers.
//!
//! Layout: a header, in a bounded bus 64 subscriber slots, and the ring. Each
//! ring slot has a stamp in front of its value: 0 while nothing was written,
//! `seq * 2 + 1` while value number `seq` is being written, and `seq * 2 + 2`
//! once it is complete.

use crate::error::Error;
use crate::memory::{self, Access, Accesses, SharedMemory};
use crate::platform::place::Place;
use crate::pod::Pod;
use crate::protocol::layout::{self, power_of_two, validate_name};
use crate::protocol::pool;
use crate::text::{add_number, add_text, text};
use std::marker::PhantomData;
use vstd::prelude::*;

verus! {

broadcast use crate::memory::group_memory;

/// Version of a bus that overwrites.
pub const POD_BUS_VERSION_V1: u32 = 1;

/// Version of a bus that holds its publisher back.
pub const POD_BUS_VERSION_V2: u32 = 2;

/// Size of the header.
pub const POD_BUS_HEADER_SIZE: usize = 64;

/// Most subscribers of a bounded bus.
pub const MAX_SUBSCRIBER_SLOTS: usize = 64;

/// Size of a subscriber slot.
pub const SUBSCRIBER_SLOT_SIZE: usize = 16;

/// Header: magic bytes.
pub const PH_MAGIC: usize = 0;

/// Header: version.
pub const PH_VERSION: usize = 8;

/// Header: number of ring slots.
pub const PH_RING_SIZE: usize = 12;

/// Header: size of a value.
pub const PH_VALUE_SIZE: usize = 16;

/// Header: alignment of a value.
pub const PH_VALUE_ALIGN: usize = 20;

/// Header: last heartbeat, in microseconds since the epoch.
pub const PH_HEARTBEAT_US: usize = 24;

/// Header: number of values published.
pub const PH_WRITE_SEQ: usize = 32;

/// Header: process id of the publisher.
pub const PH_PUBLISHER_PID: usize = 40;

/// Header: free slots to keep between publisher and slowest subscriber.
pub const PH_WATERMARK: usize = 48;

/// A heartbeat is stale after this many microseconds.
pub const HEARTBEAT_STALE_US: u64 = 5_000_000;

/// Largest alignment of a value.
pub const MAX_POD_ALIGN: usize = 8;

/// Subscriber slot: state.
pub const SS_ACTIVE: usize = 0;

/// Subscriber slot: process id.
pub const SS_PID: usize = 4;

/// Subscriber slot: read position.
pub const SS_CURSOR: usize = 8;

/// State of a subscriber slot that nobody uses.
pub const SS_STATE_FREE: u32 = 0;

/// State of a subscriber slot in use.
pub const SS_STATE_ACTIVE: u32 = 1;

/// State of a subscriber slot that is being filled.
pub const SS_STATE_CLAIMING: u32 = 2;

/// The eight bytes `XPOD_ZC\0`.
pub open spec fn bus_magic() -> Seq<u8> {
    seq![0x58, 0x50, 0x4F, 0x44, 0x5F, 0x5A, 0x43, 0x00]
}

fn bus_magic_bytes() -> (r: Vec<u8>)
    ensures
        r@ == bus_magic(),
{
    let r: Vec<u8> = vec![0x58, 0x50, 0x4F, 0x44, 0x5F, 0x5A, 0x43, 0x00];
    assert(r@ =~= bus_magic());
    r
}

/// One slot of the ring: the stamp and the value.
#[derive(Debug)]
pub struct Slot<T: Pod> {
    /// The stamp.
    pub stamp: u64,
    /// The value.
    pub data: T,
}

/// Size of a slot: stamp and value, rounded up to whole cache lines.
pub open spec fn slot_bytes(value_size: nat) -> nat {
    ((8 + value_size + 63) / 64) * 64
}

/// Offset of the ring.
pub open spec fn ring_start(bounded: bool) -> int {
    if bounded {
        POD_BUS_HEADER_SIZE + MAX_SUBSCRIBER_SLOTS * SUBSCRIBER_SLOT_SIZE
    } else {
        POD_BUS_HEADER_SIZE as int
    }
}

/// Size of the whole segment.
pub open spec fn bus_bytes(value_size: nat, ring_size: nat, bounded: bool) -> int {
    ring_start(bounded) + ring_size * slot_bytes(value_size)
}

/// Offset of a ring slot.
pub open spec fn ring_slot(value_size: nat, bounded: bool, idx: int) -> int {
    ring_start(bounded) + idx * slot_bytes(value_size)
}

/// Offset of a subscriber slot.
pub open spec fn sub_slot(i: int) -> int {
    POD_BUS_HEADER_SIZE + i * SUBSCRIBER_SLOT_SIZE
}

/// Number of values published.
pub open spec fn published(m: Seq<u8>) -> u64 {
    memory::u64_at(m, PH_WRITE_SEQ as int)
}

/// State of a subscriber slot.
pub open spec fn sub_state(m: Seq<u8>, i: int) -> u32 {
    memory::u32_at(m, sub_slot(i) + SS_ACTIVE)
}

/// Process id of a subscriber slot.
pub open spec fn sub_pid(m: Seq<u8>, i: int) -> u32 {
    memory::u32_at(m, sub_slot(i) + SS_PID)
}

/// Read position of a subscriber slot.
pub open spec fn sub_cursor(m: Seq<u8>, i: int) -> u64 {
    memory::u64_at(m, sub_slot(i) + SS_CURSOR)
}

/// The stamp of a complete value.
pub open spec fn done_stamp(seq: u64) -> u64 {
    ((2 * seq + 2) % 0x1_0000_0000_0000_0000) as u64
}

/// Computes the stamp of a complete value.
fn stamp_done(seq: u64) -> (r: u64)
    ensures
        r == done_stamp(seq),
{
    ((2 * (seq as u128) + 2) % 0x1_0000_0000_0000_0000) as u64
}

/// The stamp of a value that is being written.
pub open spec fn writing_stamp(seq: u64) -> u64 {
    ((2 * seq + 1) % 0x1_0000_0000_0000_0000) as u64
}

/// Computes the stamp of a value that is being written.
fn stamp_writing(seq: u64) -> (r: u64)
    ensures
        r == writing_stamp(seq),
{
    ((2 * (seq as u128) + 1) % 0x1_0000_0000_0000_0000) as u64
}

/// The heartbeat that goes with value `seq`: every 1024th renews it, if the time
/// is known.
pub open spec fn beat_stores(seq: u64, now: Option<u64>) -> Accesses {
    if seq % 1024 == 0 && now is Some {
        seq![heartbeat_store(now->0)]
    } else {
        Seq::empty()
    }
}

/// The heartbeat is renewed.
pub open spec fn heartbeat_store(now: u64) -> Access {
    Access::Word64 { off: PH_HEARTBEAT_US as int, v: now }
}

/// What putting value `seq` into the slot at `off` stores, in this order: the
/// slot is marked as being written, gets the value, and is stamped; then the value
/// counts as published.
pub open spec fn value_stores(off: int, seq: u64, value: Seq<u8>) -> Accesses {
    seq![
        Access::Word64 { off, v: writing_stamp(seq) },
        Access::Bytes { off: off + 8, data: value },
        Access::Word64 { off, v: done_stamp(seq) },
        Access::Word64 { off: PH_WRITE_SEQ as int, v: memory::wrapping_sum_u64(seq, 1) },
    ]
}

/// The looks of a reader at the slot at `off`: its stamp, its value, and its stamp
/// once more.
pub open spec fn slot_looks(off: int, stamp: u64, value: Seq<u8>, after: u64) -> Accesses {
    seq![
        Access::Look64 { off, found: stamp },
        Access::Copied { off: off + 8, found: value },
        Access::Look64 { off, found: after },
    ]
}

/// A subscriber slot is freed.
pub open spec fn frees_sub(a: Access) -> bool {
    exists|k: int|
        0 <= k < MAX_SUBSCRIBER_SLOTS && a == (Access::Word32 {
            off: #[trigger] sub_slot(k) + SS_ACTIVE,
            v: SS_STATE_FREE,
        })
}

/// An attempt to claim a subscriber slot.
pub open spec fn tries_sub(a: Access, k: int, done: bool) -> bool {
    a matches Access::Exchange32 { off, current, new, found } && {
        &&& off == sub_slot(k) + SS_ACTIVE
        &&& current == SS_STATE_FREE
        &&& new == SS_STATE_CLAIMING
        &&& (found is Ok) == done
    }
}

/// What taking a subscriber slot does, in this order: the slots are tried in turn;
/// the first one that can be claimed gets the process and its position, and only
/// then counts.
pub open spec fn takes_sub(ops: Accesses, r: Option<usize>, pid: u32, cursor: u64) -> bool {
    let tried = match r {
        Some(i) => i as int,
        None => MAX_SUBSCRIBER_SLOTS as int,
    };
    &&& forall|k: int| 0 <= k < tried ==> tries_sub(#[trigger] ops[k], k, false)
    &&& match r {
        Some(i) => {
            &&& ops.len() == tried + 4
            &&& tries_sub(ops[tried], tried, true)
            &&& ops[tried + 1] == (Access::Word32 { off: sub_slot(tried) + SS_PID, v: pid })
            &&& ops[tried + 2] == (Access::Word64 { off: sub_slot(tried) + SS_CURSOR, v: cursor })
            &&& ops[tried + 3] == (Access::Word32 {
                off: sub_slot(tried) + SS_ACTIVE,
                v: SS_STATE_ACTIVE,
            })
        },
        None => ops.len() == tried,
    }
}

/// A size that a bus can have: a power of two of slots, watermark below it, and
/// the whole within the address space.
pub open spec fn valid_bus(value_size: nat, ring_size: int, watermark: Option<u64>) -> bool {
    &&& 0 < ring_size <= u32::MAX
    &&& layout::is_power_of_two(ring_size)
    &&& watermark matches Some(w) ==> w < ring_size
    &&& bus_bytes(value_size, ring_size as nat, watermark is Some) <= usize::MAX
}

/// A ring slot lies behind the header and inside the segment.
pub proof fn lemma_ring_slot(value_size: nat, ring_size: nat, bounded: bool, idx: int)
    requires
        0 <= idx < ring_size,
    ensures
        ring_start(bounded) <= ring_slot(value_size, bounded, idx),
        ring_slot(value_size, bounded, idx) + slot_bytes(value_size) <= bus_bytes(
            value_size,
            ring_size,
            bounded,
        ),
        8 + value_size <= slot_bytes(value_size),
        0 <= idx * slot_bytes(value_size),
{
    pool::lemma_mul_bounds(idx, ring_size as int, slot_bytes(value_size) as int);
}

/// Two different ring slots do not overlap.
pub proof fn lemma_ring_slots_apart(value_size: nat, bounded: bool, a: int, b: int)
    requires
        a < b,
    ensures
        ring_slot(value_size, bounded, a) + slot_bytes(value_size) <= ring_slot(
            value_size,
            bounded,
            b,
        ),
{
    let s = slot_bytes(value_size) as int;
    assert(a * s + s <= b * s) by (nonlinear_arith)
        requires
            a < b,
            0 <= s,
    ;
}

/// The path of the file of a bus.
pub fn pod_bus_shm_path(name: &str, place: &Place) -> (r: String)
    ensures
        r@ == place.path_of(
            "/dev/shm/crossbar-pod-"@,
            "crossbar-pod-"@,
            "/tmp/crossbar-pod-shm-"@,
            name@,
        ),
{
    place.file("/dev/shm/crossbar-pod-", "crossbar-pod-", "/tmp/crossbar-pod-shm-", name)
}

/// Size of a slot for values of a type, computed.
pub fn slot_size<T: Pod>() -> (r: Option<usize>)
    requires
        T::size() <= usize::MAX,
    ensures
        match r {
            Some(n) => n == slot_bytes(T::size()),
            None => slot_bytes(T::size()) > usize::MAX,
        },
{
    let n: u128 = ((8 + T::size_of() as u128 + 63) / 64) * 64;
    if n > usize::MAX as u128 {
        None
    } else {
        Some(n as usize)
    }
}

/// The size of the segment for a bus, or `None` if there can be no such bus:
/// the ring size is not a power of two (or needs more than 32 bits), the
/// watermark is not below it, or the segment would not fit the address space.
pub fn bus_size<T: Pod>(ring_size: usize, watermark: Option<u64>) -> (r: Option<usize>)
    requires
        T::size() <= usize::MAX,
    ensures
        match r {
            Some(n) => valid_bus(T::size(), ring_size as int, watermark) && n == bus_bytes(
                T::size(),
                ring_size as nat,
                watermark is Some,
            ),
            None => !valid_bus(T::size(), ring_size as int, watermark),
        },
{
    if ring_size == 0 || ring_size > 0xFFFF_FFFF || !power_of_two(ring_size as u32) {
        return None;
    }
    let start: usize = match watermark {
        Some(w) => {
            if w >= ring_size as u64 {
                return None;
            }
            POD_BUS_HEADER_SIZE + MAX_SUBSCRIBER_SLOTS * SUBSCRIBER_SLOT_SIZE
        },
        None => POD_BUS_HEADER_SIZE,
    };
    proof {
        let s = slot_bytes(T::size());
        assert(ring_size * s >= s) by (nonlinear_arith)
            requires
                ring_size >= 1,
        ;
    }
    match slot_size::<T>() {
        None => None,
        Some(s) => match ring_size.checked_mul(s) {
            None => None,
            Some(n) => start.checked_add(n),
        },
    }
}

/// Refuses a type whose alignment is too large.
fn check_alignment<T: Pod>() -> (r: Result<(), Error>)
    ensures
        r is Ok <==> T::align() <= MAX_POD_ALIGN,
        r matches Err(e) ==> (e matches Error::AlignmentError { align, max } && align == T::align()
            && max == MAX_POD_ALIGN),
{
    let align: usize = T::align_of();
    if align > MAX_POD_ALIGN {
        return Err(Error::AlignmentError { align, max: MAX_POD_ALIGN });
    }
    Ok(())
}

/// The segment with the first `n` subscriber slots cleared.
pub open spec fn with_clear_subs(m: Seq<u8>, n: nat) -> Seq<u8>
    decreases n,
{
    if n == 0 {
        m
    } else {
        let i = n - 1;
        let m = with_clear_subs(m, i as nat);
        let m = memory::put32(m, sub_slot(i) + SS_ACTIVE, 0);
        let m = memory::put32(m, sub_slot(i) + SS_PID, 0);
        memory::put64(m, sub_slot(i) + SS_CURSOR, 0)
    }
}

/// The segment with the first `n` stamps cleared.
pub open spec fn with_clear_stamps(
    m: Seq<u8>,
    value_size: nat,
    bounded: bool,
    n: nat,
) -> Seq<u8>
    decreases n,
{
    if n == 0 {
        m
    } else {
        memory::put64(
            with_clear_stamps(m, value_size, bounded, (n - 1) as nat),
            ring_slot(value_size, bounded, n - 1),
            0,
        )
    }
}

/// The segment with the header of a bus.
pub open spec fn with_bus_header(
    m: Seq<u8>,
    value_size: nat,
    value_align: nat,
    ring_size: nat,
    watermark: Option<u64>,
    pid: u64,
) -> Seq<u8> {
    let version = if watermark is Some {
        POD_BUS_VERSION_V2
    } else {
        POD_BUS_VERSION_V1
    };
    let mark = match watermark {
        Some(w) => w as u32,
        None => 0,
    };
    let m = memory::put(m, PH_MAGIC as int, bus_magic());
    let m = memory::put32(m, PH_VERSION as int, version);
    let m = memory::put32(m, PH_RING_SIZE as int, ring_size as u32);
    let m = memory::put32(m, PH_VALUE_SIZE as int, value_size as u32);
    let m = memory::put32(m, PH_VALUE_ALIGN as int, value_align as u32);
    let m = memory::put64(m, PH_WRITE_SEQ as int, 0);
    let m = memory::put64(m, PH_PUBLISHER_PID as int, pid);
    memory::put32(m, PH_WATERMARK as int, mark)
}

/// The segment as creating a bus leaves it.
pub open spec fn bus_created(
    m: Seq<u8>,
    value_size: nat,
    value_align: nat,
    ring_size: nat,
    watermark: Option<u64>,
    pid: u64,
    now: u64,
) -> Seq<u8> {
    let m = with_bus_header(m, value_size, value_align, ring_size, watermark, pid);
    let m = if watermark is Some {
        with_clear_subs(m, MAX_SUBSCRIBER_SLOTS as nat)
    } else {
        m
    };
    let m = with_clear_stamps(m, value_size, watermark is Some, ring_size);
    memory::put64(m, PH_HEARTBEAT_US as int, now)
}

/// A subscriber slot is held by a process that is gone.
pub open spec fn sub_dead(m: Seq<u8>, i: int, dead: Seq<u32>) -> bool {
    &&& sub_state(m, i) == SS_STATE_ACTIVE || sub_state(m, i) == SS_STATE_CLAIMING
    &&& sub_pid(m, i) != 0
    &&& dead.contains(sub_pid(m, i))
}

/// A subscriber slot counts: it is in use and its process is not gone.
pub open spec fn sub_counts(m: Seq<u8>, i: int, dead: Seq<u32>) -> bool {
    sub_state(m, i) == SS_STATE_ACTIVE && !sub_dead(m, i, dead)
}

/// The segment with those of the first `n` subscriber slots freed whose
/// processes are gone.
pub open spec fn pruned(m: Seq<u8>, dead: Seq<u32>, n: nat) -> Seq<u8>
    decreases n,
{
    if n == 0 {
        m
    } else if sub_dead(m, n - 1, dead) {
        memory::put32(
            pruned(m, dead, (n - 1) as nat),
            sub_slot(n - 1) + SS_ACTIVE,
            SS_STATE_FREE,
        )
    } else {
        pruned(m, dead, (n - 1) as nat)
    }
}

/// The read position furthest behind among the first `n` subscriber slots that
/// count, if any does.
pub open spec fn slowest(m: Seq<u8>, dead: Seq<u32>, n: nat) -> Option<u64>
    decreases n,
{
    if n == 0 {
        None
    } else {
        let before = slowest(m, dead, (n - 1) as nat);
        if sub_counts(m, n - 1, dead) {
            match before {
                Some(c) if c < sub_cursor(m, n - 1) => Some(c),
                _ => Some(sub_cursor(m, n - 1)),
            }
        } else {
            before
        }
    }
}

/// Freeing slots changes no slot behind them, and nothing but states.
pub proof fn lemma_pruned(m: Seq<u8>, dead: Seq<u32>, n: nat)
    requires
        n <= MAX_SUBSCRIBER_SLOTS,
        ring_start(true) <= m.len(),
    ensures
        pruned(m, dead, n).len() == m.len(),
        forall|k: int|
            0 <= k < m.len() && !(POD_BUS_HEADER_SIZE <= k < sub_slot(n as int))
                ==> #[trigger] pruned(m, dead, n)[k] == m[k],
    decreases n,
{
    if n > 0 {
        lemma_pruned(m, dead, (n - 1) as nat);
    }
}

/// The publisher of a bus.
pub struct PodBus<T: Pod, M: SharedMemory> {
    /// The segment.
    pub mem: M,
    /// Number of ring slots.
    pub ring_size: usize,
    /// Name of the segment.
    pub name: String,
    /// Free slots to keep in front of the slowest subscriber; `None` for a bus
    /// that overwrites.
    pub watermark: Option<u64>,
    /// The slowest read position that was found last.
    pub cached_slowest: u64,
    /// The type of the values.
    pub marker: PhantomData<T>,
}

impl<T: Pod, M: SharedMemory> PodBus<T, M> {
    /// The segment has room for the bus.
    pub open spec fn wf(&self) -> bool {
        &&& valid_bus(T::size(), self.ring_size as int, self.watermark)
        &&& T::align() <= MAX_POD_ALIGN
        &&& bus_bytes(T::size(), self.ring_size as nat, self.watermark is Some)
            <= self.mem.image().len() <= usize::MAX
    }

    /// `other` is the same bus at a later moment.
    pub open spec fn same_bus(&self, other: &Self) -> bool {
        &&& other.ring_size == self.ring_size
        &&& other.watermark == self.watermark
        &&& other.name == self.name
        &&& other.mem.image().len() == self.mem.image().len()
        &&& other.mem.exclusive() == self.mem.exclusive()
        &&& other.mem.contention() <= self.mem.contention()
    }

    /// Creates a bus that overwrites what slow subscribers have not read.
    pub fn create(name: &str, ring_size: usize, mem: M, pid: u64, now: Option<u64>) -> (r: Result<
        PodBus<T, M>,
        Error,
    >)
        requires
            valid_bus(T::size(), ring_size as int, None),
            T::size() <= u32::MAX,
            bus_bytes(T::size(), ring_size as nat, false) <= mem.image().len() <= usize::MAX,
        ensures
            created_as(name@, ring_size, None, mem, pid, now, r),
    {
        Self::create_inner(name, ring_size, None, mem, pid, now)
    }

    /// Creates a bus that holds its publisher back before it overwrites what a
    /// subscriber has not read. `watermark` slots stay free in front of the
    /// slowest subscriber.
    pub fn create_bounded(
        name: &str,
        ring_size: usize,
        watermark: usize,
        mem: M,
        pid: u64,
        now: Option<u64>,
    ) -> (r: Result<PodBus<T, M>, Error>)
        requires
            valid_bus(T::size(), ring_size as int, Some(watermark as u64)),
            T::size() <= u32::MAX,
            bus_bytes(T::size(), ring_size as nat, true) <= mem.image().len() <= usize::MAX,
        ensures
            created_as(name@, ring_size, Some(watermark as u64), mem, pid, now, r),
    {
        Self::create_inner(name, ring_size, Some(watermark as u64), mem, pid, now)
    }

    fn create_inner(
        name: &str,
        ring_size: usize,
        watermark: Option<u64>,
        mem: M,
        pid: u64,
        now: Option<u64>,
    ) -> (r: Result<PodBus<T, M>, Error>)
        requires
            valid_bus(T::size(), ring_size as int, watermark),
            T::size() <= u32::MAX,
            bus_bytes(T::size(), ring_size as nat, watermark is Some) <= mem.image().len()
                <= usize::MAX,
        ensures
            created_as(name@, ring_size, watermark, mem, pid, now, r),
    {
        if let Err(e) = validate_name(name) {
            return Err(e);
        }
        if let Err(e) = check_alignment::<T>() {
            return Err(e);
        }
        let ghost m = mem.image();
        proof {
            lemma_ring_slot(T::size(), ring_size as nat, watermark is Some, 0);
        }
        let mut mem: M = mem;
        let bounded: bool = watermark.is_some();
        let version: u32 = if bounded {
            POD_BUS_VERSION_V2
        } else {
            POD_BUS_VERSION_V1
        };
        let mark: u32 = match watermark {
            Some(w) => w as u32,
            None => 0,
        };
        let magic: Vec<u8> = bus_magic_bytes();
        mem.write(PH_MAGIC, magic.as_slice());
        mem.store_u32(PH_VERSION, version);
        mem.store_u32(PH_RING_SIZE, ring_size as u32);
        mem.store_u32(PH_VALUE_SIZE, T::size_of() as u32);
        mem.store_u32(PH_VALUE_ALIGN, T::align_of() as u32);
        mem.store_u64(PH_WRITE_SEQ, 0);
        mem.store_u64(PH_PUBLISHER_PID, pid);
        mem.store_u32(PH_WATERMARK, mark);
        let mut bus: PodBus<T, M> = PodBus {
            mem,
            ring_size,
            name: name.to_owned(),
            watermark,
            cached_slowest: 0,
            marker: PhantomData,
        };
        if bounded {
            bus.clear_subscribers();
        }
        bus.clear_stamps();
        match now {
            None => Err(Error::ClockError),
            Some(t) => {
                bus.mem.store_u64(PH_HEARTBEAT_US, t);
                Ok(bus)
            },
        }
    }

    /// Frees every subscriber slot.
    fn clear_subscribers(&mut self)
        requires
            old(self).wf(),
            old(self).watermark is Some,
        ensures
            final(self).wf(),
            old(self).same_bus(final(self)),
            final(self).cached_slowest == old(self).cached_slowest,
            old(self).mem.exclusive() ==> final(self).mem.image() == with_clear_subs(
                old(self).mem.image(),
                MAX_SUBSCRIBER_SLOTS as nat,
            ),
    {
        proof {
            lemma_ring_slot(T::size(), self.ring_size as nat, true, 0);
        }
        let mut i: usize = 0;
        while i < MAX_SUBSCRIBER_SLOTS
            invariant
                self.wf(),
                old(self).same_bus(self),
                self.cached_slowest == old(self).cached_slowest,
                ring_start(true) <= self.mem.image().len(),
                i <= MAX_SUBSCRIBER_SLOTS,
                self.mem.exclusive() ==> self.mem.image() == with_clear_subs(
                    old(self).mem.image(),
                    i as nat,
                ),
            decreases MAX_SUBSCRIBER_SLOTS - i,
        {
            let off: usize = POD_BUS_HEADER_SIZE + i * SUBSCRIBER_SLOT_SIZE;
            self.mem.store_u32(off + SS_ACTIVE, 0);
            self.mem.store_u32(off + SS_PID, 0);
            self.mem.store_u64(off + SS_CURSOR, 0);
            i = i + 1;
        }
    }

    /// Offset of a ring slot, computed.
    fn slot_off(&self, idx: usize) -> (r: usize)
        requires
            self.wf(),
            idx < self.ring_size,
        ensures
            r == ring_slot(T::size(), self.watermark is Some, idx as int),
            r + slot_bytes(T::size()) <= self.mem.image().len(),
            8 + T::size() <= slot_bytes(T::size()),
            ring_start(self.watermark is Some) <= r,
    {
        proof {
            lemma_ring_slot(T::size(), self.ring_size as nat, self.watermark is Some, idx as int);
            pool::lemma_mul_bounds(
                idx as int,
                self.ring_size as int,
                slot_bytes(T::size()) as int,
            );
        }
        ring_slot_off::<T>(self.watermark.is_some(), idx)
    }

    /// Sets every stamp to "never written".
    fn clear_stamps(&mut self)
        requires
            old(self).wf(),
        ensures
            final(self).wf(),
            old(self).same_bus(final(self)),
            final(self).cached_slowest == old(self).cached_slowest,
            old(self).mem.exclusive() ==> final(self).mem.image() == with_clear_stamps(
                old(self).mem.image(),
                T::size(),
                old(self).watermark is Some,
                old(self).ring_size as nat,
            ),
    {
        let mut i: usize = 0;
        while i < self.ring_size
            invariant
                self.wf(),
                old(self).same_bus(self),
                self.cached_slowest == old(self).cached_slowest,
                i <= self.ring_size,
                self.mem.exclusive() ==> self.mem.image() == with_clear_stamps(
                    old(self).mem.image(),
                    T::size(),
                    old(self).watermark is Some,
                    i as nat,
                ),
            decreases self.ring_size - i,
        {
            let off: usize = self.slot_off(i);
            self.mem.store_u64(off, 0);
            i = i + 1;
        }
    }

    /// One turn of a publication that waits for room. `spins` is the number of
    /// turns so far, `dead` the processes that are known to be gone, `now` the
    /// time. `None` says that the value was published; otherwise the publisher
    /// is held back, and the number is to be handed to the next turn. Every
    /// 1024th turn renews the heartbeat, so that subscribers do not give up on a
    /// publisher that waits for them.
    pub fn publish(&mut self, value: T, spins: u32, dead: &[u32], now: Option<u64>) -> (r: Option<
        u32,
    >)
        requires
            old(self).wf(),
        ensures
            final(self).wf(),
            old(self).same_bus(final(self)),
            r matches Some(n) ==> n == memory::wrapping_sum_u32(spins, 1),
            old(self).watermark is None ==> r is None,
            exists|ops: Accesses|
                {
                    &&& final(self).mem.accesses() == old(self).mem.accesses() + ops + if r is Some
                        && memory::wrapping_sum_u32(spins, 1) % 1024 == 0 && now is Some {
                        seq![heartbeat_store(now->0)]
                    } else {
                        Seq::empty()
                    }
                    &&& #[trigger] old(self).tried(ops, value, now, r is None)
                },
            old(self).mem.exclusive() ==> {
                let m = old(self).mem.image();
                if old(self).full(dead@) {
                    let held = pruned(m, dead@, MAX_SUBSCRIBER_SLOTS as nat);
                    &&& r is Some
                    &&& final(self).mem.image() == (if memory::wrapping_sum_u32(spins, 1) % 1024
                        == 0 && now is Some {
                        memory::put64(held, PH_HEARTBEAT_US as int, now->0)
                    } else {
                        held
                    })
                } else {
                    &&& r is None
                    &&& final(self).mem.image() == old(self).after_publish(
                        old(self).after_scan(dead@),
                        value,
                        now,
                    )
                }
            },
            old(self).mem.exclusive() ==> final(self).cached_slowest == old(self).found_slowest(
                dead@,
            ),
    {
        let ghost first = self.mem.accesses();
        let tried: Result<(), Error> = self.try_publish(value, dead, now);
        let ghost ops = choose|ops: Accesses|
            self.mem.accesses() == first + ops && #[trigger] old(self).tried(
                ops,
                value,
                now,
                tried is Ok,
            );
        assert(first + ops + Seq::<Access>::empty() =~= first + ops);
        match tried {
            Ok(()) => None,
            Err(_) => {
                let spins: u32 = spins.wrapping_add(1);
                if spins % 1024 == 0 {
                    if let Some(t) = now {
                        proof {
                            lemma_ring_slot(
                                T::size(),
                                self.ring_size as nat,
                                self.watermark is Some,
                                0,
                            );
                        }
                        self.mem.store_u64(PH_HEARTBEAT_US, t);
                        assert(self.mem.accesses() =~= first + ops + seq![heartbeat_store(t)]);
                    }
                }
                Some(spins)
            },
        }
    }

    /// The slowest position that was found last is too far behind, so that the
    /// subscribers are looked at again.
    pub open spec fn looks(&self) -> bool {
        self.watermark matches Some(w) && published(self.mem.image()) >= self.cached_slowest
            + self.ring_size - w
    }

    /// The bus is full: it is bounded, and its slowest subscriber has left fewer
    /// free slots than the watermark.
    pub open spec fn full(&self, dead: Seq<u32>) -> bool {
        &&& self.looks()
        &&& slowest(self.mem.image(), dead, MAX_SUBSCRIBER_SLOTS as nat) matches Some(c)
        &&& published(self.mem.image()) >= c + self.ring_size - self.watermark->0
    }

    /// The slowest position that is known after the look at the subscribers that
    /// precedes a publication.
    pub open spec fn found_slowest(&self, dead: Seq<u32>) -> u64 {
        match slowest(self.mem.image(), dead, MAX_SUBSCRIBER_SLOTS as nat) {
            Some(c) => if self.looks() {
                c
            } else {
                self.cached_slowest
            },
            None => self.cached_slowest,
        }
    }

    /// The segment after the look at the subscribers that precedes a
    /// publication.
    pub open spec fn after_scan(&self, dead: Seq<u32>) -> Seq<u8> {
        if self.looks() {
            pruned(self.mem.image(), dead, MAX_SUBSCRIBER_SLOTS as nat)
        } else {
            self.mem.image()
        }
    }

    /// The segment `m` after a value was put into the ring.
    pub open spec fn after_publish(&self, m: Seq<u8>, value: T, now: Option<u64>) -> Seq<u8> {
        let seq = published(m);
        let m = if seq % 1024 == 0 && now is Some {
            memory::put64(m, PH_HEARTBEAT_US as int, now->0)
        } else {
            m
        };
        let off = ring_slot(
            T::size(),
            self.watermark is Some,
            seq as int % self.ring_size as int,
        );
        let m = memory::put(m, off + 8, value.encode());
        let m = memory::put64(m, off, done_stamp(seq));
        memory::put64(m, PH_WRITE_SEQ as int, memory::wrapping_sum_u64(seq, 1))
    }

    /// What a publication of value `seq` stores.
    pub open spec fn publishes(&self, ops: Accesses, seq: u64, value: T, now: Option<u64>) -> bool {
        let off = ring_slot(
            T::size(),
            self.watermark is Some,
            seq as int % self.ring_size as int,
        );
        ops == beat_stores(seq, now) + value_stores(off, seq, value.encode())
    }

    /// What a look at the subscribers stores: it frees slots. A bus that
    /// overwrites does not look at them.
    pub open spec fn prunes(&self, ops: Accesses) -> bool {
        &&& self.watermark is None ==> ops.len() == 0
        &&& forall|i: int| 0 <= i < ops.len() ==> frees_sub(#[trigger] ops[i])
    }

    /// What an attempt to publish stores: slots of subscribers are freed, and then
    /// the value is published, if the attempt succeeds.
    pub open spec fn tried(&self, ops: Accesses, value: T, now: Option<u64>, done: bool) -> bool {
        exists|freed: Accesses, rest: Accesses, seq: u64|
            {
                &&& ops == freed + rest
                &&& #[trigger] self.prunes(freed)
                &&& #[trigger] self.goes_on(rest, seq, value, now, done)
            }
    }

    /// What an attempt to publish stores behind the look at the subscribers.
    pub open spec fn goes_on(
        &self,
        rest: Accesses,
        seq: u64,
        value: T,
        now: Option<u64>,
        done: bool,
    ) -> bool {
        if done {
            &&& self.publishes(rest, seq, value, now)
            &&& self.mem.exclusive() ==> seq == published(self.mem.image())
        } else {
            rest.len() == 0
        }
    }

    /// Publishes a value, unless the bus is full. A bus that overwrites is never
    /// full. Slots of subscribers whose processes are gone (those in `dead`) are
    /// freed when the subscribers are looked at.
    pub fn try_publish(&mut self, value: T, dead: &[u32], now: Option<u64>) -> (r: Result<
        (),
        Error,
    >)
        requires
            old(self).wf(),
        ensures
            final(self).wf(),
            old(self).same_bus(final(self)),
            r matches Err(e) ==> e is Full,
            old(self).watermark is None ==> r is Ok,
            exists|ops: Accesses|
                {
                    &&& final(self).mem.accesses() == old(self).mem.accesses() + ops
                    &&& #[trigger] old(self).tried(ops, value, now, r is Ok)
                },
            old(self).mem.exclusive() ==> {
                let m = old(self).mem.image();
                &&& r is Err <==> old(self).full(dead@)
                &&& final(self).mem.image() == (if r is Ok {
                    old(self).after_publish(old(self).after_scan(dead@), value, now)
                } else {
                    old(self).after_scan(dead@)
                })
                &&& final(self).cached_slowest == old(self).found_slowest(dead@)
            },
    {
        let ghost first = self.mem.accesses();
        let room: bool = self.find_room(dead);
        let ghost freed = choose|ops: Accesses|
            self.mem.accesses() == first + ops && #[trigger] old(self).prunes(ops);
        if !room {
            proof {
                let none = Seq::<Access>::empty();
                assert(freed + none =~= freed);
                assert(old(self).goes_on(none, 0, value, now, false));
                assert(old(self).tried(freed, value, now, false));
            }
            return Err(Error::Full);
        }
        let ghost looked = self.mem.accesses();
        let ghost found = *self;
        self.publish_unchecked(value, now);
        proof {
            let (seq, rest) = choose|seq: u64, rest: Accesses|
                {
                    &&& self.mem.accesses() == looked + rest
                    &&& #[trigger] found.publishes(rest, seq, value, now)
                    &&& found.mem.exclusive() ==> seq == published(found.mem.image())
                };
            assert(old(self).goes_on(rest, seq, value, now, true));
            assert(old(self).tried(freed + rest, value, now, true));
            assert(self.mem.accesses() =~= first + (freed + rest));
        }
        Ok(())
    }

    /// Whether the ring has room for one more value. Looks at the subscribers of
    /// a bounded bus, where the slowest one that was found last is too far behind.
    fn find_room(&mut self, dead: &[u32]) -> (r: bool)
        requires
            old(self).wf(),
        ensures
            final(self).wf(),
            old(self).same_bus(final(self)),
            old(self).watermark is None ==> r,
            exists|ops: Accesses|
                {
                    &&& final(self).mem.accesses() == old(self).mem.accesses() + ops
                    &&& #[trigger] old(self).prunes(ops)
                },
            old(self).mem.exclusive() ==> {
                &&& r == !old(self).full(dead@)
                &&& final(self).mem.image() == old(self).after_scan(dead@)
                &&& published(final(self).mem.image()) == published(old(self).mem.image())
                &&& final(self).cached_slowest == old(self).found_slowest(dead@)
            },
    {
        proof {
            lemma_ring_slot(T::size(), self.ring_size as nat, self.watermark is Some, 0);
            let none = Seq::<Access>::empty();
            assert(self.mem.accesses() + none =~= self.mem.accesses());
            assert(old(self).prunes(none));
        }
        if let Some(watermark) = self.watermark {
            let write_seq: u64 = self.mem.load_u64(PH_WRITE_SEQ);
            let effective: u64 = self.ring_size as u64 - watermark;
            if write_seq as u128 >= self.cached_slowest as u128 + effective as u128 {
                if let Some(c) = self.slowest_subscriber_cursor(dead) {
                    self.cached_slowest = c;
                    return (write_seq as u128) < c as u128 + effective as u128;
                }
            }
        }
        true
    }

    /// Puts a value into the ring. Every 1024th value renews the heartbeat, if
    /// the time is known.
    fn publish_unchecked(&mut self, value: T, now: Option<u64>)
        requires
            old(self).wf(),
        ensures
            final(self).wf(),
            old(self).same_bus(final(self)),
            final(self).cached_slowest == old(self).cached_slowest,
            exists|seq: u64, ops: Accesses|
                {
                    &&& final(self).mem.accesses() == old(self).mem.accesses() + ops
                    &&& #[trigger] old(self).publishes(ops, seq, value, now)
                    &&& old(self).mem.exclusive() ==> seq == published(old(self).mem.image())
                },
            old(self).mem.exclusive() ==> final(self).mem.image() == old(self).after_publish(
                old(self).mem.image(),
                value,
                now,
            ),
    {
        let ghost m = self.mem.image();
        proof {
            lemma_ring_slot(T::size(), self.ring_size as nat, self.watermark is Some, 0);
        }
        let write_seq: u64 = self.mem.load_u64(PH_WRITE_SEQ);
        if write_seq % 1024 == 0 {
            if let Some(t) = now {
                self.mem.store_u64(PH_HEARTBEAT_US, t);
            }
        }
        let ghost m1 = self.mem.image();
        let idx: usize = (write_seq % self.ring_size as u64) as usize;
        let off: usize = self.slot_off(idx);
        let b: Vec<u8> = value.to_bytes();
        self.mem.store_u64(off, stamp_writing(write_seq));
        self.mem.write(off + 8, b.as_slice());
        self.mem.store_u64(off, stamp_done(write_seq));
        proof {
            if self.mem.exclusive() {
                assert(self.mem.image() =~= memory::put64(
                    memory::put(m1, off + 8, b@),
                    off as int,
                    done_stamp(write_seq),
                ));
            }
        }
        self.mem.store_u64(PH_WRITE_SEQ, write_seq.wrapping_add(1));
        proof {
            let ops = beat_stores(write_seq, now) + value_stores(
                off as int,
                write_seq,
                value.encode(),
            );
            assert(old(self).publishes(ops, write_seq, value, now));
            assert(self.mem.accesses() =~= old(self).mem.accesses() + ops);
        }
    }

    /// Looks at the subscribers of a bounded bus: frees the slots whose
    /// processes are gone, and gives the slowest read position of the others.
    fn slowest_subscriber_cursor(&mut self, dead: &[u32]) -> (r: Option<u64>)
        requires
            old(self).wf(),
            old(self).watermark is Some,
        ensures
            final(self).wf(),
            old(self).same_bus(final(self)),
            final(self).cached_slowest == old(self).cached_slowest,
            exists|ops: Accesses|
                {
                    &&& final(self).mem.accesses() == old(self).mem.accesses() + ops
                    &&& #[trigger] old(self).prunes(ops)
                },
            old(self).mem.exclusive() ==> {
                let m = old(self).mem.image();
                &&& r == slowest(m, dead@, MAX_SUBSCRIBER_SLOTS as nat)
                &&& final(self).mem.image() == pruned(m, dead@, MAX_SUBSCRIBER_SLOTS as nat)
                &&& published(final(self).mem.image()) == published(m)
            },
    {
        let ghost m = self.mem.image();
        proof {
            lemma_ring_slot(T::size(), self.ring_size as nat, true, 0);
        }
        let ghost mut ops: Accesses = Seq::empty();
        assert(old(self).mem.accesses() + ops =~= old(self).mem.accesses());
        let mut found: Option<u64> = None;
        let mut i: usize = 0;
        while i < MAX_SUBSCRIBER_SLOTS
            invariant
                self.wf(),
                old(self).same_bus(self),
                self.cached_slowest == old(self).cached_slowest,
                m == old(self).mem.image(),
                old(self).watermark is Some,
                self.mem.accesses() == old(self).mem.accesses() + ops,
                old(self).prunes(ops),
                ring_start(true) <= self.mem.image().len(),
                i <= MAX_SUBSCRIBER_SLOTS,
                self.mem.exclusive() ==> {
                    &&& found == slowest(m, dead@, i as nat)
                    &&& self.mem.image() == pruned(m, dead@, i as nat)
                },
            decreases MAX_SUBSCRIBER_SLOTS - i,
        {
            proof {
                if self.mem.exclusive() {
                    lemma_pruned(m, dead@, i as nat);
                    assert(sub_state(self.mem.image(), i as int) == sub_state(m, i as int));
                    assert(sub_pid(self.mem.image(), i as int) == sub_pid(m, i as int));
                    assert(sub_cursor(self.mem.image(), i as int) == sub_cursor(m, i as int));
                }
            }
            let off: usize = POD_BUS_HEADER_SIZE + i * SUBSCRIBER_SLOT_SIZE;
            let state: u32 = self.mem.load_u32(off + SS_ACTIVE);
            if state == SS_STATE_ACTIVE || state == SS_STATE_CLAIMING {
                let pid: u32 = self.mem.load_u32(off + SS_PID);
                if pid != 0 && contains_pid(dead, pid) {
                    self.mem.store_u32(off + SS_ACTIVE, SS_STATE_FREE);
                    proof {
                        let last = Access::Word32 {
                            off: sub_slot(i as int) + SS_ACTIVE,
                            v: SS_STATE_FREE,
                        };
                        assert(frees_sub(last));
                        ops = ops.push(last);
                        assert(self.mem.accesses() =~= old(self).mem.accesses() + ops);
                    }
                } else if state == SS_STATE_ACTIVE {
                    let cursor: u64 = self.mem.load_u64(off + SS_CURSOR);
                    found = match found {
                        Some(c) => if c < cursor {
                            Some(c)
                        } else {
                            Some(cursor)
                        },
                        None => Some(cursor),
                    };
                }
            }
            i = i + 1;
        }
        proof {
            lemma_pruned(m, dead@, MAX_SUBSCRIBER_SLOTS as nat);
        }
        found
    }

    /// The processes that hold subscriber slots, whose lives are to be looked
    /// at before a bounded bus is called full.
    pub fn subscriber_pids(&self) -> (r: Vec<u32>)
        requires
            self.wf(),
        ensures
            self.watermark is None ==> r@.len() == 0,
            self.watermark is Some ==> r@.len() == MAX_SUBSCRIBER_SLOTS,
            self.watermark is Some && self.mem.exclusive() ==> forall|i: int|
                0 <= i < MAX_SUBSCRIBER_SLOTS ==> #[trigger] r@[i] == sub_pid(
                    self.mem.image(),
                    i,
                ),
    {
        let mut r: Vec<u32> = Vec::new();
        if self.watermark.is_none() {
            return r;
        }
        proof {
            lemma_ring_slot(T::size(), self.ring_size as nat, true, 0);
        }
        let mut i: usize = 0;
        while i < MAX_SUBSCRIBER_SLOTS
            invariant
                ring_start(true) <= self.mem.image().len() <= usize::MAX,
                i <= MAX_SUBSCRIBER_SLOTS,
                r@.len() == i,
                self.mem.exclusive() ==> forall|j: int|
                    0 <= j < i ==> #[trigger] r@[j] == sub_pid(self.mem.image(), j),
            decreases MAX_SUBSCRIBER_SLOTS - i,
        {
            let off: usize = POD_BUS_HEADER_SIZE + i * SUBSCRIBER_SLOT_SIZE;
            r.push(self.mem.load_u32(off + SS_PID));
            i = i + 1;
        }
        r
    }

    /// Tells subscribers that the publisher is alive.
    pub fn heartbeat(&mut self, now: Option<u64>) -> (r: Result<(), Error>)
        requires
            old(self).wf(),
        ensures
            final(self).wf(),
            old(self).same_bus(final(self)),
            final(self).cached_slowest == old(self).cached_slowest,
            now is Some <==> r is Ok,
            r matches Err(e) ==> e is ClockError && *final(self) == *old(self),
            r is Ok ==> final(self).mem.accesses() == old(self).mem.accesses().push(
                (Access::Word64 { off: PH_HEARTBEAT_US as int, v: now->0 }),
            ),
            r is Ok && old(self).mem.exclusive() ==> final(self).mem.image() == memory::put64(
                old(self).mem.image(),
                PH_HEARTBEAT_US as int,
                now->0,
            ),
    {
        proof {
            lemma_ring_slot(T::size(), self.ring_size as nat, self.watermark is Some, 0);
        }
        match now {
            None => Err(Error::ClockError),
            Some(t) => {
                self.mem.store_u64(PH_HEARTBEAT_US, t);
                Ok(())
            },
        }
    }

    /// A new subscriber of this bus, on a handle of its own.
    pub fn subscriber(&self, mem: M, pid: u32, now: Option<u64>) -> (r: Result<
        BusSubscriber<T, M>,
        Error,
    >)
        requires
            T::size() <= usize::MAX,
        ensures
            connected_as(self.name@, mem, pid, now, r),
    {
        BusSubscriber::connect(self.name.as_str(), mem, pid, now)
    }

    /// Number of values published so far.
    pub fn published_count(&self) -> (r: u64)
        requires
            self.wf(),
        ensures
            self.mem.exclusive() ==> r == published(self.mem.image()),
    {
        proof {
            lemma_ring_slot(T::size(), self.ring_size as nat, self.watermark is Some, 0);
        }
        self.mem.load_u64(PH_WRITE_SEQ)
    }

    /// Number of ring slots.
    pub fn ring_size(&self) -> (r: usize)
        ensures
            r == self.ring_size,
    {
        self.ring_size
    }

    /// Whether the bus holds its publisher back.
    pub fn is_bounded(&self) -> (r: bool)
        ensures
            r == self.watermark is Some,
    {
        self.watermark.is_some()
    }
}

/// What creating a bus gives: the name and the alignment are checked first, and
/// the time must be known.
pub open spec fn created_as<T: Pod, M: SharedMemory>(
    name: Seq<char>,
    ring_size: usize,
    watermark: Option<u64>,
    mem: M,
    pid: u64,
    now: Option<u64>,
    r: Result<PodBus<T, M>, Error>,
) -> bool {
    if !layout::valid_segment_name(name) {
        r matches Err(Error::SegmentNameInvalid(n)) && n@ == name
    } else if T::align() > MAX_POD_ALIGN {
        r matches Err(Error::AlignmentError { align, max }) && align == T::align() && max
            == MAX_POD_ALIGN
    } else if now is None {
        r matches Err(e) && e is ClockError
    } else {
        &&& r matches Ok(bus)
        &&& bus.wf()
        &&& bus.ring_size == ring_size
        &&& bus.name@ == name
        &&& bus.watermark == watermark
        &&& bus.cached_slowest == 0
        &&& bus.mem.image().len() == mem.image().len()
        &&& bus.mem.exclusive() == mem.exclusive()
        &&& mem.exclusive() ==> bus.mem.image() == bus_created(
            mem.image(),
            T::size(),
            T::align(),
            ring_size as nat,
            watermark,
            pid,
            now->0,
        )
    }
}

/// Whether a process id is in a list.
fn contains_pid(list: &[u32], pid: u32) -> (r: bool)
    ensures
        r == list@.contains(pid),
{
    let mut i: usize = 0;
    while i < list.len()
        invariant
            i <= list@.len(),
            forall|j: int| 0 <= j < i ==> list@[j] != pid,
        decreases list@.len() - i,
    {
        if list[i] == pid {
            assert(list@[i as int] == pid);
            return true;
        }
        i = i + 1;
    }
    false
}

/// Offset of a ring slot, computed.
fn ring_slot_off<T: Pod>(bounded: bool, idx: usize) -> (r: usize)
    requires
        ring_slot(T::size(), bounded, idx as int) <= usize::MAX,
        slot_bytes(T::size()) <= usize::MAX,
        0 <= idx * slot_bytes(T::size()),
    ensures
        r == ring_slot(T::size(), bounded, idx as int),
{
    let s: usize = match slot_size::<T>() {
        Some(s) => s,
        None => 0,
    };
    let start: usize = if bounded {
        POD_BUS_HEADER_SIZE + MAX_SUBSCRIBER_SLOTS * SUBSCRIBER_SLOT_SIZE
    } else {
        POD_BUS_HEADER_SIZE
    };
    start + idx * s
}

/// What is wrong with a segment that is to be read as a bus.
#[derive(Clone, Copy, Debug, PartialEq, Eq, Structural)]
pub enum BusFault {
    /// It has no room for the header.
    TooSmall,
    /// It does not start with the magic bytes.
    Magic,
    /// It has another version.
    Version(u32),
    /// Its ring size is not a power of two.
    RingSize(u32),
    /// Its values have another size.
    ValueSize {
        /// The size in the header.
        found: u32,
        /// The size of the type.
        needed: usize,
    },
    /// Its values have another alignment.
    ValueAlign {
        /// The alignment in the header.
        found: u32,
        /// The alignment of the type.
        needed: usize,
    },
    /// It is shorter than its header says.
    Truncated {
        /// Its length.
        len: usize,
        /// The length that the header asks for; the largest number there is if
        /// it does not fit the address space.
        expected: usize,
    },
}

/// The first thing that is wrong with a segment.
pub open spec fn bus_fault(m: Seq<u8>, value_size: nat, value_align: nat) -> Option<BusFault> {
    let version = memory::u32_at(m, PH_VERSION as int);
    let ring_size = memory::u32_at(m, PH_RING_SIZE as int);
    let found_size = memory::u32_at(m, PH_VALUE_SIZE as int);
    let found_align = memory::u32_at(m, PH_VALUE_ALIGN as int);
    let expected = bus_bytes(value_size, ring_size as nat, version == POD_BUS_VERSION_V2);
    if m.len() < POD_BUS_HEADER_SIZE {
        Some(BusFault::TooSmall)
    } else if memory::bytes_at(m, PH_MAGIC as int, 8) != bus_magic() {
        Some(BusFault::Magic)
    } else if version != POD_BUS_VERSION_V1 && version != POD_BUS_VERSION_V2 {
        Some(BusFault::Version(version))
    } else if !layout::is_power_of_two(ring_size as int) {
        Some(BusFault::RingSize(ring_size))
    } else if found_size != value_size {
        Some(BusFault::ValueSize { found: found_size, needed: value_size as usize })
    } else if found_align != value_align {
        Some(BusFault::ValueAlign { found: found_align, needed: value_align as usize })
    } else if m.len() < expected {
        Some(
            BusFault::Truncated {
                len: m.len() as usize,
                expected: if expected > usize::MAX {
                    usize::MAX
                } else {
                    expected as usize
                },
            },
        )
    } else {
        None
    }
}

/// `e` reports the fault `f`.
pub open spec fn reports_bus_fault(e: Error, f: BusFault) -> bool {
    match f {
        BusFault::TooSmall => e matches Error::InvalidRegion(m) && m@
            == "PodBus region too small for header"@,
        BusFault::Magic => e matches Error::InvalidRegion(m) && m@
            == "invalid PodBus magic (expected XPOD_ZC)"@,
        BusFault::Version(n) => e matches Error::InvalidRegion(m) && m@
            == "unsupported PodBus version "@ + crate::text::decimal(n as nat)
            + ", expected 1 or 2"@,
        BusFault::RingSize(n) => e matches Error::InvalidRegion(m) && m@ == "PodBus ring_size "@
            + crate::text::decimal(n as nat) + " is not a power of two"@,
        BusFault::ValueSize { found, needed } => e matches Error::InvalidRegion(m) && m@
            == "PodBus value_size mismatch: file has "@ + crate::text::decimal(found as nat)
            + ", type needs "@ + crate::text::decimal(needed as nat),
        BusFault::ValueAlign { found, needed } => e matches Error::InvalidRegion(m) && m@
            == "PodBus value_align mismatch: file has "@ + crate::text::decimal(found as nat)
            + ", type needs "@ + crate::text::decimal(needed as nat),
        BusFault::Truncated { len, expected } => e matches Error::InvalidRegion(m) && m@
            == "PodBus region size "@ + crate::text::decimal(len as nat) + " < expected "@
            + crate::text::decimal(expected as nat),
    }
}

/// The error that reports a fault.
pub fn bus_error(f: BusFault) -> (r: Error)
    ensures
        reports_bus_fault(r, f),
{
    match f {
        BusFault::TooSmall => Error::InvalidRegion(text("PodBus region too small for header")),
        BusFault::Magic => Error::InvalidRegion(text("invalid PodBus magic (expected XPOD_ZC)")),
        BusFault::Version(n) => Error::InvalidRegion(
            add_text(
                add_number(text("unsupported PodBus version "), n as u64),
                ", expected 1 or 2",
            ),
        ),
        BusFault::RingSize(n) => Error::InvalidRegion(
            add_text(add_number(text("PodBus ring_size "), n as u64), " is not a power of two"),
        ),
        BusFault::ValueSize { found, needed } => {
            let s: String = add_number(
                text("PodBus value_size mismatch: file has "),
                found as u64,
            );
            Error::InvalidRegion(add_number(add_text(s, ", type needs "), needed as u64))
        },
        BusFault::ValueAlign { found, needed } => {
            let s: String = add_number(
                text("PodBus value_align mismatch: file has "),
                found as u64,
            );
            Error::InvalidRegion(add_number(add_text(s, ", type needs "), needed as u64))
        },
        BusFault::Truncated { len, expected } => {
            let s: String = add_number(text("PodBus region size "), len as u64);
            Error::InvalidRegion(add_number(add_text(s, " < expected "), expected as u64))
        },
    }
}

/// Reads the version and the ring size of a bus of values of type `T`, or says
/// what is wrong with the segment.
pub fn read_bus_header<T: Pod, M: SharedMemory>(mem: &M) -> (r: Result<(bool, usize), BusFault>)
    requires
        T::size() <= usize::MAX,
    ensures
        r matches Ok((bounded, ring_size)) ==> {
            &&& layout::is_power_of_two(ring_size as int)
            &&& ring_size <= u32::MAX
            &&& bus_bytes(T::size(), ring_size as nat, bounded) <= mem.image().len() <= usize::MAX
        },
        mem.exclusive() ==> match bus_fault(mem.image(), T::size(), T::align()) {
            Some(f) => r == Err::<(bool, usize), BusFault>(f),
            None => r matches Ok((bounded, ring_size)) && bounded == (memory::u32_at(
                mem.image(),
                PH_VERSION as int,
            ) == POD_BUS_VERSION_V2) && ring_size == memory::u32_at(
                mem.image(),
                PH_RING_SIZE as int,
            ),
        },
{
    let len: usize = mem.size();
    if len < POD_BUS_HEADER_SIZE {
        return Err(BusFault::TooSmall);
    }
    let found: Vec<u8> = mem.read(PH_MAGIC, 8);
    let magic: Vec<u8> = bus_magic_bytes();
    if !memory::same_bytes(found.as_slice(), magic.as_slice()) {
        return Err(BusFault::Magic);
    }
    let version: u32 = mem.load_u32(PH_VERSION);
    if version != POD_BUS_VERSION_V1 && version != POD_BUS_VERSION_V2 {
        return Err(BusFault::Version(version));
    }
    let bounded: bool = version == POD_BUS_VERSION_V2;
    let ring_size: u32 = mem.load_u32(PH_RING_SIZE);
    let value_size: u32 = mem.load_u32(PH_VALUE_SIZE);
    let value_align: u32 = mem.load_u32(PH_VALUE_ALIGN);
    if !power_of_two(ring_size) {
        return Err(BusFault::RingSize(ring_size));
    }
    let needed: usize = T::size_of();
    if value_size as usize != needed {
        return Err(BusFault::ValueSize { found: value_size, needed });
    }
    let needed: usize = T::align_of();
    if value_align as usize != needed {
        return Err(BusFault::ValueAlign { found: value_align, needed });
    }
    let mark: Option<u64> = if bounded {
        Some(0)
    } else {
        None
    };
    let expected: usize = match bus_size::<T>(ring_size as usize, mark) {
        Some(n) => n,
        None => usize::MAX,
    };
    proof {
        let total = bus_bytes(T::size(), ring_size as nat, bounded);
        assert(expected == (if total > usize::MAX {
            usize::MAX as int
        } else {
            total
        }));
    }
    if len < expected || bus_size::<T>(ring_size as usize, mark).is_none() {
        return Err(BusFault::Truncated { len, expected });
    }
    Ok((bounded, ring_size as usize))
}

/// A subscriber of a bus.
pub struct BusSubscriber<T: Pod, M: SharedMemory> {
    /// The segment.
    pub mem: M,
    /// Number of ring slots.
    pub ring_size: usize,
    /// The bus holds its publisher back.
    pub bounded: bool,
    /// Number of the value to be read next.
    pub cursor: u64,
    /// Number of values missed so far, wrapped around.
    pub total_lagged: u64,
    /// The subscriber slot on a bounded bus.
    pub slot_index: Option<usize>,
    /// The type of the values.
    pub marker: PhantomData<T>,
}

/// The first free subscriber slot, from `from` on.
pub open spec fn free_sub(m: Seq<u8>, from: int) -> Option<int>
    decreases MAX_SUBSCRIBER_SLOTS - from,
{
    if from >= MAX_SUBSCRIBER_SLOTS {
        None
    } else if sub_state(m, from) == SS_STATE_FREE {
        Some(from)
    } else {
        free_sub(m, from + 1)
    }
}

/// The segment with a subscriber in a slot.
pub open spec fn with_sub(m: Seq<u8>, i: int, pid: u32, cursor: u64) -> Seq<u8> {
    let m = memory::put32(m, sub_slot(i) + SS_PID, pid);
    let m = memory::put64(m, sub_slot(i) + SS_CURSOR, cursor);
    memory::put32(m, sub_slot(i) + SS_ACTIVE, SS_STATE_ACTIVE)
}

/// What there is, if all went well.
pub open spec fn ok_of(r: Result<usize, Error>) -> Option<usize> {
    match r {
        Ok(i) => Some(i),
        Err(_) => None,
    }
}

/// Takes a free subscriber slot.
fn claim_subscriber_slot<M: SharedMemory>(mem: &mut M, cursor: u64, pid: u32) -> (r: Result<
    usize,
    Error,
>)
    requires
        ring_start(true) <= old(mem).image().len() <= usize::MAX,
    ensures
        final(mem).image().len() == old(mem).image().len(),
        final(mem).exclusive() == old(mem).exclusive(),
        final(mem).contention() <= old(mem).contention(),
        r matches Ok(i) ==> i < MAX_SUBSCRIBER_SLOTS,
        r matches Err(e) ==> e is PoolExhausted,
        exists|ops: Accesses|
            {
                &&& final(mem).accesses() == old(mem).accesses() + ops
                &&& #[trigger] takes_sub(ops, ok_of(r), pid, cursor)
            },
        old(mem).exclusive() ==> match free_sub(old(mem).image(), 0) {
            Some(i) => {
                &&& r matches Ok(j)
                &&& i == j
                &&& final(mem).image() == with_sub(old(mem).image(), i, pid, cursor)
            },
            None => r is Err && final(mem).image() == old(mem).image(),
        },
{
    let ghost mut ops: Accesses = Seq::empty();
    assert(old(mem).accesses() + ops =~= old(mem).accesses());
    let mut i: usize = 0;
    while i < MAX_SUBSCRIBER_SLOTS
        invariant
            ring_start(true) <= mem.image().len() <= usize::MAX,
            mem.image().len() == old(mem).image().len(),
            mem.exclusive() == old(mem).exclusive(),
            mem.contention() <= old(mem).contention(),
            i <= MAX_SUBSCRIBER_SLOTS,
            mem.accesses() == old(mem).accesses() + ops,
            ops.len() == i,
            forall|k: int| 0 <= k < i ==> tries_sub(#[trigger] ops[k], k, false),
            mem.exclusive() ==> mem.image() == old(mem).image() && free_sub(
                mem.image(),
                i as int,
            ) == free_sub(old(mem).image(), 0),
        decreases MAX_SUBSCRIBER_SLOTS - i,
    {
        let off: usize = POD_BUS_HEADER_SIZE + i * SUBSCRIBER_SLOT_SIZE;
        let ghost m = mem.image();
        let swapped: Result<u32, u32> = mem.compare_exchange_u32(
            off + SS_ACTIVE,
            SS_STATE_FREE,
            SS_STATE_CLAIMING,
        );
        proof {
            ops = ops.push(
                Access::Exchange32 {
                    off: sub_slot(i as int) + SS_ACTIVE,
                    current: SS_STATE_FREE,
                    new: SS_STATE_CLAIMING,
                    found: swapped,
                },
            );
            assert(mem.accesses() =~= old(mem).accesses() + ops);
        }
        if swapped.is_ok() {
            mem.store_u32(off + SS_PID, pid);
            mem.store_u64(off + SS_CURSOR, cursor);
            mem.store_u32(off + SS_ACTIVE, SS_STATE_ACTIVE);
            proof {
                let at = sub_slot(i as int);
                let all = ops.push(Access::Word32 { off: at + SS_PID, v: pid }).push(
                    Access::Word64 { off: at + SS_CURSOR, v: cursor },
                ).push(Access::Word32 { off: at + SS_ACTIVE, v: SS_STATE_ACTIVE });
                assert(mem.accesses() =~= old(mem).accesses() + all);
                assert(takes_sub(all, Some(i), pid, cursor));
                if mem.exclusive() {
                    assert(mem.image() =~= with_sub(m, i as int, pid, cursor));
                }
            }
            return Ok(i);
        }
        i = i + 1;
    }
    assert(takes_sub(ops, None, pid, cursor));
    Err(Error::PoolExhausted)
}

/// What a subscriber did to join a bus: on a bounded one it took its slot.
pub open spec fn joined<T: Pod, M: SharedMemory>(mem: M, pid: u32, s: BusSubscriber<T, M>) -> bool {
    if s.bounded {
        exists|ops: Accesses|
            {
                &&& s.mem.accesses() == mem.accesses() + ops
                &&& #[trigger] takes_sub(ops, s.slot_index, pid, s.cursor)
            }
    } else {
        s.mem.accesses() == mem.accesses()
    }
}

/// What connecting to a bus gives.
pub open spec fn connected_as<T: Pod, M: SharedMemory>(
    name: Seq<char>,
    mem: M,
    pid: u32,
    now: Option<u64>,
    r: Result<BusSubscriber<T, M>, Error>,
) -> bool {
    &&& r matches Ok(s) ==> s.wf() && s.total_lagged == 0 && s.mem.image().len()
        == mem.image().len() && s.mem.exclusive() == mem.exclusive() && joined(mem, pid, s)
    &&& if !layout::valid_segment_name(name) {
        r matches Err(Error::SegmentNameInvalid(n)) && n@ == name
    } else if T::align() > MAX_POD_ALIGN {
        r matches Err(Error::AlignmentError { align, max }) && align == T::align() && max
            == MAX_POD_ALIGN
    } else {
        mem.exclusive() ==> {
            let m = mem.image();
            let beat = memory::u64_at(m, PH_HEARTBEAT_US as int);
            let bounded = memory::u32_at(m, PH_VERSION as int) == POD_BUS_VERSION_V2;
            match bus_fault(m, T::size(), T::align()) {
                Some(f) => r matches Err(e) && reports_bus_fault(e, f),
                None => if now is None {
                    r matches Err(e) && e is ClockError
                } else if now->0 - beat > HEARTBEAT_STALE_US {
                    r matches Err(e) && e is PublisherDead
                } else if bounded && free_sub(m, 0) is None {
                    r matches Err(e) && e is PoolExhausted
                } else {
                    &&& r matches Ok(s)
                    &&& s.ring_size == memory::u32_at(m, PH_RING_SIZE as int)
                    &&& s.bounded == bounded
                    &&& s.cursor == published(m)
                    &&& if bounded {
                        &&& s.slot_index matches Some(i)
                        &&& i == free_sub(m, 0)->0
                        &&& s.mem.image() == with_sub(m, i as int, pid, s.cursor)
                    } else {
                        s.slot_index is None && s.mem.image() == m
                    }
                },
            }
        }
    }
}

/// A subscriber of a bounded bus tells how far it has read.
pub open spec fn position_stores(slot: Option<usize>, cursor: u64) -> Accesses {
    match slot {
        Some(i) => seq![
            Access::Word64 { off: sub_slot(i as int) + SS_CURSOR, v: cursor },
        ],
        None => Seq::empty(),
    }
}

/// What a subscriber saw when it looked for its next value: how many values were
/// published, and, if it found any that it had not read, the stamp of the slot,
/// the bytes of the value, and the stamp once more.
pub struct Sight {
    /// Number of values published.
    pub head: u64,
    /// The stamp before.
    pub stamp: u64,
    /// The bytes of the value.
    pub value: Seq<u8>,
    /// The stamp after.
    pub after: u64,
}

/// What a reader makes of the stamps that it saw before and after it read a
/// slot.
#[derive(Clone, Copy, Debug, PartialEq, Eq, Structural)]
pub enum Verdict {
    /// The value was being written, was never written, or changed meanwhile:
    /// there is nothing to take.
    Nothing,
    /// The value is the one that was looked for.
    Ready,
    /// The slot holds this other value, complete: the reader goes on behind it.
    Other(u64),
}

/// What a reader that looks for value `cursor` makes of two stamps.
pub open spec fn verdict(cursor: u64, before: u64, after: u64) -> Verdict {
    if before % 2 != 0 || before == 0 || after != before {
        Verdict::Nothing
    } else if before == done_stamp(cursor) {
        Verdict::Ready
    } else {
        Verdict::Other((before / 2 - 1) as u64)
    }
}

/// Judges the stamps that a reader saw.
pub fn judge(cursor: u64, before: u64, after: u64) -> (r: Verdict)
    ensures
        r == verdict(cursor, before, after),
{
    if before % 2 != 0 || before == 0 || after != before {
        Verdict::Nothing
    } else if before == stamp_done(cursor) {
        Verdict::Ready
    } else {
        Verdict::Other(before / 2 - 1)
    }
}

impl<T: Pod, M: SharedMemory> BusSubscriber<T, M> {
    /// The segment has room for the bus.
    pub open spec fn wf(&self) -> bool {
        &&& layout::is_power_of_two(self.ring_size as int)
        &&& 0 < self.ring_size <= u32::MAX
        &&& T::align() <= MAX_POD_ALIGN
        &&& bus_bytes(T::size(), self.ring_size as nat, self.bounded) <= self.mem.image().len()
            <= usize::MAX
        &&& self.slot_index matches Some(i) ==> i < MAX_SUBSCRIBER_SLOTS
        &&& self.slot_index is Some <==> self.bounded
    }

    /// Connects to an existing bus. The subscriber starts behind the values
    /// published so far; on a bounded bus it takes a subscriber slot.
    pub fn connect(name: &str, mem: M, pid: u32, now: Option<u64>) -> (r: Result<
        BusSubscriber<T, M>,
        Error,
    >)
        requires
            T::size() <= usize::MAX,
        ensures
            connected_as(name@, mem, pid, now, r),
    {
        if let Err(e) = validate_name(name) {
            return Err(e);
        }
        if let Err(e) = check_alignment::<T>() {
            return Err(e);
        }
        let (bounded, ring_size) = match read_bus_header::<T, M>(&mem) {
            Err(f) => {
                return Err(bus_error(f));
            },
            Ok(x) => x,
        };
        proof {
            lemma_pow2_positive(ring_size as int);
            lemma_ring_slot(T::size(), ring_size as nat, bounded, 0);
        }
        let beat: u64 = mem.load_u64(PH_HEARTBEAT_US);
        match now {
            None => {
                return Err(Error::ClockError);
            },
            Some(t) => {
                if t.saturating_sub(beat) > HEARTBEAT_STALE_US {
                    return Err(Error::PublisherDead);
                }
            },
        }
        let cursor: u64 = mem.load_u64(PH_WRITE_SEQ);
        let ghost first = mem;
        let ghost mut ops: Accesses = Seq::empty();
        let mut mem: M = mem;
        let mut slot_index: Option<usize> = None;
        if bounded {
            match claim_subscriber_slot(&mut mem, cursor, pid) {
                Err(e) => {
                    return Err(e);
                },
                Ok(i) => {
                    slot_index = Some(i);
                    proof {
                        ops = choose|ops: Accesses|
                            mem.accesses() == first.accesses() + ops && #[trigger] takes_sub(
                                ops,
                                Some(i),
                                pid,
                                cursor,
                            );
                    }
                },
            }
        }
        let s: BusSubscriber<T, M> = BusSubscriber {
            mem,
            ring_size,
            bounded,
            cursor,
            total_lagged: 0,
            slot_index,
            marker: PhantomData,
        };
        assert(bounded ==> takes_sub(ops, s.slot_index, pid, s.cursor));
        assert(joined(first, pid, s));
        Ok(s)
    }

    /// `other` is the same subscriber at a later moment.
    pub open spec fn same_subscriber(&self, other: &Self) -> bool {
        &&& other.ring_size == self.ring_size
        &&& other.bounded == self.bounded
        &&& other.slot_index == self.slot_index
        &&& other.mem.image().len() == self.mem.image().len()
        &&& other.mem.exclusive() == self.mem.exclusive()
        &&& other.mem.contention() <= self.mem.contention()
    }

    /// Where the subscriber reads next: at its cursor, but not further back than
    /// the ring reaches.
    pub open spec fn position(&self) -> u64 {
        let head = published(self.mem.image());
        if head - self.cursor > self.ring_size {
            (head - self.ring_size) as u64
        } else {
            self.cursor
        }
    }

    /// The stamp of the slot of a value.
    pub open spec fn stamp(&self, seq: u64) -> u64 {
        memory::u64_at(
            self.mem.image(),
            ring_slot(T::size(), self.bounded, seq as int % self.ring_size as int),
        )
    }

    /// The bytes of the value in the slot of a value.
    pub open spec fn value_bytes(&self, seq: u64) -> Seq<u8> {
        memory::bytes_at(
            self.mem.image(),
            ring_slot(T::size(), self.bounded, seq as int % self.ring_size as int) + 8,
            T::size() as int,
        )
    }

    /// Where the subscriber reads next when `head` values are published.
    pub open spec fn position_at(&self, head: u64) -> u64 {
        if head - self.cursor > self.ring_size {
            (head - self.ring_size) as u64
        } else {
            self.cursor
        }
    }

    /// What a subscriber does that looks for its next value and sees `seen`.
    pub open spec fn reads(&self, ops: Accesses, seen: Sight) -> bool {
        let at = self.position_at(seen.head);
        let off = ring_slot(T::size(), self.bounded, at as int % self.ring_size as int);
        let first = seq![Access::Look64 { off: PH_WRITE_SEQ as int, found: seen.head }];
        if self.cursor >= seen.head {
            ops == first
        } else if verdict(at, seen.stamp, seen.after) == Verdict::Ready {
            ops == first + slot_looks(off, seen.stamp, seen.value, seen.after) + position_stores(
                self.slot_index,
                (at + 1) as u64,
            )
        } else {
            ops == first + slot_looks(off, seen.stamp, seen.value, seen.after)
        }
    }

    /// What comes of a look for the next value at which the subscriber sees
    /// `seen`: the value comes only if the stamps say that it is the one that was
    /// looked for, and complete.
    pub open spec fn comes_of(&self, after: &Self, r: Option<T>, seen: Sight) -> bool {
        let at = self.position_at(seen.head);
        let lag = memory::wrapping_sum_u64(self.total_lagged, (at - self.cursor) as u64);
        if self.cursor >= seen.head {
            &&& r is None
            &&& after.cursor == self.cursor
            &&& after.total_lagged == self.total_lagged
        } else {
            match verdict(at, seen.stamp, seen.after) {
                Verdict::Nothing => {
                    &&& r is None
                    &&& after.cursor == at
                    &&& after.total_lagged == lag
                },
                Verdict::Other(seq) => {
                    &&& r is None
                    &&& after.cursor == seq + 1
                    &&& after.total_lagged == memory::wrapping_sum_u64(
                        lag,
                        wrapping_difference_u64((seq + 1) as u64, at),
                    )
                },
                Verdict::Ready => {
                    &&& r matches Some(v)
                    &&& v.encode() == seen.value
                    &&& after.cursor == at + 1
                    &&& after.total_lagged == lag
                },
            }
        }
    }

    /// Reads the next value, if it is there. A subscriber that fell behind goes
    /// on with the oldest value that the ring still holds; what it missed is
    /// counted.
    pub fn try_recv(&mut self) -> (r: Option<T>)
        requires
            old(self).wf(),
        ensures
            final(self).wf(),
            old(self).same_subscriber(final(self)),
            exists|ops: Accesses, seen: Sight|
                {
                    &&& final(self).mem.accesses() == old(self).mem.accesses() + ops
                    &&& #[trigger] old(self).reads(ops, seen)
                    &&& old(self).comes_of(final(self), r, seen)
                },
            old(self).mem.exclusive() ==> {
                let m = old(self).mem.image();
                let at = old(self).position();
                let lag = memory::wrapping_sum_u64(
                    old(self).total_lagged,
                    (at - old(self).cursor) as u64,
                );
                let stamp = old(self).stamp(at);
                if old(self).cursor >= published(m) {
                    &&& r is None
                    &&& final(self).cursor == old(self).cursor
                    &&& final(self).total_lagged == old(self).total_lagged
                    &&& final(self).mem.image() == m
                } else {
                    match verdict(at, stamp, stamp) {
                        Verdict::Nothing => {
                            &&& r is None
                            &&& final(self).cursor == at
                            &&& final(self).total_lagged == lag
                            &&& final(self).mem.image() == m
                        },
                        Verdict::Other(seq) => {
                            &&& r is None
                            &&& final(self).cursor == seq + 1
                            &&& final(self).total_lagged == memory::wrapping_sum_u64(
                                lag,
                                wrapping_difference_u64((seq + 1) as u64, at),
                            )
                            &&& final(self).mem.image() == m
                        },
                        Verdict::Ready => {
                            &&& r matches Some(v)
                            &&& v.encode() == old(self).value_bytes(at)
                            &&& final(self).cursor == at + 1
                            &&& final(self).total_lagged == lag
                            &&& final(self).mem.image() == match old(self).slot_index {
                                Some(i) => memory::put64(
                                    m,
                                    sub_slot(i as int) + SS_CURSOR,
                                    (at + 1) as u64,
                                ),
                                None => m,
                            }
                        },
                    }
                }
            },
    {
        proof {
            lemma_ring_slot(T::size(), self.ring_size as nat, self.bounded, 0);
        }
        let ghost first = self.mem.accesses();
        let head: u64 = self.mem.look_u64(PH_WRITE_SEQ);
        let ghost looked = seq![Access::Look64 { off: PH_WRITE_SEQ as int, found: head }];
        assert(self.mem.accesses() =~= first + looked);
        if self.cursor >= head {
            proof {
                let seen = Sight { head, stamp: 0, value: Seq::empty(), after: 0 };
                assert(old(self).reads(looked, seen));
            }
            return None;
        }
        let ring_size: u64 = self.ring_size as u64;
        if head - self.cursor > ring_size {
            let skipped: u64 = head - ring_size - self.cursor;
            self.total_lagged = self.total_lagged.wrapping_add(skipped);
            self.cursor = head - ring_size;
        }
        let idx: usize = (self.cursor % ring_size) as usize;
        let slot: (Slot<T>, u64) = self.read_slot(idx);
        let ghost seen = Sight {
            head,
            stamp: slot.0.stamp,
            value: slot.0.data.encode(),
            after: slot.1,
        };
        let ghost ops = looked + slot_looks(
            ring_slot(T::size(), self.bounded, idx as int),
            seen.stamp,
            seen.value,
            seen.after,
        );
        assert(self.mem.accesses() =~= first + ops);
        match judge(self.cursor, slot.0.stamp, slot.1) {
            Verdict::Nothing => {
                assert(old(self).reads(ops, seen));
                None
            },
            Verdict::Other(seq) => {
                assert(old(self).reads(ops, seen));
                let skipped: u64 = (seq + 1).wrapping_sub(self.cursor);
                self.total_lagged = self.total_lagged.wrapping_add(skipped);
                self.cursor = seq + 1;
                None
            },
            Verdict::Ready => {
                self.cursor = self.cursor + 1;
                self.update_shm_cursor();
                proof {
                    let all = ops + position_stores(self.slot_index, self.cursor);
                    assert(old(self).reads(all, seen));
                    assert(self.mem.accesses() =~= first + all);
                }
                Some(slot.0.data)
            },
        }
    }

    /// Reads a slot, and its stamp once more behind it.
    fn read_slot(&mut self, idx: usize) -> (r: (Slot<T>, u64))
        requires
            old(self).wf(),
            idx < old(self).ring_size,
        ensures
            final(self).wf(),
            old(self).same_subscriber(final(self)),
            final(self).cursor == old(self).cursor,
            final(self).total_lagged == old(self).total_lagged,
            final(self).mem.accesses() == old(self).mem.accesses() + slot_looks(
                ring_slot(T::size(), old(self).bounded, idx as int),
                r.0.stamp,
                r.0.data.encode(),
                r.1,
            ),
            old(self).mem.exclusive() ==> {
                let off = ring_slot(T::size(), old(self).bounded, idx as int);
                &&& r.0.stamp == memory::u64_at(old(self).mem.image(), off)
                &&& r.1 == r.0.stamp
                &&& r.0.data.encode() == memory::bytes_at(
                    old(self).mem.image(),
                    off + 8,
                    T::size() as int,
                )
                &&& final(self).mem.image() == old(self).mem.image()
            },
    {
        proof {
            lemma_ring_slot(T::size(), self.ring_size as nat, self.bounded, idx as int);
        }
        let off: usize = ring_slot_off::<T>(self.bounded, idx);
        let stamp: u64 = self.mem.look_u64(off);
        let b: Vec<u8> = self.mem.copy(off + 8, T::size_of());
        let data: T = T::from_bytes(b.as_slice());
        let after: u64 = self.mem.look_u64(off);
        assert(self.mem.accesses() =~= old(self).mem.accesses() + slot_looks(
            off as int,
            stamp,
            b@,
            after,
        ));
        (Slot { stamp, data }, after)
    }

    /// Number of values missed so far.
    pub fn total_lagged(&self) -> (r: u64)
        ensures
            r == self.total_lagged,
    {
        self.total_lagged
    }

    /// Number of values published so far.
    pub fn published_count(&self) -> (r: u64)
        requires
            self.wf(),
        ensures
            self.mem.exclusive() ==> r == published(self.mem.image()),
    {
        proof {
            lemma_ring_slot(T::size(), self.ring_size as nat, self.bounded, 0);
        }
        self.mem.load_u64(PH_WRITE_SEQ)
    }

    /// Number of ring slots.
    pub fn ring_size(&self) -> (r: usize)
        ensures
            r == self.ring_size,
    {
        self.ring_size
    }

    /// Tells the publisher of a bounded bus how far this subscriber has read.
    fn update_shm_cursor(&mut self)
        requires
            old(self).wf(),
        ensures
            final(self).wf(),
            old(self).same_subscriber(final(self)),
            final(self).cursor == old(self).cursor,
            final(self).total_lagged == old(self).total_lagged,
            final(self).mem.accesses() == old(self).mem.accesses() + position_stores(
                old(self).slot_index,
                old(self).cursor,
            ),
            old(self).mem.exclusive() ==> final(self).mem.image() == match old(self).slot_index {
                Some(i) => memory::put64(
                    old(self).mem.image(),
                    sub_slot(i as int) + SS_CURSOR,
                    old(self).cursor,
                ),
                None => old(self).mem.image(),
            },
    {
        if let Some(i) = self.slot_index {
            proof {
                lemma_ring_slot(T::size(), self.ring_size as nat, self.bounded, 0);
            }
            self.mem.store_u64(
                POD_BUS_HEADER_SIZE + i * SUBSCRIBER_SLOT_SIZE + SS_CURSOR,
                self.cursor,
            );
        }
        assert(self.mem.accesses() =~= old(self).mem.accesses() + position_stores(
            old(self).slot_index,
            old(self).cursor,
        ));
    }

    /// Leaves the bus: on a bounded bus the subscriber slot becomes free.
    pub fn close(self) -> (mem: M)
        requires
            self.wf(),
        ensures
            mem.image().len() == self.mem.image().len(),
            mem.exclusive() == self.mem.exclusive(),
            mem.accesses() == match self.slot_index {
                Some(i) => self.mem.accesses().push(
                    Access::Word32 { off: sub_slot(i as int) + SS_ACTIVE, v: SS_STATE_FREE },
                ),
                None => self.mem.accesses(),
            },
            self.mem.exclusive() ==> mem.image() == match self.slot_index {
                Some(i) => memory::put32(
                    self.mem.image(),
                    sub_slot(i as int) + SS_ACTIVE,
                    SS_STATE_FREE,
                ),
                None => self.mem.image(),
            },
    {
        proof {
            lemma_ring_slot(T::size(), self.ring_size as nat, self.bounded, 0);
        }
        let mut mem: M = self.mem;
        if let Some(i) = self.slot_index {
            mem.store_u32(
                POD_BUS_HEADER_SIZE + i * SUBSCRIBER_SLOT_SIZE + SS_ACTIVE,
                SS_STATE_FREE,
            );
        }
        mem
    }
}

/// The difference of two 64-bit values, wrapped around.
pub open spec fn wrapping_difference_u64(a: u64, b: u64) -> u64 {
    if a < b {
        (a - b + 0x1_0000_0000_0000_0000) as u64
    } else {
        (a - b) as u64
    }
}

/// A power of two is positive.
pub proof fn lemma_pow2_positive(n: int)
    requires
        layout::is_power_of_two(n),
    ensures
        n >= 1,
{
}

} // verus!
