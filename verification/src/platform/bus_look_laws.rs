//! Where a subscriber of a bus joins, where it looks for its next value, and what comes of it.

use crate::memory::{self, SharedMemory};
use crate::platform::bus_history::{count, state};
use crate::platform::pod_bus::{self, BusSubscriber};
use crate::pod::Pod;
use vstd::prelude::*;

verus! {

/// A subscriber that joins takes the first slot that is free.
pub proof fn law_first_free_slot(m: Seq<u8>, from: int)
    requires
        0 <= from,
    ensures
        match pod_bus::free_sub(m, from) {
            Some(i) => {
                &&& from <= i < 64
                &&& state(m, i) == 0
                &&& forall|k: int| from <= k < i ==> #[trigger] state(m, k) != 0
            },
            None => forall|k: int| from <= k < 64 ==> #[trigger] state(m, k) != 0,
        },
    decreases 64 - from,
{
    if from < 64 {
        law_first_free_slot(m, from + 1);
        assert(pod_bus::sub_state(m, from) == state(m, from));
    }
}

/// A subscriber looks for the value behind the last one that it read, or, if the ring has gone
/// round past that, for the oldest one that the ring can hold; of the slot it looks at the
/// stamp first, and the value is behind that.
pub proof fn law_where_a_subscriber_looks<T: Pod, M: SharedMemory>(
    s: BusSubscriber<T, M>,
    head: u64,
    seq: u64,
)
    requires
        s.ring_size > 0,
        s.cursor <= head,
    ensures
        head <= s.cursor + s.ring_size ==> s.position_at(head) == s.cursor,
        head > s.cursor + s.ring_size ==> s.position_at(head) == head - s.ring_size,
        s.position() == s.position_at(count(s.mem.image())),
        ({
            let first = if s.bounded {
                1088int
            } else {
                64
            };
            let slot = first + (seq as int % s.ring_size as int) * pod_bus::slot_bytes(T::size());
            &&& s.stamp(seq) == memory::u64_at(s.mem.image(), slot)
            &&& s.value_bytes(seq) == s.mem.image().subrange(slot + 8, slot + 8 + T::size())
        }),
{
}

/// What comes of a look: nothing, and no step, if all was read; the value that was seen, and a
/// step behind it, if its stamp was there before and after; and otherwise nothing, and a step
/// behind the value whose stamp was there, if there was one. What was passed over is counted.
pub proof fn law_what_comes_of_a_look<T: Pod, M: SharedMemory>(
    before: BusSubscriber<T, M>,
    after: BusSubscriber<T, M>,
    r: Option<T>,
    seen: pod_bus::Sight,
)
    requires
        before.comes_of(&after, r, seen),
    ensures
        before.cursor >= seen.head ==> r is None && after.cursor == before.cursor
            && after.total_lagged == before.total_lagged,
        ({
            let at = before.position_at(seen.head);
            let good = seen.stamp == seen.after && seen.stamp == 2 * at + 2;
            &&& before.cursor < seen.head && good && at < 0x7FFF_FFFF_FFFF_FFFF ==> {
                &&& r matches Some(v) && v.encode() == seen.value
                &&& after.cursor == at + 1
                &&& after.total_lagged == (before.total_lagged + (at - before.cursor))
                    % 0x1_0000_0000_0000_0000
            }
            &&& r is Some && at < 0x7FFF_FFFF_FFFF_FFFF ==> good && before.cursor < seen.head
            &&& before.cursor < seen.head && at < 0x7FFF_FFFF_FFFF_FFFF && !good && seen.stamp
                == seen.after && seen.stamp > 0 && seen.stamp % 2 == 0 ==> r is None && 2
                * after.cursor == seen.stamp
            &&& before.cursor < seen.head && (seen.stamp != seen.after || seen.stamp % 2 == 1
                || seen.stamp == 0) ==> r is None && after.cursor == at
        }),
{
}

} // verus!
