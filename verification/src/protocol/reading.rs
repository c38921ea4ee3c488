//! How a reader takes a sample that a publisher may replace meanwhile.
//!
//! A place in a ring has a sequence number, which the publisher takes away
//! before it changes what the place says, and sets when it is done. A reader
//! looks at the number, at the rest, and at the number once more: only if it is
//! the wanted one both times, what it saw belongs together.

use crate::memory::{self, Access, Accesses};
use crate::protocol::pool::PoolLayout;
use vstd::prelude::*;

verus! {

/// What a reader saw of a ring entry: its number, the block and the length that
/// it names, and its number once more.
#[derive(Clone, Copy, Debug, PartialEq, Eq, Structural)]
pub struct EntryLook {
    /// The number before.
    pub before: u64,
    /// The block.
    pub block: u32,
    /// The length of the data.
    pub len: u32,
    /// The number after.
    pub after: u64,
}

/// The length of the sample `wanted`, as a reader saw it between two looks at
/// the number of its place. `None` if the place had another number, or the length
/// is more than there is room for.
pub open spec fn length_seen(
    wanted: u64,
    before: u64,
    len: u32,
    after: u64,
    capacity: int,
) -> Option<u32> {
    if before == wanted && after == wanted && len <= capacity {
        Some(len)
    } else {
        None
    }
}

/// Judges what a reader saw of a place whose data lies behind its number.
pub fn judge_length(wanted: u64, before: u64, len: u32, after: u64, capacity: usize) -> (r: Option<
    u32,
>)
    ensures
        r == length_seen(wanted, before, len, after, capacity as int),
{
    if before == wanted && after == wanted && len as usize <= capacity {
        Some(len)
    } else {
        None
    }
}

/// The block and the length of the sample `wanted`, as a reader saw them. `None`
/// if the entry had another number, or names a block that is not one of the
/// first `blocks`, or a length that a block has no room for.
pub open spec fn entry_seen(wanted: u64, look: EntryLook, blocks: u32, capacity: int) -> Option<
    (u32, u32),
> {
    if length_seen(wanted, look.before, look.len, look.after, capacity) is Some && look.block
        < blocks {
        Some((look.block, look.len))
    } else {
        None
    }
}

/// Judges what a reader saw of a ring entry.
pub fn judge_entry(wanted: u64, look: EntryLook, blocks: u32, capacity: usize) -> (r: Option<
    (u32, u32),
>)
    ensures
        r == entry_seen(wanted, look, blocks, capacity as int),
{
    match judge_length(wanted, look.before, look.len, look.after, capacity) {
        Some(len) => if look.block < blocks {
            Some((look.block, len))
        } else {
            None
        },
        None => None,
    }
}

/// Where a ring entry lies, and the blocks that it may name.
pub struct EntryPlace {
    /// Offset of the number.
    pub seq: int,
    /// Offset of the block.
    pub block: int,
    /// Offset of the length.
    pub len: int,
    /// The blocks.
    pub pool: PoolLayout,
    /// Offset of the reference count in a block.
    pub refcount: int,
}

impl EntryPlace {
    /// Offset of the reference count of a block.
    pub open spec fn count(self, block: u32) -> int {
        self.pool.block(block as int) + self.refcount
    }

    /// The looks of a reader that finds the wanted number, up to the length.
    pub open spec fn looks(self, wanted: u64, block: u32, len: u32) -> Accesses {
        seq![
            Access::Look64 { off: self.seq, found: wanted },
            Access::Look32 { off: self.block, found: block },
            Access::Look32 { off: self.len, found: len },
        ]
    }

    /// A reader took the sample `wanted`: it found its number, saw what the entry
    /// names, took a reference to the block, and found the number still there.
    pub open spec fn took(self, wanted: u64, ops: Accesses, block: u32, len: u32) -> bool {
        exists|tries: Accesses|
            {
                &&& ops == self.looks(wanted, block, len) + tries + seq![
                    Access::Look64 { off: self.seq, found: wanted },
                ]
                &&& #[trigger] takes_reference(tries, self.count(block), true)
            }
    }

    /// A reader saw an entry that will not do, and did nothing.
    pub open spec fn passed(self, wanted: u64, ops: Accesses) -> bool {
        ||| exists|found: u64|
            found != wanted && ops == seq![
                #[trigger] look(self.seq, found),
            ]
        ||| exists|block: u32, len: u32| ops == #[trigger] self.looks(wanted, block, len)
    }

    /// A reader got no reference to the block that an entry names.
    pub open spec fn was_refused(self, wanted: u64, ops: Accesses) -> bool {
        exists|block: u32, len: u32, tries: Accesses|
            {
                &&& ops == #[trigger] self.looks(wanted, block, len) + tries
                &&& #[trigger] takes_reference(tries, self.count(block), false)
            }
    }

    /// A reader got a reference, found another number after that, and gave the
    /// reference back.
    pub open spec fn was_late(self, wanted: u64, ops: Accesses) -> bool {
        exists|block: u32, len: u32, tries: Accesses, found: u64, rest: Accesses|
            {
                &&& found != wanted
                &&& ops == #[trigger] self.looks(wanted, block, len) + tries + seq![
                    #[trigger] look(self.seq, found),
                ] + rest
                &&& #[trigger] takes_reference(tries, self.count(block), true)
                &&& #[trigger] releases(self.pool, rest, self.count(block), block)
            }
    }

    /// What is done to take the sample `wanted` from an entry. Without a sample
    /// no reference is kept.
    pub open spec fn tried(self, wanted: u64, ops: Accesses, r: Option<(u32, u32)>) -> bool {
        match r {
            Some((block, len)) => self.took(wanted, ops, block, len),
            None => self.passed(wanted, ops) || self.was_refused(wanted, ops) || self.was_late(
                wanted,
                ops,
            ),
        }
    }
}

/// A look at a sequence number.
pub open spec fn look(off: int, found: u64) -> Access {
    Access::Look64 { off, found }
}

/// An attempt to count one more reference, where there is one already and the
/// count can grow.
pub open spec fn tries_reference(a: Access, off: int, done: bool) -> bool {
    a matches Access::Exchange32 { off: at, current, new, found } && {
        &&& at == off
        &&& 0 < current < u32::MAX
        &&& new == current + 1
        &&& (found is Ok) == done
    }
}

/// Attempts to take a reference: the last one came about, or none.
pub open spec fn takes_reference(tries: Accesses, off: int, done: bool) -> bool {
    &&& done ==> tries.len() > 0
    &&& forall|i: int|
        0 <= i < tries.len() ==> tries_reference(
            #[trigger] tries[i],
            off,
            done && i == tries.len() - 1,
        )
}

/// What letting one reference go does, whose count lies at `count`: the last one
/// gives the block back to the pool. A block outside of the pool is left alone.
pub open spec fn releases(pool: PoolLayout, ops: Accesses, count: int, block: u32) -> bool {
    if block >= pool.block_count {
        ops.len() == 0
    } else {
        exists|was: u32, rest: Accesses|
            {
                &&& ops == seq![Access::Subtract32 { off: count, v: 1, was }] + rest
                &&& #[trigger] released_last(pool, rest, was, block)
            }
    }
}

/// What is done behind a count that was `was` and went down.
pub open spec fn released_last(pool: PoolLayout, rest: Accesses, was: u32, block: u32) -> bool {
    if was == 1 {
        pool.gives(rest, block)
    } else {
        rest.len() == 0
    }
}

/// Parts of a record, one behind the other.
pub open spec fn joined(parts: Seq<Accesses>) -> Accesses
    decreases parts.len(),
{
    if parts.len() == 0 {
        Seq::empty()
    } else {
        joined(parts.drop_last()) + parts.last()
    }
}

/// One more part stands behind the others.
pub proof fn lemma_joined_push(parts: Seq<Accesses>, part: Accesses)
    ensures
        joined(parts.push(part)) == joined(parts) + part,
{
    assert(parts.push(part).drop_last() =~= parts);
}

/// The record `all` ends with `ops`.
pub open spec fn ends_with(all: Accesses, ops: Accesses) -> bool {
    &&& ops.len() <= all.len()
    &&& all.subrange(all.len() - ops.len(), all.len() as int) == ops
}

/// What was recorded last is at the end of the record.
pub proof fn lemma_ends_with(first: Accesses, ops: Accesses)
    ensures
        ends_with(first + ops, ops),
{
    let all = first + ops;
    assert(all.subrange(all.len() - ops.len(), all.len() as int) =~= ops);
}

/// The accesses of a reader come about in their order, each at a moment of a run
/// of images of the segment.
pub open spec fn happens(images: Seq<Seq<u8>>, ops: Accesses, moments: Seq<int>) -> bool {
    &&& moments.len() == ops.len()
    &&& forall|x: int|
        0 <= x < ops.len() ==> 0 <= #[trigger] moments[x] < images.len() && memory::told_of(
            images[moments[x]],
            ops[x],
        )
    &&& forall|x: int, y: int|
        0 <= x <= y < ops.len() ==> #[trigger] moments[x] <= #[trigger] moments[y]
}

/// What the looks of a reader that took a sample say of the moments at which they
/// came about.
pub proof fn lemma_took_at(
    at: EntryPlace,
    wanted: u64,
    ops: Accesses,
    block: u32,
    len: u32,
    images: Seq<Seq<u8>>,
    moments: Seq<int>,
)
    requires
        at.took(wanted, ops, block, len),
        happens(images, ops, moments),
    ensures
        ops.len() >= 5,
        0 <= moments[0] <= moments[1] <= moments[2] <= moments[ops.len() - 2] <= moments.last()
            < images.len(),
        memory::u64_at(images[moments[0]], at.seq) == wanted,
        memory::u32_at(images[moments[1]], at.block) == block,
        memory::u32_at(images[moments[2]], at.len) == len,
        0 < memory::u32_at(images[moments[ops.len() - 2]], at.count(block)) < u32::MAX,
        memory::u64_at(images[moments.last()], at.seq) == wanted,
{
    let tries = choose|tries: Accesses|
        {
            &&& ops == at.looks(wanted, block, len) + tries + seq![
                Access::Look64 { off: at.seq, found: wanted },
            ]
            &&& #[trigger] takes_reference(tries, at.count(block), true)
        };
    let n = ops.len();
    assert(ops[0] == at.looks(wanted, block, len)[0]);
    assert(ops[1] == at.looks(wanted, block, len)[1]);
    assert(ops[2] == at.looks(wanted, block, len)[2]);
    assert(ops[n - 2] == tries[tries.len() - 1]);
    assert(tries_reference(tries[tries.len() - 1], at.count(block), true));
    assert(ops[n - 1] == (Access::Look64 { off: at.seq, found: wanted }));
    assert(memory::told_of(images[moments[0]], ops[0]));
    assert(memory::told_of(images[moments[1]], ops[1]));
    assert(memory::told_of(images[moments[2]], ops[2]));
    assert(memory::told_of(images[moments[n - 2]], ops[n - 2]));
    assert(memory::told_of(images[moments[n - 1]], ops[n - 1]));
}

/// The word of a pinned sample, and the block that was named beside it, as a
/// reader saw them.
#[derive(Clone, Copy, Debug, PartialEq, Eq, Structural)]
pub struct PinnedLook {
    /// The word before.
    pub before: u64,
    /// The block.
    pub block: u32,
    /// The word after.
    pub after: u64,
}

/// The number and the length of a pinned sample newer than `last`, as a reader
/// saw it. `None` if there is none, if the word changed, or if block or length
/// are not possible.
pub open spec fn pinned_seen(last: u64, look: PinnedLook, blocks: u32, capacity: int) -> Option<
    (u32, u32),
> {
    let seq = crate::protocol::pool::gen_of(look.before);
    let len = crate::protocol::pool::idx_of(look.before);
    if look.before != 0 && seq > last && look.block < blocks && len <= capacity && look.after
        == look.before {
        Some((seq, len))
    } else {
        None
    }
}

/// Judges what a reader saw of a pinned sample.
pub fn judge_pinned(last: u64, look: PinnedLook, blocks: u32, capacity: usize) -> (r: Option<
    (u32, u32),
>)
    ensures
        r == pinned_seen(last, look, blocks, capacity as int),
{
    let (seq, len) = crate::protocol::pool::unpack(look.before);
    if look.before != 0 && seq as u64 > last && look.block < blocks && len as usize <= capacity
        && look.after == look.before {
        Some((seq, len))
    } else {
        None
    }
}

} // verus!
