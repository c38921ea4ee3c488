//! Rings of block descriptors.

use crate::memory::{self, Access, Accesses, SharedMemory};
use crate::protocol::pool::NO_BLOCK;
use crate::protocol::reading::EntryLook;
use vstd::prelude::*;

verus! {

broadcast use crate::memory::group_memory;

/// Size of an entry.
pub const RING_ENTRY_SIZE: usize = 16;

/// Offset of the sequence number in an entry.
pub const RE_SEQ: usize = 0;

/// Offset of the block in an entry.
pub const RE_BLOCK_IDX: usize = 8;

/// Offset of the length of the data in an entry.
pub const RE_DATA_LEN: usize = 12;

/// Sequence number in an entry.
pub open spec fn entry_seq(m: Seq<u8>, e: int) -> u64 {
    memory::u64_at(m, e + RE_SEQ)
}

/// Block in an entry.
pub open spec fn entry_block(m: Seq<u8>, e: int) -> u32 {
    memory::u32_at(m, e + RE_BLOCK_IDX)
}

/// Length of the data in an entry.
pub open spec fn entry_len(m: Seq<u8>, e: int) -> u32 {
    memory::u32_at(m, e + RE_DATA_LEN)
}

/// The segment with an entry written.
pub open spec fn with_entry(m: Seq<u8>, e: int, block: u32, len: u32, seq: u64) -> Seq<u8> {
    let m = memory::put64(m, e + RE_SEQ, 0);
    let m = memory::put32(m, e + RE_BLOCK_IDX, block);
    let m = memory::put32(m, e + RE_DATA_LEN, len);
    memory::put64(m, e + RE_SEQ, seq)
}

/// What writing an entry stores, in this order: its number is taken away, it gets
/// its block and length, and at last its number.
pub open spec fn entry_stores(e: int, block: u32, len: u32, seq: u64) -> Accesses {
    seq![
        Access::Word64 { off: e + RE_SEQ, v: 0 },
        Access::Word32 { off: e + RE_BLOCK_IDX, v: block },
        Access::Word32 { off: e + RE_DATA_LEN, v: len },
        Access::Word64 { off: e + RE_SEQ, v: seq },
    ]
}

/// The looks of a reader at an entry: its number, its block and length, and its
/// number once more.
pub open spec fn entry_looks(e: int, look: EntryLook) -> Accesses {
    seq![
        Access::Look64 { off: e + RE_SEQ, found: look.before },
        Access::Look32 { off: e + RE_BLOCK_IDX, found: look.block },
        Access::Look32 { off: e + RE_DATA_LEN, found: look.len },
        Access::Look64 { off: e + RE_SEQ, found: look.after },
    ]
}

/// The segment with an entry emptied.
pub open spec fn with_empty(m: Seq<u8>, e: int) -> Seq<u8> {
    let m = memory::put64(m, e + RE_SEQ, 0);
    let m = memory::put32(m, e + RE_BLOCK_IDX, NO_BLOCK);
    memory::put32(m, e + RE_DATA_LEN, 0)
}

/// The segment with the first `n` entries from `base` on emptied.
pub open spec fn with_empty_entries(m: Seq<u8>, base: int, n: nat) -> Seq<u8>
    decreases n,
{
    if n == 0 {
        m
    } else {
        with_empty(
            with_empty_entries(m, base, (n - 1) as nat),
            base + (n - 1) * RING_ENTRY_SIZE,
        )
    }
}

/// Writes an entry: first its sequence number is taken away, so that nobody
/// reads it half written.
pub fn write_entry<M: SharedMemory>(mem: &mut M, e: usize, block: u32, len: u32, seq: u64)
    requires
        e + RING_ENTRY_SIZE <= old(mem).image().len() <= usize::MAX,
    ensures
        final(mem).image().len() == old(mem).image().len(),
        final(mem).exclusive() == old(mem).exclusive(),
        final(mem).contention() <= old(mem).contention(),
        final(mem).accesses() == old(mem).accesses() + entry_stores(e as int, block, len, seq),
        old(mem).exclusive() ==> final(mem).image() == with_entry(
            old(mem).image(),
            e as int,
            block,
            len,
            seq,
        ),
{
    mem.store_u64(e + RE_SEQ, 0);
    mem.store_u32(e + RE_BLOCK_IDX, block);
    mem.store_u32(e + RE_DATA_LEN, len);
    mem.store_u64(e + RE_SEQ, seq);
    assert(mem.accesses() =~= old(mem).accesses() + entry_stores(e as int, block, len, seq));
}

/// Empties `n` entries from `base` on.
pub fn clear_entries<M: SharedMemory>(mem: &mut M, base: usize, n: usize)
    requires
        base + n * RING_ENTRY_SIZE <= old(mem).image().len() <= usize::MAX,
    ensures
        final(mem).image().len() == old(mem).image().len(),
        final(mem).exclusive() == old(mem).exclusive(),
        final(mem).contention() <= old(mem).contention(),
        old(mem).exclusive() ==> final(mem).image() == with_empty_entries(
            old(mem).image(),
            base as int,
            n as nat,
        ),
{
    let mut i: usize = 0;
    while i < n
        invariant
            i <= n,
            base + n * RING_ENTRY_SIZE <= mem.image().len() <= usize::MAX,
            mem.image().len() == old(mem).image().len(),
            mem.exclusive() == old(mem).exclusive(),
            mem.contention() <= old(mem).contention(),
            mem.exclusive() ==> mem.image() == with_empty_entries(
                old(mem).image(),
                base as int,
                i as nat,
            ),
        decreases n - i,
    {
        let e: usize = base + i * RING_ENTRY_SIZE;
        mem.store_u64(e + RE_SEQ, 0);
        mem.store_u32(e + RE_BLOCK_IDX, NO_BLOCK);
        mem.store_u32(e + RE_DATA_LEN, 0);
        i = i + 1;
    }
}

/// Emptying entries writes to those entries only, and leaves them empty.
pub proof fn lemma_empty_entries(m: Seq<u8>, base: int, n: nat)
    requires
        0 <= base,
        base + n * RING_ENTRY_SIZE <= m.len(),
    ensures
        with_empty_entries(m, base, n).len() == m.len(),
        forall|i: int|
            0 <= i < m.len() && !(base <= i < base + n * RING_ENTRY_SIZE)
                ==> #[trigger] with_empty_entries(m, base, n)[i] == m[i],
        forall|k: int|
            0 <= k < n ==> {
                &&& #[trigger] entry_block(
                    with_empty_entries(m, base, n),
                    base + k * RING_ENTRY_SIZE,
                ) == NO_BLOCK
                &&& entry_seq(with_empty_entries(m, base, n), base + k * RING_ENTRY_SIZE) == 0
            },
    decreases n,
{
    if n > 0 {
        let p = (n - 1) as nat;
        lemma_empty_entries(m, base, p);
        let a = with_empty_entries(m, base, p);
        let b = with_empty_entries(m, base, n);
        let e = base + p * RING_ENTRY_SIZE;
        assert(b == with_empty(a, e));
        assert forall|i: int|
            0 <= i < m.len() && !(base <= i < base + n * RING_ENTRY_SIZE) implies #[trigger] b[i]
            == m[i] by {
            assert(a[i] == m[i]);
        }
        assert forall|k: int| 0 <= k < n implies {
            &&& #[trigger] entry_block(b, base + k * RING_ENTRY_SIZE) == NO_BLOCK
            &&& entry_seq(b, base + k * RING_ENTRY_SIZE) == 0
        } by {
            if k < p {
                assert(entry_block(a, base + k * RING_ENTRY_SIZE) == NO_BLOCK);
            }
        }
    }
}

} // verus!
