//! The pool of fixed-size blocks inside a segment.
//!
//! Free blocks form a singly linked list: the head word holds the index of the
//! first free block together with a generation that changes with every update,
//! and the first four bytes of a free block hold the index of the next one.

use crate::memory::{Access, Accesses, SharedMemory};
use vstd::prelude::*;

verus! {

broadcast use crate::memory::group_memory;

/// The index that stands for "no block".
pub const NO_BLOCK: u32 = 0xFFFF_FFFF;

/// Where the pool lies in its segment.
#[derive(Clone, Copy, Debug, PartialEq, Eq)]
pub struct PoolLayout {
    /// Offset of the 64-bit list head.
    pub head: usize,
    /// Offset of block 0.
    pub base: usize,
    /// Size of a block in bytes, link included.
    pub block_size: u32,
    /// Number of blocks.
    pub block_count: u32,
    /// A block whose link leads outside of the pool is not lent.
    pub checks_links: bool,
}

/// A generation and an index in one 64-bit word.
pub open spec fn packed(gen: u32, idx: u32) -> u64 {
    (gen * 0x1_0000_0000 + idx) as u64
}

/// The generation of a packed word.
pub open spec fn gen_of(val: u64) -> u32 {
    (val / 0x1_0000_0000) as u32
}

/// The index of a packed word.
pub open spec fn idx_of(val: u64) -> u32 {
    (val % 0x1_0000_0000) as u32
}

/// Packs a generation and an index.
pub fn pack(gen: u32, idx: u32) -> (r: u64)
    ensures
        r == packed(gen, idx),
{
    gen as u64 * 0x1_0000_0000 + idx as u64
}

/// Takes a packed word apart.
pub fn unpack(val: u64) -> (r: (u32, u32))
    ensures
        r == (gen_of(val), idx_of(val)),
{
    ((val / 0x1_0000_0000) as u32, (val % 0x1_0000_0000) as u32)
}

/// Taking a word apart undoes packing it, and packing undoes taking apart.
pub proof fn law_pack_unpack(gen: u32, idx: u32, val: u64)
    ensures
        gen_of(packed(gen, idx)) == gen,
        idx_of(packed(gen, idx)) == idx,
        packed(gen_of(val), idx_of(val)) == val,
{
}

impl PoolLayout {
    /// The pool fits in a segment of `len` bytes, behind its head word, and a
    /// block has room for its link and reference count.
    pub open spec fn fits(&self, len: nat) -> bool {
        &&& self.head + 8 <= self.base
        &&& self.block_size >= 8
        &&& self.base + self.block_count * self.block_size <= len
        &&& len <= usize::MAX
    }

    /// Offset of a block.
    pub open spec fn block(&self, idx: int) -> int {
        self.base + idx * self.block_size
    }

    /// The index at the head of the list.
    pub open spec fn first(&self, m: Seq<u8>) -> u32 {
        idx_of(crate::memory::u64_at(m, self.head as int))
    }

    /// The generation of the list head.
    pub open spec fn generation(&self, m: Seq<u8>) -> u32 {
        gen_of(crate::memory::u64_at(m, self.head as int))
    }

    /// The link of a block.
    pub open spec fn next(&self, m: Seq<u8>, idx: int) -> u32 {
        crate::memory::u32_at(m, self.block(idx))
    }

    /// The block that an allocation takes: the head of the list, unless the
    /// list is empty or begins outside of the pool, or the pool checks links and
    /// the next block lies outside of it.
    pub open spec fn alloc_choice(&self, m: Seq<u8>) -> Option<u32> {
        let idx = self.first(m);
        if idx >= self.block_count {
            None
        } else {
            let next = self.next(m, idx as int);
            if self.checks_links && next != NO_BLOCK && next >= self.block_count {
                None
            } else {
                Some(idx)
            }
        }
    }

    /// The segment after an allocation.
    pub open spec fn after_alloc(&self, m: Seq<u8>) -> Seq<u8> {
        match self.alloc_choice(m) {
            None => m,
            Some(idx) => self.with_head(m, self.next(m, idx as int)),
        }
    }

    /// The segment after a block is given back; a block outside of the pool is
    /// ignored.
    pub open spec fn after_free(&self, m: Seq<u8>, idx: u32) -> Seq<u8> {
        if idx >= self.block_count {
            m
        } else {
            self.with_head(
                crate::memory::put32(m, self.block(idx as int), self.first(m)),
                idx,
            )
        }
    }

    /// The segment with another list head, in the next generation.
    pub open spec fn with_head(&self, m: Seq<u8>, idx: u32) -> Seq<u8> {
        crate::memory::put64(
            m,
            self.head as int,
            packed(crate::memory::wrapping_sum_u32(self.generation(m), 1), idx),
        )
    }

    /// An attempt to take the block at the head of the list: an exchange of the
    /// head word, for one of the next generation.
    pub open spec fn tries_take(&self, s: Access, done: bool) -> bool {
        s matches Access::Exchange64 { off, current, new, found } && {
            &&& off == self.head
            &&& idx_of(current) < self.block_count
            &&& gen_of(new) == crate::memory::wrapping_sum_u32(gen_of(current), 1)
            &&& self.checks_links ==> idx_of(new) == NO_BLOCK || idx_of(new) < self.block_count
            &&& (found is Ok) == done
        }
    }

    /// What taking a block stores: the block is the one that the head word named
    /// when the last attempt came about. There is nothing else, and no more than
    /// attempts where no block was taken.
    pub open spec fn takes(&self, ops: Accesses, r: Option<u32>) -> bool {
        &&& forall|i: int|
            0 <= i < ops.len() ==> self.tries_take(
                #[trigger] ops[i],
                r is Some && i == ops.len() - 1,
            )
        &&& r matches Some(idx) ==> ops.len() > 0 && idx == idx_of(ops.last()->Exchange64_current)
    }

    /// A handle took a block, or found none.
    pub open spec fn took<M: SharedMemory>(&self, before: M, after: M, r: Option<u32>) -> bool {
        exists|ops: Accesses|
            after.accesses() == before.accesses() + ops && #[trigger] self.takes(ops, r)
    }

    /// A store that nobody sees who follows the list: the link of a block that is
    /// not on it, or an exchange that did not come about.
    pub open spec fn prepares_give(&self, s: Access, idx: u32) -> bool {
        match s {
            Access::Word32 { off, .. } => off == self.block(idx as int),
            Access::Exchange64 { off, found, .. } => off == self.head && found is Err,
            _ => false,
        }
    }

    /// What giving back a block stores: in the end the block is linked to the
    /// first one of the list, and the head word that names that one is exchanged
    /// for one of the next generation that names the block.
    pub open spec fn gives(&self, ops: Accesses, idx: u32) -> bool {
        if idx >= self.block_count {
            ops.len() == 0
        } else {
            &&& ops.len() >= 2
            &&& forall|i: int|
                0 <= i < ops.len() - 2 ==> #[trigger] self.prepares_give(ops[i], idx)
            &&& ops.last() matches Access::Exchange64 { off, current, new, found } && {
                &&& off == self.head
                &&& found is Ok
                &&& new == packed(crate::memory::wrapping_sum_u32(gen_of(current), 1), idx)
                &&& ops[ops.len() - 2] == (Access::Word32 {
                    off: self.block(idx as int),
                    v: idx_of(current),
                })
            }
        }
    }

    /// A handle gave a block back.
    pub open spec fn gave<M: SharedMemory>(&self, before: M, after: M, idx: u32) -> bool {
        exists|ops: Accesses|
            after.accesses() == before.accesses() + ops && #[trigger] self.gives(ops, idx)
    }

    /// `list` is the free list: in order, without repetition, inside the pool.
    pub open spec fn is_free_list(&self, m: Seq<u8>, list: Seq<u32>) -> bool {
        &&& list.no_duplicates()
        &&& forall|i: int| 0 <= i < list.len() ==> #[trigger] list[i] < self.block_count
        &&& self.first(m) == link(list, 0)
        &&& forall|i: int|
            0 <= i < list.len() ==> self.next(m, #[trigger] list[i] as int) == link(list, i + 1)
    }

    /// The list of all blocks, as `init_free_list` leaves it.
    pub open spec fn full_list(&self) -> Seq<u32> {
        Seq::new(self.block_count as nat, |i: int| i as u32)
    }

    /// Offset of a block, computed.
    pub fn block_off(&self, idx: u32) -> (r: usize)
        requires
            self.base + self.block_count * self.block_size <= usize::MAX,
            idx < self.block_count,
        ensures
            r == self.block(idx as int),
    {
        proof {
            lemma_mul_bounds(idx as int, self.block_count as int, self.block_size as int);
        }
        self.base + idx as usize * self.block_size as usize
    }

    /// Takes a block from the list.
    pub fn alloc_block<M: SharedMemory>(&self, mem: &mut M) -> (r: Option<u32>)
        requires
            self.fits(old(mem).image().len()),
        ensures
            final(mem).image().len() == old(mem).image().len(),
            final(mem).exclusive() == old(mem).exclusive(),
            final(mem).contention() <= old(mem).contention(),
            r matches Some(idx) ==> idx < self.block_count,
            self.took(*old(mem), *final(mem), r),
            old(mem).exclusive() ==> {
                &&& r == self.alloc_choice(old(mem).image())
                &&& final(mem).image() == self.after_alloc(old(mem).image())
            },
    {
        proof {
            lemma_bounds(*self, mem.image().len());
        }
        let ghost mut ops: Accesses = Seq::empty();
        assert(old(mem).accesses() + ops =~= old(mem).accesses());
        let mut head: u64 = mem.load_u64(self.head);
        loop
            invariant
                self.fits(mem.image().len()),
                mem.image().len() == old(mem).image().len(),
                mem.exclusive() == old(mem).exclusive(),
                mem.contention() <= old(mem).contention(),
                mem.accesses() == old(mem).accesses() + ops,
                self.takes(ops, None),
                mem.exclusive() ==> mem.image() == old(mem).image() && head
                    == crate::memory::u64_at(mem.image(), self.head as int),
            decreases mem.contention(),
        {
            proof {
                lemma_bounds(*self, mem.image().len());
            }
            let (gen, idx) = unpack(head);
            let ghost before = ops;
            if idx >= self.block_count {
                return None;
            }
            proof {
                lemma_block(*self, idx as int, mem.image().len());
            }
            let off: usize = self.block_off(idx);
            let next: u32 = mem.load_u32(off);
            if self.checks_links && next != NO_BLOCK && next >= self.block_count {
                return None;
            }
            let new_head: u64 = pack(gen.wrapping_add(1), next);
            let swapped: Result<u64, u64> = mem.compare_exchange_u64(self.head, head, new_head);
            proof {
                let last = Access::Exchange64 {
                    off: self.head as int,
                    current: head,
                    new: new_head,
                    found: swapped,
                };
                law_pack_unpack(gen.wrapping_add(1), next, head);
                ops = before.push(last);
                assert(mem.accesses() =~= old(mem).accesses() + ops);
                assert(self.tries_take(last, swapped is Ok));
                assert forall|i: int| 0 <= i < ops.len() implies self.tries_take(
                    #[trigger] ops[i],
                    swapped is Ok && i == ops.len() - 1,
                ) by {
                    if i < before.len() {
                        assert(self.tries_take(before[i], false));
                    }
                }
            }
            match swapped {
                Ok(_) => {
                    assert(self.takes(ops, Some(idx)));
                    return Some(idx);
                },
                Err(current) => {
                    head = current;
                },
            }
        }
    }

    /// Gives a block back to the list. An index outside of the pool is ignored.
    pub fn free_block<M: SharedMemory>(&self, mem: &mut M, idx: u32)
        requires
            self.fits(old(mem).image().len()),
        ensures
            final(mem).image().len() == old(mem).image().len(),
            final(mem).exclusive() == old(mem).exclusive(),
            final(mem).contention() <= old(mem).contention(),
            self.gave(*old(mem), *final(mem), idx),
            old(mem).exclusive() ==> final(mem).image() == self.after_free(old(mem).image(), idx),
    {
        let ghost mut ops: Accesses = Seq::empty();
        assert(old(mem).accesses() + ops =~= old(mem).accesses());
        if idx >= self.block_count {
            assert(self.gives(ops, idx));
            return ;
        }
        proof {
            lemma_bounds(*self, mem.image().len());
        }
        proof {
            lemma_block(*self, idx as int, mem.image().len());
        }
        let off: usize = self.block_off(idx);
        let mut head: u64 = mem.load_u64(self.head);
        loop
            invariant
                self.fits(mem.image().len()),
                idx < self.block_count,
                off == self.block(idx as int),
                self.base <= off,
                off + self.block_size <= mem.image().len(),
                mem.image().len() == old(mem).image().len(),
                mem.exclusive() == old(mem).exclusive(),
                mem.contention() <= old(mem).contention(),
                mem.accesses() == old(mem).accesses() + ops,
                forall|i: int|
                    0 <= i < ops.len() ==> #[trigger] self.prepares_give(ops[i], idx),
                mem.exclusive() ==> mem.image() == old(mem).image() && head
                    == crate::memory::u64_at(mem.image(), self.head as int),
            decreases mem.contention(),
        {
            proof {
                lemma_bounds(*self, mem.image().len());
            }
            let (gen, first) = unpack(head);
            let ghost before = ops;
            mem.store_u32(off, first);
            let new_head: u64 = pack(gen.wrapping_add(1), idx);
            let swapped: Result<u64, u64> = mem.compare_exchange_u64(self.head, head, new_head);
            proof {
                let linked = Access::Word32 { off: off as int, v: first };
                let last = Access::Exchange64 {
                    off: self.head as int,
                    current: head,
                    new: new_head,
                    found: swapped,
                };
                ops = before.push(linked).push(last);
                assert(mem.accesses() =~= old(mem).accesses() + ops);
                assert(self.prepares_give(linked, idx));
                assert(swapped is Err ==> self.prepares_give(last, idx));
                assert forall|i: int| 0 <= i < before.len() implies #[trigger] self.prepares_give(
                    ops[i],
                    idx,
                ) by {
                    assert(ops[i] == before[i]);
                }
            }
            match swapped {
                Ok(_) => {
                    assert(self.gives(ops, idx));
                    return ;
                },
                Err(current) => {
                    head = current;
                },
            }
        }
    }
}

impl PoolLayout {
    /// The segment with all blocks on the free list, from 0 up, their reference
    /// counts zero.
    pub open spec fn after_init(&self, m: Seq<u8>) -> Seq<u8> {
        crate::memory::put64(self.linked(m, self.block_count as nat), self.head as int, 0)
    }

    /// The segment with the first `n` blocks linked in order.
    pub open spec fn linked(&self, m: Seq<u8>, n: nat) -> Seq<u8>
        decreases n,
    {
        if n == 0 {
            m
        } else {
            let i = n - 1;
            let m = self.linked(m, i as nat);
            let m = crate::memory::put32(m, self.block(i), link(self.full_list(), n as int));
            crate::memory::put32(m, self.block(i) + 4, 0)
        }
    }

    /// Puts all blocks on the free list.
    pub fn init_free_list<M: SharedMemory>(&self, mem: &mut M)
        requires
            self.fits(old(mem).image().len()),
        ensures
            final(mem).image().len() == old(mem).image().len(),
            final(mem).exclusive() == old(mem).exclusive(),
            final(mem).contention() <= old(mem).contention(),
            old(mem).exclusive() ==> final(mem).image() == self.after_init(old(mem).image()),
    {
        proof {
            lemma_bounds(*self, mem.image().len());
        }
        let mut i: u32 = 0;
        while i < self.block_count
            invariant
                self.fits(mem.image().len()),
                i <= self.block_count,
                mem.image().len() == old(mem).image().len(),
                mem.exclusive() == old(mem).exclusive(),
                mem.contention() <= old(mem).contention(),
                mem.exclusive() ==> mem.image() == self.linked(old(mem).image(), i as nat),
            decreases self.block_count - i,
        {
            let next: u32 = if i + 1 < self.block_count {
                i + 1
            } else {
                NO_BLOCK
            };
            proof {
                lemma_block(*self, i as int, mem.image().len());
            }
            let off: usize = self.block_off(i);
            mem.store_u32(off, next);
            mem.store_u32(off + 4, 0);
            i = i + 1;
        }
        mem.store_u64(self.head, pack(0, 0));
    }
}

/// The link that belongs before position `i` of a list.
pub open spec fn link(list: Seq<u32>, i: int) -> u32 {
    if i < list.len() {
        list[i]
    } else {
        NO_BLOCK
    }
}

pub proof fn lemma_mul_bounds(i: int, n: int, s: int)
    requires
        0 <= i < n,
        0 <= s,
    ensures
        0 <= i * s,
        i * s + s <= n * s,
{
    assert(i * s + s <= n * s) by (nonlinear_arith)
        requires
            0 <= i < n,
            0 <= s,
    ;
    assert(0 <= i * s) by (nonlinear_arith)
        requires
            0 <= i,
            0 <= s,
    ;
}

pub proof fn lemma_bounds(p: PoolLayout, len: nat)
    requires
        p.fits(len),
    ensures
        p.base <= len,
        p.head + 8 <= len,
{
    assert(p.block_count * p.block_size >= 0) by (nonlinear_arith);
}

/// A block lies inside the segment.
pub proof fn lemma_block(p: PoolLayout, idx: int, len: nat)
    requires
        p.fits(len),
        0 <= idx < p.block_count,
    ensures
        p.base <= p.block(idx),
        p.block(idx) + p.block_size <= p.base + p.block_count * p.block_size,
        p.block(idx) + p.block_size <= len,
        0 <= idx * p.block_size <= p.block_count * p.block_size,
{
    lemma_mul_bounds(idx, p.block_count as int, p.block_size as int);
}

/// Two different blocks do not overlap.
pub proof fn lemma_blocks_apart(p: PoolLayout, a: int, b: int)
    requires
        a < b,
    ensures
        p.block(a) + p.block_size <= p.block(b),
{
    let s = p.block_size as int;
    assert(a * s + s <= b * s) by (nonlinear_arith)
        requires
            a < b,
            0 <= s,
    ;
}

/// Writing the head word leaves every link alone.
proof fn lemma_head_keeps_links(p: PoolLayout, m: Seq<u8>, v: u64, idx: int)
    requires
        p.fits(m.len()),
        0 <= idx < p.block_count,
    ensures
        p.next(crate::memory::put64(m, p.head as int, v), idx) == p.next(m, idx),
{
    lemma_block(p, idx, m.len());
}

/// Writing into one block behind its link, or into another block, leaves the
/// link of `idx` alone.
pub proof fn lemma_block_write_keeps_link(
    p: PoolLayout,
    m: Seq<u8>,
    at: int,
    off: int,
    b: Seq<u8>,
    idx: int,
)
    requires
        p.fits(m.len()),
        0 <= idx < p.block_count,
        0 <= at < p.block_count,
        p.block(at) <= off,
        off + b.len() <= p.block(at) + p.block_size,
        at != idx || off >= p.block(at) + 4,
    ensures
        p.next(crate::memory::put(m, off, b), idx) == p.next(m, idx),
{
    lemma_block(p, idx, m.len());
    lemma_block(p, at, m.len());
    if at < idx {
        lemma_blocks_apart(p, at, idx);
    } else if idx < at {
        lemma_blocks_apart(p, idx, at);
    }
}

/// A write into the data or reference count of a block leaves the free list as
/// it is; so does a write to the link of a block that is not on it.
pub proof fn law_block_writes_keep_free_list(
    p: PoolLayout,
    m: Seq<u8>,
    list: Seq<u32>,
    at: u32,
    off: int,
    b: Seq<u8>,
)
    requires
        p.fits(m.len()),
        p.is_free_list(m, list),
        at < p.block_count,
        p.block(at as int) <= off,
        off + b.len() <= p.block(at as int) + p.block_size,
        !list.contains(at) || off >= p.block(at as int) + 4,
    ensures
        p.is_free_list(crate::memory::put(m, off, b), list),
{
    let n = crate::memory::put(m, off, b);
    lemma_bounds(p, m.len());
    lemma_block(p, at as int, m.len());
    assert(p.first(n) == p.first(m));
    assert forall|i: int| 0 <= i < list.len() implies p.next(n, #[trigger] list[i] as int) == link(
        list,
        i + 1,
    ) by {
        lemma_block_write_keeps_link(p, m, at as int, off, b, list[i] as int);
    }
}

/// A fresh pool has every block on its free list.
pub proof fn law_init_frees_every_block(p: PoolLayout, m: Seq<u8>)
    requires
        p.fits(m.len()),
        0 < p.block_count,
    ensures
        p.is_free_list(p.after_init(m), p.full_list()),
        forall|b: u32| b < p.block_count ==> #[trigger] p.full_list().contains(b),
{
    let n = p.block_count as nat;
    let l = p.full_list();
    lemma_bounds(p, m.len());
    lemma_linked(p, m, n);
    let a = p.linked(m, n);
    let z = p.after_init(m);
    assert forall|i: int| 0 <= i < l.len() implies p.next(z, #[trigger] l[i] as int) == link(
        l,
        i + 1,
    ) by {
        assert(p.next(a, i) == link(l, i + 1));
        lemma_head_keeps_links(p, a, 0, i);
    }
    assert forall|b: u32| b < p.block_count implies #[trigger] l.contains(b) by {
        assert(l[b as int] == b);
    }
}

proof fn lemma_linked(p: PoolLayout, m: Seq<u8>, n: nat)
    requires
        p.fits(m.len()),
        n <= p.block_count,
    ensures
        p.linked(m, n).len() == m.len(),
        forall|i: int|
            0 <= i < n ==> #[trigger] p.next(p.linked(m, n), i) == link(p.full_list(), i + 1),
        forall|i: int|
            0 <= i < n ==> crate::memory::u32_at(p.linked(m, n), #[trigger] p.block(i) + 4) == 0,
    decreases n,
{
    if n > 0 {
        let k = n - 1;
        lemma_linked(p, m, k as nat);
        let m0 = p.linked(m, k as nat);
        let m1 = crate::memory::put32(m0, p.block(k), link(p.full_list(), n as int));
        let m2 = crate::memory::put32(m1, p.block(k) + 4, 0);
        lemma_block(p, k, m.len());
        assert forall|i: int| 0 <= i < n implies #[trigger] p.next(m2, i) == link(
            p.full_list(),
            i + 1,
        ) by {
            lemma_block(p, i, m.len());
            lemma_block_write_keeps_link(p, m1, k, p.block(k) + 4, crate::memory::le32(0), i);
            if i < k {
                assert(p.next(m0, i) == link(p.full_list(), i + 1));
                lemma_block_write_keeps_link(
                    p,
                    m0,
                    k,
                    p.block(k),
                    crate::memory::le32(link(p.full_list(), n as int)),
                    i,
                );
            }
        }
        assert forall|i: int| 0 <= i < n implies crate::memory::u32_at(
            m2,
            #[trigger] p.block(i) + 4,
        ) == 0 by {
            lemma_block(p, i, m.len());
            if i < k {
                lemma_blocks_apart(p, i, k);
                assert(crate::memory::u32_at(m0, p.block(i) + 4) == 0);
            }
        }
    }
}

/// An allocation takes the head of the free list and leaves the rest; on an
/// empty list it gives nothing and changes nothing.
pub proof fn law_alloc_takes_the_head(p: PoolLayout, m: Seq<u8>, list: Seq<u32>)
    requires
        p.fits(m.len()),
        p.is_free_list(m, list),
    ensures
        list.len() == 0 ==> p.alloc_choice(m) is None && p.after_alloc(m) == m,
        list.len() > 0 ==> {
            &&& p.alloc_choice(m) == Some(list[0])
            &&& p.is_free_list(p.after_alloc(m), list.subrange(1, list.len() as int))
            &&& !list.subrange(1, list.len() as int).contains(list[0])
        },
{
    lemma_bounds(p, m.len());
    if list.len() > 0 {
        let idx = list[0];
        let rest = list.subrange(1, list.len() as int);
        let next = p.next(m, idx as int);
        assert(next == link(list, 1));
        if 1 < list.len() {
            assert(list[1] < p.block_count);
        }
        let v = packed(crate::memory::wrapping_sum_u32(p.generation(m), 1), next);
        let n = p.after_alloc(m);
        assert(n == crate::memory::put64(m, p.head as int, v));
        law_pack_unpack(crate::memory::wrapping_sum_u32(p.generation(m), 1), next, 0);
        assert(p.first(n) == next);
        assert forall|i: int| 0 <= i < rest.len() implies #[trigger] rest[i] < p.block_count by {
            assert(rest[i] == list[i + 1]);
        }
        assert forall|i: int| 0 <= i < rest.len() implies p.next(n, #[trigger] rest[i] as int)
            == link(rest, i + 1) by {
            assert(rest[i] == list[i + 1]);
            lemma_head_keeps_links(p, m, v, list[i + 1] as int);
        }
    }
}

/// Giving back a block that is not free puts it at the head of the list.
pub proof fn law_free_pushes_the_head(p: PoolLayout, m: Seq<u8>, list: Seq<u32>, idx: u32)
    requires
        p.fits(m.len()),
        p.is_free_list(m, list),
        idx < p.block_count,
        !list.contains(idx),
    ensures
        p.is_free_list(p.after_free(m, idx), seq![idx] + list),
{
    lemma_bounds(p, m.len());
    lemma_block(p, idx as int, m.len());
    let all = seq![idx] + list;
    let m1 = crate::memory::put32(m, p.block(idx as int), p.first(m));
    law_block_writes_keep_free_list(
        p,
        m,
        list,
        idx,
        p.block(idx as int),
        crate::memory::le32(p.first(m)),
    );
    let gen = crate::memory::wrapping_sum_u32(p.generation(m1), 1);
    let v = packed(gen, idx);
    let n = p.after_free(m, idx);
    law_pack_unpack(gen, idx, 0);
    assert(p.first(n) == idx);
    assert(all[0] == idx);
    assert forall|i: int| 0 <= i < all.len() implies #[trigger] all[i] < p.block_count by {
        if i > 0 {
            assert(all[i] == list[i - 1]);
        }
    }
    assert forall|i: int| 0 <= i < all.len() implies p.next(n, #[trigger] all[i] as int) == link(
        all,
        i + 1,
    ) by {
        lemma_head_keeps_links(p, m1, v, all[i] as int);
        if i > 0 {
            assert(all[i] == list[i - 1]);
            assert(p.next(m1, list[i - 1] as int) == link(list, i));
        } else {
            assert(p.next(m1, idx as int) == p.first(m));
        }
    }
    assert(all.no_duplicates());
}

/// A block that is given back is the next one taken, and taking it leaves the
/// list as it was.
pub proof fn law_free_then_alloc(p: PoolLayout, m: Seq<u8>, list: Seq<u32>, idx: u32)
    requires
        p.fits(m.len()),
        p.is_free_list(m, list),
        idx < p.block_count,
        !list.contains(idx),
    ensures
        p.alloc_choice(p.after_free(m, idx)) == Some(idx),
        p.is_free_list(p.after_alloc(p.after_free(m, idx)), list),
{
    law_free_pushes_the_head(p, m, list, idx);
    let n = p.after_free(m, idx);
    let all = seq![idx] + list;
    law_alloc_takes_the_head(p, n, all);
    assert(all.subrange(1, all.len() as int) =~= list);
}

/// Giving back the block just taken restores the list.
pub proof fn law_alloc_then_free(p: PoolLayout, m: Seq<u8>, list: Seq<u32>)
    requires
        p.fits(m.len()),
        p.is_free_list(m, list),
        list.len() > 0,
    ensures
        p.is_free_list(p.after_free(p.after_alloc(m), list[0]), list),
{
    law_alloc_takes_the_head(p, m, list);
    let rest = list.subrange(1, list.len() as int);
    law_free_pushes_the_head(p, p.after_alloc(m), rest, list[0]);
    assert(seq![list[0]] + rest =~= list);
}

/// There is only one free list.
pub proof fn law_free_list_is_unique(p: PoolLayout, m: Seq<u8>, a: Seq<u32>, b: Seq<u32>)
    requires
        p.is_free_list(m, a),
        p.is_free_list(m, b),
    ensures
        a == b,
{
    lemma_same_prefix(p, m, a, b, if a.len() < b.len() { a.len() } else { b.len() });
    if a.len() < b.len() {
        assert(link(a, a.len() as int) == link(b, a.len() as int)) by {
            if a.len() > 0 {
                assert(a[a.len() - 1] == b[a.len() - 1]);
            }
        }
        assert(b[a.len() as int] < p.block_count);
    } else if b.len() < a.len() {
        assert(link(a, b.len() as int) == link(b, b.len() as int)) by {
            if b.len() > 0 {
                assert(a[b.len() - 1] == b[b.len() - 1]);
            }
        }
        assert(a[b.len() as int] < p.block_count);
    }
    assert(a =~= b);
}

#[verifier::rlimit(40)]
proof fn lemma_same_prefix(p: PoolLayout, m: Seq<u8>, a: Seq<u32>, b: Seq<u32>, n: nat)
    requires
        p.is_free_list(m, a),
        p.is_free_list(m, b),
        n <= a.len(),
        n <= b.len(),
    ensures
        forall|i: int| 0 <= i < n ==> a[i] == b[i],
    decreases n,
{
    if n > 0 {
        lemma_same_prefix(p, m, a, b, (n - 1) as nat);
        if n == 1 {
            assert(a[0] == link(a, 0) && b[0] == link(b, 0));
        } else {
            assert(a[n - 2] == b[n - 2]);
            assert(p.next(m, a[n - 2] as int) == link(a, n - 1));
            assert(p.next(m, b[n - 2] as int) == link(b, n - 1));
        }
    }
}

/// What is in a list behind its head.
pub proof fn lemma_in_rest(free: Seq<u32>, b: u32)
    requires
        free.len() > 0,
        free.no_duplicates(),
    ensures
        free.subrange(1, free.len() as int).contains(b) <==> free.contains(b) && b != free[0],
{
    let rest = free.subrange(1, free.len() as int);
    if rest.contains(b) {
        let i = choose|i: int| 0 <= i < rest.len() && rest[i] == b;
        assert(free[i + 1] == b);
    }
    if free.contains(b) && b != free[0] {
        let i = choose|i: int| 0 <= i < free.len() && free[i] == b;
        assert(rest[i - 1] == b);
    }
}

/// What is in a list with another head before it.
pub proof fn lemma_in_front(block: u32, free: Seq<u32>, b: u32)
    ensures
        (seq![block] + free).contains(b) <==> b == block || free.contains(b),
{
    let all = seq![block] + free;
    if b == block {
        assert(all[0] == b);
    }
    if free.contains(b) {
        let i = choose|i: int| 0 <= i < free.len() && free[i] == b;
        assert(all[i + 1] == b);
    }
    if all.contains(b) && b != block {
        let i = choose|i: int| 0 <= i < all.len() && all[i] == b;
        assert(free[i - 1] == b);
    }
}

/// Naming another block in a place of a sequence takes one occurrence of the
/// old block away and adds one of the new block.
pub proof fn lemma_renamed(s: Seq<u32>, k: int, block: u32, b: u32)
    requires
        0 <= k < s.len(),
    ensures
        s.update(k, block).to_multiset().count(b) == s.to_multiset().count(b) - (if s[k] == b {
            1int
        } else {
            0
        }) + (if b == block {
            1int
        } else {
            0
        }),
        s.to_multiset().count(s[k]) > 0,
{
    broadcast use vstd::seq_lib::group_to_multiset_ensures;

    let r = s.remove(k);
    assert(s.update(k, block) =~= r.insert(k, block));
    vstd::seq_lib::to_multiset_remove(s, k);
    vstd::seq_lib::to_multiset_insert(r, k, block);
    assert(s.contains(s[k]));
}

} // verus!
