//! A pool that several parties take from and give to at the same time.
//!
//! A run is a sequence of images of a segment, each of which comes from the one
//! before by a store of some party. A party that takes or gives a block reads
//! the list head at one moment, and exchanges it at a later one, if it is still
//! the same. That it is the same could hide that others changed the list in
//! between; the generation in the head word rules that out.

use crate::memory::{self, Access, Accesses};
use crate::protocol::pool::{self, PoolLayout};
use vstd::prelude::*;

verus! {

broadcast use crate::memory::group_memory;

/// The word that holds the list head and its generation.
pub open spec fn head_word(p: PoolLayout, m: Seq<u8>) -> u64 {
    memory::u64_at(m, p.head as int)
}

/// One store: the list stays as it is, or it changes and the generation counts
/// on.
pub open spec fn step(p: PoolLayout, m: Seq<u8>, a: Seq<u32>, n: Seq<u8>, b: Seq<u32>) -> bool {
    &&& n.len() == m.len()
    &&& p.is_free_list(n, b)
    &&& {
        ||| head_word(p, n) == head_word(p, m) && b == a
        ||| p.generation(n) == memory::wrapping_sum_u32(p.generation(m), 1)
    }
}

/// An image and its list, and the ones after them.
pub open spec fn goes_on(
    p: PoolLayout,
    images: Seq<Seq<u8>>,
    lists: Seq<Seq<u32>>,
    i: int,
) -> bool {
    step(p, images[i], lists[i], images[i + 1], lists[i + 1])
}

/// A run.
pub open spec fn run(p: PoolLayout, images: Seq<Seq<u8>>, lists: Seq<Seq<u32>>) -> bool {
    &&& images.len() == lists.len()
    &&& images.len() >= 1
    &&& p.fits(images[0].len())
    &&& p.is_free_list(images[0], lists[0])
    &&& forall|i: int| 0 <= i < images.len() - 1 ==> #[trigger] goes_on(p, images, lists, i)
}

/// The list changes in a step.
pub open spec fn changes(p: PoolLayout, images: Seq<Seq<u8>>, lists: Seq<Seq<u32>>, i: int) -> bool {
    !(head_word(p, images[i + 1]) == head_word(p, images[i]) && lists[i + 1] == lists[i])
}

/// How often the list changes between two moments.
pub open spec fn change_count(
    p: PoolLayout,
    images: Seq<Seq<u8>>,
    lists: Seq<Seq<u32>>,
    i: int,
    j: int,
) -> int
    decreases j - i,
{
    if j <= i {
        0
    } else {
        change_count(p, images, lists, i, j - 1) + if changes(p, images, lists, j - 1) {
            1int
        } else {
            0int
        }
    }
}

/// Images of a run have the same size, and a free list each.
proof fn lemma_sound(p: PoolLayout, images: Seq<Seq<u8>>, lists: Seq<Seq<u32>>, i: int)
    requires
        run(p, images, lists),
        0 <= i < images.len(),
    ensures
        images[i].len() == images[0].len(),
        p.is_free_list(images[i], lists[i]),
    decreases i,
{
    if i > 0 {
        lemma_sound(p, images, lists, i - 1);
        assert(goes_on(p, images, lists, i - 1));
    }
}

/// The generation counts the changes.
#[verifier::rlimit(40)]
proof fn lemma_generation_counts(
    p: PoolLayout,
    images: Seq<Seq<u8>>,
    lists: Seq<Seq<u32>>,
    i: int,
    j: int,
)
    requires
        run(p, images, lists),
        0 <= i <= j < images.len(),
    ensures
        0 <= change_count(p, images, lists, i, j) <= j - i,
        p.generation(images[j]) as int == (p.generation(images[i]) + change_count(
            p,
            images,
            lists,
            i,
            j,
        )) % 0x1_0000_0000,
    decreases j - i,
{
    if i < j {
        lemma_generation_counts(p, images, lists, i, j - 1);
        assert(goes_on(p, images, lists, j - 1));
    }
}

/// Without a change the list is the same.
proof fn lemma_no_change(
    p: PoolLayout,
    images: Seq<Seq<u8>>,
    lists: Seq<Seq<u32>>,
    i: int,
    t: int,
    j: int,
)
    requires
        run(p, images, lists),
        0 <= i <= t <= j < images.len(),
        change_count(p, images, lists, i, j) == 0,
    ensures
        lists[t] == lists[i],
        head_word(p, images[t]) == head_word(p, images[i]),
    decreases j - i,
{
    if i < j {
        lemma_generation_counts(p, images, lists, i, j - 1);
        if t < j {
            lemma_no_change(p, images, lists, i, t, j - 1);
        } else {
            lemma_no_change(p, images, lists, i, j - 1, j - 1);
        }
    }
}

/// A count that comes back to where it was, and does not go all the way round,
/// has not moved.
proof fn lemma_wraps(g: int, n: int)
    requires
        0 <= g < 0x1_0000_0000,
        0 <= n < 0x1_0000_0000,
        g == (g + n) % 0x1_0000_0000,
    ensures
        n == 0,
{
}

/// No change is overlooked: if the head word is the same at two moments that
/// fewer than four billion stores lie between, then the list was the same all
/// the time.
pub proof fn law_same_head_means_same_list(
    p: PoolLayout,
    images: Seq<Seq<u8>>,
    lists: Seq<Seq<u32>>,
    i: int,
    t: int,
    j: int,
)
    requires
        run(p, images, lists),
        0 <= i <= t <= j < images.len(),
        j - i < 0x1_0000_0000,
        head_word(p, images[i]) == head_word(p, images[j]),
    ensures
        lists[t] == lists[i],
        head_word(p, images[t]) == head_word(p, images[i]),
{
    lemma_generation_counts(p, images, lists, i, j);
    lemma_wraps(p.generation(images[i]) as int, change_count(p, images, lists, i, j));
    lemma_no_change(p, images, lists, i, t, j);
}

/// Taking a block is atomic: a party that reads the head at one moment and the
/// link of the first block at another, and exchanges the head for that link at
/// a third because it is still the same, does to the segment what taking a
/// block at that third moment does.
pub proof fn law_taking_is_atomic(
    p: PoolLayout,
    images: Seq<Seq<u8>>,
    lists: Seq<Seq<u32>>,
    i: int,
    t: int,
    j: int,
)
    requires
        run(p, images, lists),
        0 <= i <= t <= j < images.len(),
        j - i < 0x1_0000_0000,
        head_word(p, images[i]) == head_word(p, images[j]),
        lists[i].len() > 0,
    ensures
        ({
            let first = p.first(images[i]);
            &&& p.alloc_choice(images[j]) == Some(first)
            &&& first == lists[j][0]
            &&& p.with_head(images[j], p.next(images[t], first as int)) == p.after_alloc(images[j])
            &&& p.is_free_list(
                p.after_alloc(images[j]),
                lists[j].subrange(1, lists[j].len() as int),
            )
        }),
{
    law_same_head_means_same_list(p, images, lists, i, t, j);
    law_same_head_means_same_list(p, images, lists, i, j, j);
    lemma_sound(p, images, lists, i);
    lemma_sound(p, images, lists, t);
    lemma_sound(p, images, lists, j);
    pool::law_alloc_takes_the_head(p, images[j], lists[j]);
    assert(p.next(images[t], lists[t][0] as int) == pool::link(lists[t], 1));
    assert(p.next(images[j], lists[j][0] as int) == pool::link(lists[j], 1));
}

/// Giving a block back is atomic: a party that links its block to the first one
/// of the list as it was at one moment, and exchanges the head for its block at
/// a later one because it is still the same, does to the segment what giving
/// the block back at that later moment does.
#[verifier::rlimit(40)]
pub proof fn law_giving_is_atomic(
    p: PoolLayout,
    images: Seq<Seq<u8>>,
    lists: Seq<Seq<u32>>,
    i: int,
    j: int,
    block: u32,
)
    requires
        run(p, images, lists),
        0 <= i <= j < images.len(),
        j - i < 0x1_0000_0000,
        head_word(p, images[i]) == head_word(p, images[j]),
        block < p.block_count,
        !lists[j].contains(block),
        p.next(images[j], block as int) == p.first(images[i]),
    ensures
        p.with_head(images[j], block) == p.after_free(images[j], block),
        p.is_free_list(p.after_free(images[j], block), seq![block] + lists[j]),
{
    let m = images[j];
    lemma_sound(p, images, lists, j);
    pool::law_free_pushes_the_head(p, m, lists[j], block);
    pool::lemma_bounds(p, m.len());
    pool::lemma_block(p, block as int, m.len());
    memory::lemma_le32_of_u32_at(m, p.block(block as int));
    let n = memory::put32(m, p.block(block as int), p.first(m));
    assert forall|x: int| 0 <= x < m.len() implies n[x] == m[x] by {
        let off = p.block(block as int);
        if off <= x < off + 4 {
            assert(memory::bytes_at(m, off, 4)[x - off] == m[x]);
        }
    }
    assert(n =~= m);
}

/// The exchange that comes about when a block is taken is a taking of the first
/// block: it exchanges the head word that its party had read, of which it is
/// told that it is still there, for the link of that block as the party read it
/// in between.
pub proof fn law_done_exchange_takes_a_block(
    p: PoolLayout,
    images: Seq<Seq<u8>>,
    lists: Seq<Seq<u32>>,
    i: int,
    t: int,
    j: int,
    s: Access,
)
    requires
        run(p, images, lists),
        0 <= i <= t <= j < images.len(),
        j - i < 0x1_0000_0000,
        p.tries_take(s, true),
        s->Exchange64_current == head_word(p, images[i]),
        s->Exchange64_current == head_word(p, images[j]),
        pool::idx_of(s->Exchange64_new) == p.next(images[t], p.first(images[i]) as int),
    ensures
        p.alloc_choice(images[j]) == Some(pool::idx_of(s->Exchange64_current)),
        memory::after_access(images[j], s) == p.after_alloc(images[j]),
        lists[j].len() > 0,
        p.is_free_list(
            memory::after_access(images[j], s),
            lists[j].subrange(1, lists[j].len() as int),
        ),
{
    lemma_sound(p, images, lists, i);
    assert(p.first(images[i]) == pool::link(lists[i], 0));
    assert(lists[i].len() > 0);
    law_taking_is_atomic(p, images, lists, i, t, j);
    law_same_head_means_same_list(p, images, lists, i, j, j);
    pool::law_pack_unpack(0, 0, s->Exchange64_new);
}

/// The exchange that comes about when a block is given back is a giving back of
/// that block.
pub proof fn law_done_exchange_gives_a_block(
    p: PoolLayout,
    images: Seq<Seq<u8>>,
    lists: Seq<Seq<u32>>,
    i: int,
    j: int,
    ops: Accesses,
    block: u32,
)
    requires
        run(p, images, lists),
        0 <= i <= j < images.len(),
        j - i < 0x1_0000_0000,
        block < p.block_count,
        p.gives(ops, block),
        ops.last()->Exchange64_current == head_word(p, images[i]),
        ops.last()->Exchange64_current == head_word(p, images[j]),
        !lists[j].contains(block),
        p.next(images[j], block as int) == ops[ops.len() - 2]->Word32_v,
    ensures
        memory::after_access(images[j], ops.last()) == p.after_free(images[j], block),
        p.is_free_list(
            memory::after_access(images[j], ops.last()),
            seq![block] + lists[j],
        ),
{
    law_giving_is_atomic(p, images, lists, i, j, block);
}

/// Taking a block is a step, and so is giving one back.
pub proof fn law_taking_and_giving_are_steps(
    p: PoolLayout,
    m: Seq<u8>,
    list: Seq<u32>,
    block: u32,
)
    requires
        p.fits(m.len()),
        p.is_free_list(m, list),
        block < p.block_count,
        !list.contains(block),
    ensures
        list.len() > 0 ==> step(
            p,
            m,
            list,
            p.after_alloc(m),
            list.subrange(1, list.len() as int),
        ),
        step(p, m, list, p.after_free(m, block), seq![block] + list),
{
    pool::law_alloc_takes_the_head(p, m, list);
    pool::law_free_pushes_the_head(p, m, list, block);
    pool::lemma_bounds(p, m.len());
    pool::lemma_block(p, block as int, m.len());
    let n = memory::put32(m, p.block(block as int), p.first(m));
    let gen = memory::wrapping_sum_u32(p.generation(m), 1);
    pool::law_pack_unpack(gen, block, 0);
    assert(p.generation(n) == p.generation(m));
    if list.len() > 0 {
        pool::law_pack_unpack(gen, p.next(m, list[0] as int), 0);
    }
}

} // verus!
