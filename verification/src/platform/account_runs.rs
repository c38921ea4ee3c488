//! What holds over any number of operations on a segment, by any number of
//! publishers and subscribers.
//!
//! A history is a sequence of states, each of which comes from the one before by
//! an action of some party. A state is the contents of the segment, together
//! with where its blocks are.

use crate::memory;
use crate::platform::accounting;
use crate::platform::laws;
use crate::platform::subscription;
use crate::protocol::config::PubSubConfig;
use crate::protocol::layout;
use crate::protocol::pool::NO_BLOCK;
use crate::protocol::region;
use vstd::multiset::Multiset;
use vstd::prelude::*;

verus! {

broadcast use crate::memory::group_memory;

/// A segment, and where its blocks are.
#[verifier::ext_equal]
pub struct State {
    /// The contents of the segment.
    pub image: Seq<u8>,
    /// The free list.
    pub free: Seq<u32>,
    /// The blocks that publishers have to themselves.
    pub own: Set<u32>,
    /// The blocks that subscribers hold, as often as they hold them.
    pub held: Multiset<u32>,
}

/// Every block is where the state says.
pub open spec fn in_order(c: PubSubConfig, s: State) -> bool {
    accounting::accounted(c, s.image, s.free, s.own, s.held)
}

/// What a party does.
pub enum Action {
    /// A publisher takes a block from the pool.
    Take,
    /// A publisher gives a block back to the pool.
    GiveBack { block: u32 },
    /// A publisher writes into a block that it has.
    Write { block: u32, off: int, data: Seq<u8> },
    /// A publisher publishes a block that it has.
    Publish { topic: int, block: u32, len: u32, warm: u32 },
    /// A subscriber takes a reference to a block that is referred to.
    Receive { block: u32 },
    /// A subscriber lets a reference go.
    Release { block: u32 },
    /// Something is stored in the header or the topic table.
    Elsewhere,
}

/// The action can be done in a state, and leads to another one.
pub open spec fn acts(c: PubSubConfig, s: State, a: Action, t: State) -> bool {
    let p = layout::pool_of(c);
    match a {
        Action::Take => {
            &&& s.free.len() > 0
            &&& t == State {
                image: p.after_alloc(s.image),
                free: s.free.subrange(1, s.free.len() as int),
                own: s.own.insert(s.free[0]),
                held: s.held,
            }
        },
        Action::GiveBack { block } => {
            &&& block < c.block_count
            &&& s.own.contains(block)
            &&& t == State {
                image: p.after_free(s.image, block),
                free: seq![block] + s.free,
                own: s.own.remove(block),
                held: s.held,
            }
        },
        Action::Write { block, off, data } => {
            &&& block < c.block_count
            &&& s.own.contains(block)
            &&& 0 <= off
            &&& off + data.len() <= region::capacity_of(c)
            &&& t == State {
                image: memory::put(s.image, region::data_off(c, block as int) + off, data),
                ..s
            }
        },
        Action::Publish { topic, block, len, warm } => {
            &&& 0 <= topic < c.max_topics
            &&& block < c.block_count
            &&& len <= region::capacity_of(c)
            &&& s.own.contains(block)
            &&& warm == NO_BLOCK || (warm < c.block_count && s.own.contains(warm) && warm != block)
            &&& t == State {
                image: region::after_commit(c, s.image, warm, topic, block, len).0,
                free: accounting::free_after_publish(c, s.image, s.free, s.held, warm, topic),
                own: accounting::own_after_publish(
                    c,
                    s.image,
                    s.own,
                    s.held,
                    warm,
                    topic,
                    block,
                ),
                held: s.held,
            }
        },
        Action::Receive { block } => {
            &&& block < c.block_count
            &&& accounting::references(c, s.image, s.held, block) > 0
            &&& region::refcount(c, s.image, block as int) < u32::MAX
            &&& t == State {
                image: subscription::after_acquire(c, s.image, block),
                held: s.held.insert(block),
                ..s
            }
        },
        Action::Release { block } => {
            &&& block < c.block_count
            &&& s.held.contains(block)
            &&& t == State {
                image: region::after_release(c, s.image, block),
                free: if accounting::references(c, s.image, s.held, block) == 1 {
                    seq![block] + s.free
                } else {
                    s.free
                },
                own: s.own,
                held: s.held.remove(block),
            }
        },
        Action::Elsewhere => {
            &&& t == State { image: t.image, ..s }
            &&& t.image.len() == s.image.len()
            &&& forall|i: int| p.head <= i < p.head + 8 ==> #[trigger] t.image[i] == s.image[i]
            &&& forall|i: int|
                layout::ring_base_spec(c) <= i < s.image.len() ==> #[trigger] t.image[i]
                    == s.image[i]
        },
    }
}

/// An action, and the states before and after it.
pub open spec fn goes_on(
    c: PubSubConfig,
    states: Seq<State>,
    actions: Seq<Action>,
    i: int,
) -> bool {
    acts(c, states[i], actions[i], states[i + 1])
}

/// A history.
pub open spec fn is_history(c: PubSubConfig, states: Seq<State>, actions: Seq<Action>) -> bool {
    &&& states.len() == actions.len() + 1
    &&& in_order(c, states[0])
    &&& forall|i: int| 0 <= i < actions.len() ==> #[trigger] goes_on(c, states, actions, i)
}

/// An action leaves every block where the next state says.
pub proof fn law_action_keeps_order(c: PubSubConfig, s: State, a: Action, t: State)
    requires
        in_order(c, s),
        acts(c, s, a, t),
    ensures
        in_order(c, t),
{
    match a {
        Action::Take => {
            accounting::law_alloc_keeps_the_account(c, s.image, s.free, s.own, s.held);
        },
        Action::GiveBack { block } => {
            accounting::law_free_keeps_the_account(c, s.image, s.free, s.own, s.held, block);
        },
        Action::Write { block, off, data } => {
            accounting::law_write_keeps_the_account(
                c,
                s.image,
                s.free,
                s.own,
                s.held,
                block,
                off,
                data,
            );
        },
        Action::Publish { topic, block, len, warm } => {
            accounting::law_publish_keeps_the_account(
                c,
                s.image,
                s.free,
                s.own,
                s.held,
                warm,
                topic,
                block,
                len,
            );
        },
        Action::Receive { block } => {
            accounting::law_acquire_keeps_the_account(c, s.image, s.free, s.own, s.held, block);
        },
        Action::Release { block } => {
            accounting::law_release_keeps_the_account(c, s.image, s.free, s.own, s.held, block);
        },
        Action::Elsewhere => {
            accounting::law_stores_elsewhere_keep_the_account(
                c,
                s.image,
                t.image,
                s.free,
                s.own,
                s.held,
            );
        },
    }
}

/// Over a whole history every block is where the state says.
pub proof fn law_history_keeps_order(
    c: PubSubConfig,
    states: Seq<State>,
    actions: Seq<Action>,
    n: int,
)
    requires
        is_history(c, states, actions),
        0 <= n < states.len(),
    ensures
        in_order(c, states[n]),
    decreases n,
{
    if n > 0 {
        law_history_keeps_order(c, states, actions, n - 1);
        assert(goes_on(c, states, actions, n - 1));
        law_action_keeps_order(c, states[n - 1], actions[n - 1], states[n]);
    }
}

/// A block that a publisher has to itself is named by no ring slot.
pub proof fn law_own_block_is_in_no_ring(
    c: PubSubConfig,
    s: State,
    block: u32,
    topic: int,
    slot: int,
)
    requires
        in_order(c, s),
        block < c.block_count,
        s.own.contains(block) || s.free.contains(block),
        0 <= topic < c.max_topics,
        0 <= slot < c.ring_depth,
    ensures
        region::ring_block(c, s.image, topic, slot) != block,
        !s.held.contains(block),
{
    assert(accounting::placed(c, s.image, s.free, s.own, s.held, block));
    if region::ring_block(c, s.image, topic, slot) == block {
        accounting::lemma_named_is_referenced(c, s.image, s.held, topic, slot);
    }
}

/// A block that a publisher has to itself is fresh: it may be published on any
/// topic, beside any other block that it has.
pub proof fn law_own_block_is_fresh(
    c: PubSubConfig,
    s: State,
    warm: u32,
    topic: int,
    block: u32,
)
    requires
        in_order(c, s),
        block < c.block_count,
        s.own.contains(block),
        warm != block,
        0 <= topic < c.max_topics,
    ensures
        laws::fresh_block(c, s.image, warm, topic, block),
{
    layout::lemma_layout(c);
    let slot = layout::slot_of(c, region::next_seq(s.image, topic));
    law_own_block_is_in_no_ring(c, s, block, topic, slot);
}

/// Two segments differ at most in the list head, and in the link and the
/// reference count of one block.
spec fn touches_link(c: PubSubConfig, m: Seq<u8>, n: Seq<u8>, block: int) -> bool {
    let p = layout::pool_of(c);
    &&& n.len() == m.len()
    &&& forall|i: int|
        0 <= i < m.len() && !(p.head <= i < p.head + 8) && !(p.block(block) <= i < p.block(block)
            + 8) ==> #[trigger] n[i] == m[i]
}

/// Such segments have the same topics, rings and data.
proof fn lemma_touches_link(c: PubSubConfig, m: Seq<u8>, n: Seq<u8>, block: int)
    requires
        laws::segment(c, m),
        0 <= block < c.block_count,
        touches_link(c, m, n, block),
    ensures
        laws::has_other_count(c, m, n, block),
{
    let p = layout::pool_of(c);
    layout::lemma_layout(c);
    region::lemma_block_parts(c, block);
    assert forall|t: int, s: int| 0 <= t < c.max_topics && 0 <= s < c.ring_depth implies {
        &&& #[trigger] region::ring_seq(c, n, t, s) == region::ring_seq(c, m, t, s)
        &&& region::ring_block(c, n, t, s) == region::ring_block(c, m, t, s)
        &&& region::ring_len(c, n, t, s) == region::ring_len(c, m, t, s)
    } by {
        layout::lemma_ring(c, t, s);
    }
    assert forall|t: int| 0 <= t < c.max_topics implies #[trigger] region::write_seq(n, t)
        == region::write_seq(m, t) by {
        layout::lemma_topic(c, t);
    }
    assert forall|b: int, l: int|
        0 <= b < c.block_count && 0 <= l <= region::capacity_of(
            c,
        ) implies #[trigger] region::block_data(c, n, b, l) == region::block_data(c, m, b, l) by {
        region::lemma_block_parts(c, b);
        laws::lemma_apart(p, b, block);
        assert(region::block_data(c, n, b, l) =~= region::block_data(c, m, b, l));
    }
    assert forall|b: int| 0 <= b < c.block_count && b != block implies #[trigger] region::refcount(
        c,
        n,
        b,
    ) == region::refcount(c, m, b) by {
        region::lemma_block_parts(c, b);
        laws::lemma_apart(p, b, block);
    }
}

/// Taking, giving back, receiving and releasing change no topics, rings or data.
pub proof fn lemma_counts_only(c: PubSubConfig, m: Seq<u8>, block: u32)
    requires
        laws::segment(c, m),
        block < c.block_count,
    ensures
        laws::has_other_count(c, m, layout::pool_of(c).after_alloc(m), block as int),
        laws::has_other_count(c, m, layout::pool_of(c).after_free(m, block), block as int),
        laws::has_other_count(c, m, subscription::after_acquire(c, m, block), block as int),
        laws::has_other_count(c, m, region::after_release(c, m, block), block as int),
{
    let p = layout::pool_of(c);
    let b = block as int;
    layout::lemma_layout(c);
    region::lemma_block_parts(c, b);
    assert(touches_link(c, m, p.after_alloc(m), b));
    lemma_touches_link(c, m, p.after_alloc(m), b);
    assert(touches_link(c, m, p.after_free(m, block), b));
    lemma_touches_link(c, m, p.after_free(m, block), b);
    assert(touches_link(c, m, subscription::after_acquire(c, m, block), b));
    lemma_touches_link(c, m, subscription::after_acquire(c, m, block), b);
    assert(touches_link(c, m, region::after_release(c, m, block), b));
    lemma_touches_link(c, m, region::after_release(c, m, block), b);
}

/// Writing data changes no topics and rings, and no data of other blocks.
pub proof fn lemma_write_effect(c: PubSubConfig, m: Seq<u8>, block: u32, off: int, data: Seq<u8>)
    requires
        laws::segment(c, m),
        block < c.block_count,
        0 <= off,
        off + data.len() <= region::capacity_of(c),
    ensures
        ({
            let n = memory::put(m, region::data_off(c, block as int) + off, data);
            &&& same_rings(c, m, n)
            &&& forall|t: int|
                0 <= t < c.max_topics ==> #[trigger] region::write_seq(n, t) == region::write_seq(
                    m,
                    t,
                )
            &&& forall|b: int, l: int|
                0 <= b < c.block_count && b != block && 0 <= l <= region::capacity_of(c)
                    ==> #[trigger] region::block_data(c, n, b, l) == region::block_data(c, m, b, l)
        }),
{
    let n = memory::put(m, region::data_off(c, block as int) + off, data);
    layout::lemma_layout(c);
    region::lemma_block_parts(c, block as int);
    lemma_same_rings(c, m, n);
    assert forall|t: int| 0 <= t < c.max_topics implies #[trigger] region::write_seq(n, t)
        == region::write_seq(m, t) by {
        layout::lemma_topic(c, t);
    }
    assert forall|b: int, l: int|
        0 <= b < c.block_count && b != block && 0 <= l <= region::capacity_of(
            c,
        ) implies #[trigger] region::block_data(c, n, b, l) == region::block_data(c, m, b, l) by {
        region::lemma_block_parts(c, b);
        laws::lemma_apart(layout::pool_of(c), b, block as int);
        assert(region::block_data(c, n, b, l) =~= region::block_data(c, m, b, l));
    }
}

/// Two segments have the same ring slots.
pub open spec fn same_rings(c: PubSubConfig, m: Seq<u8>, n: Seq<u8>) -> bool {
    forall|t: int, s: int|
        0 <= t < c.max_topics && 0 <= s < c.ring_depth ==> {
            &&& #[trigger] region::ring_seq(c, n, t, s) == region::ring_seq(c, m, t, s)
            &&& region::ring_block(c, n, t, s) == region::ring_block(c, m, t, s)
            &&& region::ring_len(c, n, t, s) == region::ring_len(c, m, t, s)
        }
}

/// Ring slots depend on their bytes.
proof fn lemma_same_rings(c: PubSubConfig, m: Seq<u8>, n: Seq<u8>)
    requires
        laws::segment(c, m),
        m.len() == n.len(),
        forall|i: int|
            layout::ring_base_spec(c) <= i < layout::pool_off(c) ==> #[trigger] n[i] == m[i],
    ensures
        same_rings(c, m, n),
{
    layout::lemma_layout(c);
    assert forall|t: int, s: int| 0 <= t < c.max_topics && 0 <= s < c.ring_depth implies {
        &&& #[trigger] region::ring_seq(c, n, t, s) == region::ring_seq(c, m, t, s)
        &&& region::ring_block(c, n, t, s) == region::ring_block(c, m, t, s)
        &&& region::ring_len(c, n, t, s) == region::ring_len(c, m, t, s)
    } by {
        layout::lemma_ring(c, t, s);
    }
}

/// A store elsewhere changes no rings and no data.
proof fn lemma_elsewhere_effect(c: PubSubConfig, m: Seq<u8>, n: Seq<u8>)
    requires
        laws::segment(c, m),
        m.len() == n.len(),
        forall|i: int| layout::ring_base_spec(c) <= i < m.len() ==> #[trigger] n[i] == m[i],
    ensures
        same_rings(c, m, n),
        forall|b: int, l: int|
            0 <= b < c.block_count && 0 <= l <= region::capacity_of(c)
                ==> #[trigger] region::block_data(c, n, b, l) == region::block_data(c, m, b, l),
{
    layout::lemma_layout(c);
    lemma_same_rings(c, m, n);
    assert forall|b: int, l: int|
        0 <= b < c.block_count && 0 <= l <= region::capacity_of(
            c,
        ) implies #[trigger] region::block_data(c, n, b, l) == region::block_data(c, m, b, l) by {
        region::lemma_block_parts(c, b);
        assert(region::block_data(c, n, b, l) =~= region::block_data(c, m, b, l));
    }
}

/// The action publishes on a topic.
pub open spec fn publishes_on(a: Action, t: int) -> bool {
    a matches Action::Publish { topic, .. } && topic == t
}

/// An action leaves the data of a block alone that somebody refers to. It leaves
/// the ring of a topic alone, and its newest number, unless it publishes there or
/// stores in the topic table.
pub proof fn lemma_action_keeps(
    c: PubSubConfig,
    s: State,
    a: Action,
    t: State,
    block: u32,
    len: int,
    topic: int,
    slot: int,
)
    requires
        in_order(c, s),
        acts(c, s, a, t),
        0 <= topic < c.max_topics,
        0 <= slot < c.ring_depth,
    ensures
        block < c.block_count && 0 <= len <= region::capacity_of(c) && accounting::references(
            c,
            s.image,
            s.held,
            block,
        ) > 0 ==> region::block_data(c, t.image, block as int, len) == region::block_data(
            c,
            s.image,
            block as int,
            len,
        ),
        !publishes_on(a, topic) || slot != layout::slot_of(c, region::next_seq(s.image, topic))
            ==> {
            &&& region::ring_seq(c, t.image, topic, slot) == region::ring_seq(
                c,
                s.image,
                topic,
                slot,
            )
            &&& region::ring_block(c, t.image, topic, slot) == region::ring_block(
                c,
                s.image,
                topic,
                slot,
            )
            &&& region::ring_len(c, t.image, topic, slot) == region::ring_len(
                c,
                s.image,
                topic,
                slot,
            )
        },
        !publishes_on(a, topic) && !(a is Elsewhere) ==> region::write_seq(t.image, topic)
            == region::write_seq(s.image, topic),
{
    if block < c.block_count {
        assert(accounting::placed(c, s.image, s.free, s.own, s.held, block));
    }
    match a {
        Action::Take => {
            layout::lemma_layout(c);
            lemma_counts_only(c, s.image, 0);
        },
        Action::GiveBack { block: other } => {
            lemma_counts_only(c, s.image, other);
        },
        Action::Write { block: other, off, data } => {
            lemma_write_effect(c, s.image, other, off, data);
        },
        Action::Publish { topic: on, block: other, len: l, warm } => {
            law_own_block_is_fresh(c, s, warm, on, other);
            laws::law_publish_effect(c, s.image, warm, on, other, l);
        },
        Action::Receive { block: other } => {
            lemma_counts_only(c, s.image, other);
        },
        Action::Release { block: other } => {
            lemma_counts_only(c, s.image, other);
        },
        Action::Elsewhere => {
            lemma_elsewhere_effect(c, s.image, t.image);
        },
    }
}

/// A sample that is held keeps its bytes over any number of actions, of
/// publications that overwrite its ring slot too: its block is neither free nor
/// lent, and so is not written to, until it is let go.
pub proof fn law_held_sample_keeps_its_bytes(
    c: PubSubConfig,
    states: Seq<State>,
    actions: Seq<Action>,
    block: u32,
    len: int,
    n: int,
)
    requires
        is_history(c, states, actions),
        0 <= n < states.len(),
        block < c.block_count,
        0 <= len <= region::capacity_of(c),
        forall|i: int| 0 <= i <= n ==> (#[trigger] states[i]).held.contains(block),
    ensures
        region::block_data(c, states[n].image, block as int, len) == region::block_data(
            c,
            states[0].image,
            block as int,
            len,
        ),
        !states[n].free.contains(block),
        !states[n].own.contains(block),
    decreases n,
{
    law_history_keeps_order(c, states, actions, n);
    let s = states[n];
    assert(s.held.contains(block));
    assert(accounting::placed(c, s.image, s.free, s.own, s.held, block));
    if n > 0 {
        law_held_sample_keeps_its_bytes(c, states, actions, block, len, n - 1);
        law_history_keeps_order(c, states, actions, n - 1);
        assert(goes_on(c, states, actions, n - 1));
        assert(states[n - 1].held.contains(block));
        layout::lemma_layout(c);
        lemma_action_keeps(c, states[n - 1], actions[n - 1], s, block, len, 0, 0);
    }
}

/// A sample that somebody refers to goes back to the pool, or to a publisher,
/// exactly when the last reference goes.
pub proof fn law_block_goes_back_with_the_last_reference(
    c: PubSubConfig,
    s: State,
    block: u32,
    a: Action,
    t: State,
)
    requires
        in_order(c, s),
        acts(c, s, a, t),
        block < c.block_count,
        accounting::references(c, s.image, s.held, block) > 0,
    ensures
        (t.free.contains(block) || t.own.contains(block)) <==> accounting::references(
            c,
            t.image,
            t.held,
            block,
        ) == 0,
        !(t.free.contains(block) && t.own.contains(block)),
        t.free.no_duplicates(),
{
    law_action_keeps_order(c, s, a, t);
    assert(accounting::placed(c, t.image, t.free, t.own, t.held, block));
}

/// What was published on a topic by the first `n` actions of a history, in order.
pub open spec fn sent(
    c: PubSubConfig,
    states: Seq<State>,
    actions: Seq<Action>,
    topic: int,
    n: nat,
) -> Seq<Seq<u8>>
    decreases n,
{
    if n == 0 {
        Seq::empty()
    } else {
        let before = sent(c, states, actions, topic, (n - 1) as nat);
        match actions[n - 1] {
            Action::Publish { topic: on, block, len, .. } => if on == topic {
                before.push(
                    region::block_data(c, states[n - 1].image, block as int, len as int),
                )
            } else {
                before
            },
            _ => before,
        }
    }
}

/// The sample of a sequence number, as its ring slot names it.
pub open spec fn sample(c: PubSubConfig, m: Seq<u8>, topic: int, seq: u64) -> Seq<u8> {
    let slot = layout::slot_of(c, seq);
    region::block_data(
        c,
        m,
        region::ring_block(c, m, topic, slot) as int,
        region::ring_len(c, m, topic, slot) as int,
    )
}

/// The sample of a sequence number is in the ring.
pub open spec fn in_ring(c: PubSubConfig, m: Seq<u8>, topic: int, seq: int, data: Seq<u8>) -> bool {
    let slot = layout::slot_of(c, seq as u64);
    &&& region::ring_seq(c, m, topic, slot) == seq
    &&& region::ring_block(c, m, topic, slot) < c.block_count
    &&& region::ring_len(c, m, topic, slot) <= region::capacity_of(c)
    &&& sample(c, m, topic, seq as u64) == data
}

/// No topic is registered anew in the entry of a topic.
pub open spec fn stays_registered(
    c: PubSubConfig,
    states: Seq<State>,
    actions: Seq<Action>,
    topic: int,
) -> bool {
    forall|i: int|
        0 <= i < actions.len() && #[trigger] actions[i] is Elsewhere ==> region::write_seq(
            states[i + 1].image,
            topic,
        ) == region::write_seq(states[i].image, topic)
}

/// The first numbers of a ring have slots of their own.
pub proof fn lemma_slots_differ(c: PubSubConfig, a: int, b: int)
    requires
        1 <= a < b <= c.ring_depth,
    ensures
        layout::slot_of(c, a as u64) != layout::slot_of(c, b as u64),
        0 <= layout::slot_of(c, a as u64) < c.ring_depth,
        0 <= layout::slot_of(c, b as u64) < c.ring_depth,
{
    let d = c.ring_depth as int;
    vstd::arithmetic::div_mod::lemma_small_mod(a as nat, d as nat);
    if b < d {
        vstd::arithmetic::div_mod::lemma_small_mod(b as nat, d as nat);
    } else {
        vstd::arithmetic::div_mod::lemma_mod_self_0(d);
    }
}

/// One action more keeps the messages that are in the ring.
pub proof fn lemma_message_stays(
    c: PubSubConfig,
    s: State,
    a: Action,
    t: State,
    topic: int,
    seq: int,
    data: Seq<u8>,
)
    requires
        in_order(c, s),
        acts(c, s, a, t),
        0 <= topic < c.max_topics,
        in_ring(c, s.image, topic, seq, data),
        0 <= layout::slot_of(c, seq as u64) < c.ring_depth,
        !publishes_on(a, topic) || layout::slot_of(c, seq as u64) != layout::slot_of(
            c,
            region::next_seq(s.image, topic),
        ),
    ensures
        in_ring(c, t.image, topic, seq, data),
{
    let slot = layout::slot_of(c, seq as u64);
    let block = region::ring_block(c, s.image, topic, slot);
    let len = region::ring_len(c, s.image, topic, slot) as int;
    accounting::lemma_named_is_referenced(c, s.image, s.held, topic, slot);
    lemma_action_keeps(c, s, a, t, block, len, topic, slot);
}

/// A publication puts its message in the ring.
proof fn lemma_message_enters(
    c: PubSubConfig,
    s: State,
    a: Action,
    t: State,
    topic: int,
    block: u32,
    len: u32,
    warm: u32,
)
    requires
        in_order(c, s),
        a == (Action::Publish { topic, block, len, warm }),
        acts(c, s, a, t),
    ensures
        region::write_seq(t.image, topic) == region::next_seq(s.image, topic),
        in_ring(
            c,
            t.image,
            topic,
            region::next_seq(s.image, topic) as int,
            region::block_data(c, s.image, block as int, len as int),
        ),
{
    law_own_block_is_fresh(c, s, warm, topic, block);
    laws::law_publish_effect(c, s.image, warm, topic, block, len);
}

#[verifier::rlimit(40)]
proof fn lemma_messages(
    c: PubSubConfig,
    states: Seq<State>,
    actions: Seq<Action>,
    topic: int,
    n: nat,
)
    requires
        is_history(c, states, actions),
        stays_registered(c, states, actions, topic),
        0 <= topic < c.max_topics,
        region::write_seq(states[0].image, topic) == 0,
        n < states.len(),
        sent(c, states, actions, topic, n).len() <= c.ring_depth,
    ensures
        ({
            let all = sent(c, states, actions, topic, n);
            let m = states[n as int].image;
            &&& region::write_seq(m, topic) == all.len()
            &&& forall|j: int|
                1 <= j <= all.len() ==> #[trigger] in_ring(c, m, topic, j, all[j - 1])
        }),
    decreases n,
{
    if n > 0 {
        let k = (n - 1) as nat;
        let before = sent(c, states, actions, topic, k);
        let all = sent(c, states, actions, topic, n);
        lemma_messages(c, states, actions, topic, k);
        law_history_keeps_order(c, states, actions, k as int);
        assert(goes_on(c, states, actions, k as int));
        let s = states[k as int];
        let a = actions[k as int];
        let t = states[n as int];
        assert(before.len() <= all.len());
        layout::lemma_layout(c);
        lemma_action_keeps(c, s, a, t, 0, 0, topic, 0);
        if publishes_on(a, topic) {
            match a {
                Action::Publish { topic: on, block, len, warm } => {
                    lemma_message_enters(c, s, a, t, topic, block, len, warm);
                },
                _ => {},
            }
            assert(region::next_seq(s.image, topic) == before.len() + 1);
        }
        assert forall|j: int| 1 <= j <= all.len() implies #[trigger] in_ring(
            c,
            t.image,
            topic,
            j,
            all[j - 1],
        ) by {
            if j <= before.len() {
                assert(in_ring(c, s.image, topic, j, before[j - 1]));
                lemma_slot_exists(c, j as u64);
                if publishes_on(a, topic) {
                    lemma_slots_differ(c, j, before.len() as int + 1);
                }
                lemma_message_stays(c, s, a, t, topic, j, before[j - 1]);
            }
        }
    }
}

/// Every number has a slot.
pub proof fn lemma_slot_exists(c: PubSubConfig, seq: u64)
    requires
        c.ring_depth >= 1,
    ensures
        0 <= layout::slot_of(c, seq) < c.ring_depth,
{
}

/// Messages come out in order, each once. After a history in which as many
/// messages were sent on a topic as its ring has room for, or fewer, a receiver
/// that has received the first `j` of them gets the next one, with the bytes that
/// were sent; and once it has received all there is nothing more. That holds for
/// a receiver that comes after they were sent, and begins with none.
pub proof fn law_messages_come_in_order(
    c: PubSubConfig,
    states: Seq<State>,
    actions: Seq<Action>,
    topic: int,
    j: u64,
)
    requires
        is_history(c, states, actions),
        stays_registered(c, states, actions, topic),
        0 <= topic < c.max_topics,
        region::write_seq(states[0].image, topic) == 0,
        sent(c, states, actions, topic, actions.len()).len() <= c.ring_depth,
        forall|b: int|
            0 <= b < c.block_count ==> #[trigger] region::refcount(c, states.last().image, b)
                < u32::MAX,
    ensures
        ({
            let all = sent(c, states, actions, topic, actions.len());
            let m = states.last().image;
            &&& j < all.len() ==> subscription::next_readable(c, m, topic, j) == Some(
                (j + 1) as u64,
            ) && sample(c, m, topic, (j + 1) as u64) == all[j as int]
            &&& j >= all.len() ==> subscription::next_readable(c, m, topic, j) is None
        }),
{
    let n = actions.len();
    let all = sent(c, states, actions, topic, n);
    let m = states.last().image;
    lemma_messages(c, states, actions, topic, n);
    law_history_keeps_order(c, states, actions, n as int);
    if j < all.len() {
        let next = (j + 1) as u64;
        layout::lemma_layout(c);
        lemma_slot_exists(c, next);
        let slot = layout::slot_of(c, next);
        let s = states.last();
        assert(in_ring(c, m, topic, next as int, all[next - 1]));
        let block = region::ring_block(c, m, topic, slot);
        accounting::lemma_named_is_referenced(c, m, s.held, topic, slot);
        assert(accounting::placed(c, m, s.free, s.own, s.held, block));
        assert(region::refcount(c, m, block as int) < u32::MAX);
        assert(subscription::readable(c, m, topic, next));
    }
}

} // verus!
