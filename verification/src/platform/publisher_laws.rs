//! What a publisher has, and what becomes of the blocks that it lends.

use crate::memory::{self, SharedMemory};
use crate::platform::account_runs::{self, State};
use crate::platform::accounting;
use crate::platform::laws;
use crate::platform::shm::{self, ShmPublisher, Stock};
use crate::platform::subscription;
use crate::pod::Pod;
use crate::protocol::config::PubSubConfig;
use crate::protocol::header;
use crate::protocol::layout::{self, PINNED_WRITER_ACTIVE};
use crate::protocol::pool::{self, NO_BLOCK};
use crate::protocol::region;
use vstd::multiset::Multiset;
use vstd::prelude::*;

verus! {

broadcast use crate::memory::group_memory;

/// The blocks that a publisher has in stock: the warm one and those in its cache.
pub open spec fn stock_blocks(s: Stock) -> Seq<u32> {
    if s.warm == NO_BLOCK {
        s.cache
    } else {
        seq![s.warm] + s.cache
    }
}

/// All blocks that publishers have to themselves: the stock of this one, and
/// `others`.
pub open spec fn all_own(s: Stock, others: Set<u32>) -> Set<u32> {
    stock_blocks(s).to_set().union(others)
}

/// A publisher among others: every block is in one place. `others` are the
/// blocks that publishers have besides the stock of this one: those that are
/// lent or pinned, and the stocks of other publishers. `held` are the samples
/// that subscribers hold.
pub open spec fn in_order(
    c: PubSubConfig,
    s: Stock,
    free: Seq<u32>,
    others: Set<u32>,
    held: Multiset<u32>,
) -> bool {
    &&& accounting::accounted(c, s.image, free, all_own(s, others), held)
    &&& stock_blocks(s).no_duplicates()
    &&& forall|b: u32| #[trigger]
        stock_blocks(s).contains(b) ==> b < c.block_count && !others.contains(b)
    &&& forall|b: u32| #[trigger] others.contains(b) ==> b < c.block_count
}

/// A block is in use: lent, pinned or in the stock of another publisher, or a
/// sample that is in a ring or held.
pub open spec fn in_use(
    c: PubSubConfig,
    s: Stock,
    others: Set<u32>,
    held: Multiset<u32>,
    block: u32,
) -> bool {
    others.contains(block) || accounting::references(c, s.image, held, block) > 0
}

/// A publisher of a new segment has nothing, and every block is free.
pub proof fn law_new_publisher_is_in_order(c: PubSubConfig, m: Seq<u8>, pid: u64, now: u64)
    requires
        laws::segment(c, m),
    ensures
        in_order(
            c,
            Stock { image: header::created(c, m, pid, now), warm: NO_BLOCK, cache: Seq::empty() },
            layout::pool_of(c).full_list(),
            Set::empty(),
            Multiset::empty(),
        ),
{
    let s = Stock { image: header::created(c, m, pid, now), warm: NO_BLOCK, cache: Seq::empty() };
    accounting::law_created_is_accounted(c, m, pid, now);
    assert(all_own(s, Set::empty()) =~= Set::<u32>::empty());
}

/// A heartbeat moves no block.
pub proof fn law_heartbeat_keeps_order(
    c: PubSubConfig,
    s: Stock,
    free: Seq<u32>,
    others: Set<u32>,
    held: Multiset<u32>,
    now: u64,
)
    requires
        in_order(c, s, free, others, held),
    ensures
        in_order(
            c,
            Stock { image: shm::with_heartbeat(s.image, now), ..s },
            free,
            others,
            held,
        ),
{
    layout::lemma_layout(c);
    accounting::law_stores_elsewhere_keep_the_account(
        c,
        s.image,
        shm::with_heartbeat(s.image, now),
        free,
        all_own(s, others),
        held,
    );
}

/// Registering a topic moves no block, and the topic has no samples.
pub proof fn law_registration_keeps_order(
    c: PubSubConfig,
    s: Stock,
    free: Seq<u32>,
    others: Set<u32>,
    held: Multiset<u32>,
    topic: int,
    uri: Seq<u8>,
    type_size: u32,
)
    requires
        in_order(c, s, free, others, held),
        0 <= topic < c.max_topics,
        uri.len() <= layout::TE_URI_MAX,
    ensures
        in_order(
            c,
            Stock { image: shm::with_topic(s.image, topic, uri, type_size), ..s },
            free,
            others,
            held,
        ),
        region::write_seq(shm::with_topic(s.image, topic, uri, type_size), topic) == 0,
{
    layout::lemma_layout(c);
    layout::lemma_topic(c, topic);
    accounting::law_stores_elsewhere_keep_the_account(
        c,
        s.image,
        shm::with_topic(s.image, topic, uri, type_size),
        free,
        all_own(s, others),
        held,
    );
}

/// Taking a block from the pool into the cache.
pub proof fn lemma_one_taken(
    c: PubSubConfig,
    m: Seq<u8>,
    cache: Seq<u32>,
    free: Seq<u32>,
    others: Set<u32>,
    held: Multiset<u32>,
)
    requires
        in_order(c, Stock { image: m, warm: NO_BLOCK, cache }, free, others, held),
        free.len() > 0,
    ensures
        in_order(
            c,
            Stock {
                image: layout::pool_of(c).after_alloc(m),
                warm: NO_BLOCK,
                cache: cache.push(free[0]),
            },
            free.subrange(1, free.len() as int),
            others,
            held,
        ),
{
    let s = Stock { image: m, warm: NO_BLOCK, cache };
    let first = free[0];
    let t = Stock {
        image: layout::pool_of(c).after_alloc(m),
        warm: NO_BLOCK,
        cache: cache.push(first),
    };
    accounting::law_alloc_keeps_the_account(c, m, free, all_own(s, others), held);
    assert(!cache.contains(first)) by {
        if cache.contains(first) {
            assert(cache.to_set().contains(first));
        }
    }
    assert forall|b: u32| all_own(t, others).contains(b) <==> #[trigger] all_own(
        s,
        others,
    ).insert(first).contains(b) by {
        lemma_pushed(cache, first, b);
    }
    assert(all_own(t, others) =~= all_own(s, others).insert(first));
    assert forall|b: u32| #[trigger] stock_blocks(t).contains(b) implies b < c.block_count
        && !others.contains(b) by {
        lemma_pushed(cache, first, b);
        if cache.contains(b) {
            assert(stock_blocks(s).contains(b));
        }
    }
}

/// Filling the cache moves blocks from the free list into it.
proof fn lemma_refill(
    c: PubSubConfig,
    m: Seq<u8>,
    cache: Seq<u32>,
    free: Seq<u32>,
    others: Set<u32>,
    held: Multiset<u32>,
) -> (rest: Seq<u32>)
    requires
        in_order(c, Stock { image: m, warm: NO_BLOCK, cache }, free, others, held),
    ensures
        ({
            let (n, full) = shm::refilled(layout::pool_of(c), m, cache);
            &&& in_order(c, Stock { image: n, warm: NO_BLOCK, cache: full }, rest, others, held)
            &&& cache.len() == 0 ==> (full.len() > 0 <==> free.len() > 0)
            &&& free.len() == 0 ==> n == m && full == cache
            &&& full.len() >= cache.len()
        }),
    decreases shm::CACHE_SIZE - cache.len(),
{
    let p = layout::pool_of(c);
    layout::lemma_layout(c);
    pool::law_alloc_takes_the_head(p, m, free);
    if cache.len() >= shm::CACHE_SIZE || free.len() == 0 {
        free
    } else {
        lemma_one_taken(c, m, cache, free, others, held);
        lemma_refill(
            c,
            p.after_alloc(m),
            cache.push(free[0]),
            free.subrange(1, free.len() as int),
            others,
            held,
        )
    }
}

proof fn lemma_pushed(cache: Seq<u32>, x: u32, b: u32)
    ensures
        cache.push(x).contains(b) <==> cache.contains(b) || b == x,
        cache.push(x).to_set().contains(b) <==> cache.to_set().contains(b) || b == x,
{
    if cache.contains(b) {
        let i = choose|i: int| 0 <= i < cache.len() && cache[i] == b;
        assert(cache.push(x)[i] == b);
    }
    assert(cache.push(x)[cache.len() as int] == x);
    if cache.push(x).contains(b) && b != x {
        let i = choose|i: int| 0 <= i < cache.push(x).len() && cache.push(x)[i] == b;
        assert(cache[i] == b);
    }
}

/// A stock that lends its last block has one block less.
proof fn lemma_last_is_lent(
    c: PubSubConfig,
    s: Stock,
    free: Seq<u32>,
    others: Set<u32>,
    held: Multiset<u32>,
)
    requires
        in_order(c, s, free, others, held),
        s.warm == NO_BLOCK,
        s.cache.len() > 0,
    ensures
        in_order(
            c,
            Stock { cache: s.cache.drop_last(), ..s },
            free,
            others.insert(s.cache.last()),
            held,
        ),
{
    let b = s.cache.last();
    let less = s.cache.drop_last();
    let t = Stock { cache: less, ..s };
    assert(less.push(b) =~= s.cache);
    assert(s.cache[s.cache.len() - 1] == b);
    assert(stock_blocks(s).contains(b));
    assert(!less.contains(b)) by {
        if less.contains(b) {
            let i = choose|i: int| 0 <= i < less.len() && less[i] == b;
            assert(s.cache[i] == s.cache[s.cache.len() - 1]);
        }
    }
    assert forall|x: u32| all_own(t, others.insert(b)).contains(x) <==> #[trigger] all_own(
        s,
        others,
    ).contains(x) by {
        lemma_pushed(less, b, x);
    }
    assert(all_own(t, others.insert(b)) =~= all_own(s, others));
    assert forall|x: u32| #[trigger] stock_blocks(t).contains(x) implies x < c.block_count
        && !others.insert(b).contains(x) by {
        lemma_pushed(less, b, x);
        assert(stock_blocks(s).contains(x));
    }
}

/// A stock that lends its warm block has one block less.
proof fn lemma_warm_is_lent(
    c: PubSubConfig,
    s: Stock,
    free: Seq<u32>,
    others: Set<u32>,
    held: Multiset<u32>,
)
    requires
        in_order(c, s, free, others, held),
        s.warm != NO_BLOCK,
    ensures
        in_order(c, Stock { warm: NO_BLOCK, ..s }, free, others.insert(s.warm), held),
{
    let t = Stock { warm: NO_BLOCK, ..s };
    let all = stock_blocks(s);
    assert(all[0] == s.warm);
    assert(all.contains(s.warm));
    assert(!s.cache.contains(s.warm)) by {
        if s.cache.contains(s.warm) {
            let i = choose|i: int| 0 <= i < s.cache.len() && s.cache[i] == s.warm;
            assert(all[i + 1] == all[0]);
        }
    }
    assert(s.cache.no_duplicates()) by {
        assert forall|i: int, j: int|
            0 <= i < s.cache.len() && 0 <= j < s.cache.len() && i != j implies s.cache[i]
            != s.cache[j] by {
            assert(all[i + 1] == s.cache[i] && all[j + 1] == s.cache[j]);
        }
    }
    assert forall|x: u32| all_own(t, others.insert(s.warm)).contains(x) <==> #[trigger] all_own(
        s,
        others,
    ).contains(x) by {
        pool::lemma_in_front(s.warm, s.cache, x);
    }
    assert(all_own(t, others.insert(s.warm)) =~= all_own(s, others));
    assert forall|x: u32| #[trigger] stock_blocks(t).contains(x) implies x < c.block_count
        && !others.insert(s.warm).contains(x) by {
        pool::lemma_in_front(s.warm, s.cache, x);
        assert(stock_blocks(s).contains(x));
    }
}

/// What a loan does to a publisher: `lent` is the block that it takes, and
/// `after` and `rest` what is left of stock and free list. There is none exactly
/// when every block of the segment is in use, and then nothing changes.
pub open spec fn lends(
    c: PubSubConfig,
    s: Stock,
    free: Seq<u32>,
    others: Set<u32>,
    held: Multiset<u32>,
    lent: Option<u32>,
    after: Stock,
    rest: Seq<u32>,
) -> bool {
    &&& lent is None <==> forall|b: u32|
        b < c.block_count ==> #[trigger] in_use(c, s, others, held, b)
    &&& match lent {
        Some(b) => {
            &&& b < c.block_count
            &&& !in_use(c, s, others, held, b)
            &&& in_order(c, after, rest, others.insert(b), held)
        },
        None => after == s && rest == free,
    }
}

/// A loan takes a block that nobody uses, and nobody else has it until it is
/// published or given back. There is none exactly when every block of the
/// segment is in use.
pub proof fn law_loan_takes_an_unused_block(
    c: PubSubConfig,
    s: Stock,
    free: Seq<u32>,
    others: Set<u32>,
    held: Multiset<u32>,
) -> (rest: Seq<u32>)
    requires
        in_order(c, s, free, others, held),
    ensures
        lends(
            c,
            s,
            free,
            others,
            held,
            shm::taken(layout::pool_of(c), s).0,
            shm::taken(layout::pool_of(c), s).1,
            rest,
        ),
{
    if s.warm != NO_BLOCK {
        lemma_lends_warm(c, s, free, others, held);
        free
    } else if s.cache.len() > 0 {
        lemma_lends_cached(c, s, free, others, held);
        free
    } else {
        let rest = lemma_refill(c, s.image, s.cache, free, others, held);
        let (n, full) = shm::refilled(layout::pool_of(c), s.image, s.cache);
        lemma_lends_refilled(c, s, free, others, held, n, full, rest)
    }
}

proof fn lemma_lends_warm(
    c: PubSubConfig,
    s: Stock,
    free: Seq<u32>,
    others: Set<u32>,
    held: Multiset<u32>,
)
    requires
        in_order(c, s, free, others, held),
        s.warm != NO_BLOCK,
    ensures
        lends(c, s, free, others, held, Some(s.warm), Stock { warm: NO_BLOCK, ..s }, free),
{
    lemma_warm_is_lent(c, s, free, others, held);
    assert(stock_blocks(s)[0] == s.warm);
    assert(stock_blocks(s).contains(s.warm));
    lemma_available_is_unused(c, s, free, others, held, s.warm);
    assert(!in_use(c, s, others, held, s.warm));
}

proof fn lemma_lends_cached(
    c: PubSubConfig,
    s: Stock,
    free: Seq<u32>,
    others: Set<u32>,
    held: Multiset<u32>,
)
    requires
        in_order(c, s, free, others, held),
        s.warm == NO_BLOCK,
        s.cache.len() > 0,
    ensures
        lends(
            c,
            s,
            free,
            others,
            held,
            Some(s.cache.last()),
            Stock { cache: s.cache.drop_last(), ..s },
            free,
        ),
{
    let b = s.cache.last();
    lemma_last_is_lent(c, s, free, others, held);
    assert(stock_blocks(s)[s.cache.len() - 1] == b);
    assert(stock_blocks(s).contains(b));
    lemma_available_is_unused(c, s, free, others, held, b);
    assert(!in_use(c, s, others, held, b));
}

proof fn lemma_lends_refilled(
    c: PubSubConfig,
    s: Stock,
    free: Seq<u32>,
    others: Set<u32>,
    held: Multiset<u32>,
    n: Seq<u8>,
    full: Seq<u32>,
    rest: Seq<u32>,
) -> (left: Seq<u32>)
    requires
        in_order(c, s, free, others, held),
        s.warm == NO_BLOCK,
        s.cache.len() == 0,
        (n, full) == shm::refilled(layout::pool_of(c), s.image, s.cache),
        in_order(c, Stock { image: n, warm: NO_BLOCK, cache: full }, rest, others, held),
        full.len() > 0 <==> free.len() > 0,
        free.len() == 0 ==> n == s.image && full == s.cache,
    ensures
        full.len() > 0 ==> lends(
            c,
            s,
            free,
            others,
            held,
            Some(full.last()),
            Stock { image: n, warm: NO_BLOCK, cache: full.drop_last() },
            left,
        ),
        full.len() == 0 ==> lends(
            c,
            s,
            free,
            others,
            held,
            None,
            Stock { image: n, warm: NO_BLOCK, cache: full },
            left,
        ),
{
    let t = Stock { image: n, warm: NO_BLOCK, cache: full };
    if full.len() > 0 {
        let b = full.last();
        lemma_last_is_lent(c, t, rest, others, held);
        assert(stock_blocks(t)[full.len() - 1] == b);
        assert(full.contains(b));
        lemma_refilled_from_free(c, s.image, s.cache, free, others, held, b);
        assert(stock_blocks(t).contains(b));
        lemma_available_is_unused(c, s, free, others, held, b);
        assert(!in_use(c, s, others, held, b));
        rest
    } else {
        lemma_all_in_use(c, s, free, others, held);
        free
    }
}

/// A block in the stock, or in the pool, is not in use.
proof fn lemma_available_is_unused(
    c: PubSubConfig,
    s: Stock,
    free: Seq<u32>,
    others: Set<u32>,
    held: Multiset<u32>,
    b: u32,
)
    requires
        in_order(c, s, free, others, held),
        b < c.block_count,
        stock_blocks(s).contains(b) || free.contains(b),
    ensures
        !in_use(c, s, others, held, b),
{
    assert(accounting::placed(c, s.image, free, all_own(s, others), held, b));
    if stock_blocks(s).contains(b) {
        assert(stock_blocks(s).to_set().contains(b));
    }
    if others.contains(b) {
        assert(all_own(s, others).contains(b));
    }
}

/// With an empty stock and an empty pool every block is in use.
proof fn lemma_all_in_use(
    c: PubSubConfig,
    s: Stock,
    free: Seq<u32>,
    others: Set<u32>,
    held: Multiset<u32>,
)
    requires
        in_order(c, s, free, others, held),
        stock_blocks(s).len() == 0,
        free.len() == 0,
    ensures
        forall|b: u32| b < c.block_count ==> #[trigger] in_use(c, s, others, held, b),
{
    assert forall|b: u32| b < c.block_count implies #[trigger] in_use(c, s, others, held, b) by {
        assert(accounting::placed(c, s.image, free, all_own(s, others), held, b));
        assert(!stock_blocks(s).to_set().contains(b));
    }
}

/// What is in a cache that was filled was in it before, or free.
proof fn lemma_refilled_from_free(
    c: PubSubConfig,
    m: Seq<u8>,
    cache: Seq<u32>,
    free: Seq<u32>,
    others: Set<u32>,
    held: Multiset<u32>,
    b: u32,
)
    requires
        in_order(c, Stock { image: m, warm: NO_BLOCK, cache }, free, others, held),
        shm::refilled(layout::pool_of(c), m, cache).1.contains(b),
    ensures
        cache.contains(b) || free.contains(b),
    decreases shm::CACHE_SIZE - cache.len(),
{
    let p = layout::pool_of(c);
    layout::lemma_layout(c);
    pool::law_alloc_takes_the_head(p, m, free);
    if cache.len() < shm::CACHE_SIZE && free.len() > 0 {
        let first = free[0];
        let next = cache.push(first);
        let rest = free.subrange(1, free.len() as int);
        lemma_one_taken(c, m, cache, free, others, held);
        lemma_refilled_from_free(c, p.after_alloc(m), next, rest, others, held, b);
        lemma_pushed(cache, first, b);
        pool::lemma_in_rest(free, b);
        assert(free.contains(first));
    }
}

/// The blocks that publishers have are those of a state of the whole segment.
pub open spec fn state(s: Stock, free: Seq<u32>, others: Set<u32>, held: Multiset<u32>) -> State {
    State { image: s.image, free, own: all_own(s, others), held }
}

/// A block that is lent is fresh: no ring slot names it, and it is not the warm
/// block.
pub proof fn law_lent_block_is_fresh(
    c: PubSubConfig,
    s: Stock,
    free: Seq<u32>,
    others: Set<u32>,
    held: Multiset<u32>,
    topic: int,
    block: u32,
)
    requires
        in_order(c, s, free, others, held),
        others.contains(block),
        0 <= topic < c.max_topics,
    ensures
        laws::fresh_block(c, s.image, s.warm, topic, block),
        s.warm == NO_BLOCK || s.warm < c.block_count,
{
    if s.warm != NO_BLOCK {
        assert(stock_blocks(s)[0] == s.warm);
        assert(stock_blocks(s).contains(s.warm));
    }
    account_runs::law_own_block_is_fresh(c, state(s, free, others, held), s.warm, topic, block);
}

/// A loan that is given back sends nothing, and its block is available again:
/// topics, rings and data are what they were.
pub proof fn law_discarded_loan_comes_back(
    c: PubSubConfig,
    s: Stock,
    free: Seq<u32>,
    others: Set<u32>,
    held: Multiset<u32>,
    block: u32,
)
    requires
        in_order(c, s, free, others, held),
        others.contains(block),
    ensures
        ({
            let n = layout::pool_of(c).after_free(s.image, block);
            &&& in_order(
                c,
                Stock { image: n, ..s },
                seq![block] + free,
                others.remove(block),
                held,
            )
            &&& laws::has_other_count(c, s.image, n, block as int)
            &&& !in_use(c, Stock { image: n, ..s }, others.remove(block), held, block)
        }),
{
    let n = layout::pool_of(c).after_free(s.image, block);
    let t = Stock { image: n, ..s };
    accounting::law_free_keeps_the_account(c, s.image, free, all_own(s, others), held, block);
    account_runs::lemma_counts_only(c, s.image, block);
    assert(!stock_blocks(s).contains(block));
    assert(all_own(t, others.remove(block)) =~= all_own(s, others).remove(block));
    assert(accounting::placed(c, n, seq![block] + free, all_own(s, others).remove(block), held, block));
    assert((seq![block] + free)[0] == block);
}

/// Writing into a block that is lent moves no block, and leaves topics and rings
/// alone.
proof fn lemma_lent_block_is_written(
    c: PubSubConfig,
    s: Stock,
    free: Seq<u32>,
    others: Set<u32>,
    held: Multiset<u32>,
    block: u32,
    data: Seq<u8>,
)
    requires
        in_order(c, s, free, others, held),
        others.contains(block),
        data.len() <= region::capacity_of(c),
    ensures
        in_order(
            c,
            Stock { image: memory::put(s.image, region::data_off(c, block as int), data), ..s },
            free,
            others,
            held,
        ),
{
    let w = memory::put(s.image, region::data_off(c, block as int), data);
    accounting::law_write_keeps_the_account(
        c,
        s.image,
        free,
        all_own(s, others),
        held,
        block,
        0,
        data,
    );
    assert(all_own(Stock { image: w, ..s }, others) =~= all_own(s, others));
}

/// A publication moves the lent block to the ring, and the stock has the block
/// warm that it replaced there, if nobody refers to that any more.
proof fn lemma_lent_block_is_published(
    c: PubSubConfig,
    s: Stock,
    free: Seq<u32>,
    others: Set<u32>,
    held: Multiset<u32>,
    topic: int,
    block: u32,
    len: u32,
)
    requires
        in_order(c, s, free, others, held),
        others.contains(block),
        0 <= topic < c.max_topics,
    ensures
        ({
            let (n, warm) = region::after_commit(c, s.image, s.warm, topic, block, len);
            in_order(
                c,
                Stock { image: n, warm, cache: s.cache },
                accounting::free_after_publish(c, s.image, free, held, s.warm, topic),
                others.remove(block),
                held,
            )
        }),
{
    let (n, warm) = region::after_commit(c, s.image, s.warm, topic, block, len);
    let t = Stock { image: n, warm, cache: s.cache };
    let own = all_own(s, others);
    let old = accounting::replaced(c, s.image, topic);
    let less = others.remove(block);
    law_lent_block_is_fresh(c, s, free, others, held, topic, block);
    if s.warm != NO_BLOCK {
        assert(stock_blocks(s)[0] == s.warm);
        assert(stock_blocks(s).contains(s.warm));
    }
    assert(!stock_blocks(s).contains(block));
    accounting::law_publish_keeps_the_account(
        c,
        s.image,
        free,
        own,
        held,
        s.warm,
        topic,
        block,
        len,
    );
    if accounting::takes_the_last(c, s.image, held, topic) {
        assert(accounting::placed(c, s.image, free, own, held, old));
        assert(!own.contains(old));
        assert(!stock_blocks(s).contains(old)) by {
            if stock_blocks(s).contains(old) {
                assert(stock_blocks(s).to_set().contains(old));
            }
        }
        lemma_warm_is_replaced(c, s, others, old, block, n);
    } else {
        assert(all_own(t, less) =~= own.remove(block));
        assert forall|b: u32| #[trigger] stock_blocks(t).contains(b) implies b < c.block_count
            && !less.contains(b) by {
            assert(stock_blocks(s).contains(b));
        }
    }
}

/// A stock with another warm block.
proof fn lemma_warm_is_replaced(
    c: PubSubConfig,
    s: Stock,
    others: Set<u32>,
    old: u32,
    block: u32,
    n: Seq<u8>,
)
    requires
        stock_blocks(s).no_duplicates(),
        forall|b: u32| #[trigger]
            stock_blocks(s).contains(b) ==> b < c.block_count && !others.contains(b),
        forall|b: u32| #[trigger] others.contains(b) ==> b < c.block_count,
        others.contains(block),
        old < c.block_count,
        !stock_blocks(s).contains(old),
        !others.contains(old),
        s.warm == NO_BLOCK || s.warm < c.block_count,
    ensures
        ({
            let t = Stock { image: n, warm: old, cache: s.cache };
            let less = others.remove(block);
            &&& all_own(t, less) == all_own(s, others).remove(block).remove(s.warm).insert(old)
            &&& stock_blocks(t).no_duplicates()
            &&& forall|b: u32| #[trigger]
                stock_blocks(t).contains(b) ==> b < c.block_count && !less.contains(b)
        }),
{
    let t = Stock { image: n, warm: old, cache: s.cache };
    let less = others.remove(block);
    let all = stock_blocks(s);
    let now = stock_blocks(t);
    assert(now =~= seq![old] + s.cache);
    assert forall|b: u32| s.cache.contains(b) implies all.contains(b) && b != s.warm by {
        let i = choose|i: int| 0 <= i < s.cache.len() && s.cache[i] == b;
        if s.warm != NO_BLOCK {
            pool::lemma_in_front(s.warm, s.cache, b);
            assert(all[i + 1] == b);
            assert(all[0] == s.warm);
        }
    }
    assert(s.cache.no_duplicates()) by {
        if s.warm != NO_BLOCK {
            assert forall|i: int, j: int|
                0 <= i < s.cache.len() && 0 <= j < s.cache.len() && i != j implies s.cache[i]
                != s.cache[j] by {
                assert(all[i + 1] == s.cache[i] && all[j + 1] == s.cache[j]);
            }
        }
    }
    assert(now.no_duplicates()) by {
        assert forall|i: int, j: int|
            0 <= i < now.len() && 0 <= j < now.len() && i != j implies now[i] != now[j] by {
            if i == 0 {
                assert(s.cache[j - 1] == now[j]);
                assert(s.cache.contains(now[j]));
            } else if j == 0 {
                assert(s.cache[i - 1] == now[i]);
                assert(s.cache.contains(now[i]));
            } else {
                assert(s.cache[i - 1] == now[i] && s.cache[j - 1] == now[j]);
            }
        }
    }
    assert forall|b: u32| #[trigger] now.contains(b) implies b < c.block_count && !less.contains(
        b,
    ) by {
        pool::lemma_in_front(old, s.cache, b);
        if b != old {
            assert(s.cache.contains(b));
            assert(all.contains(b));
        }
    }
    assert(!all.contains(block));
    assert forall|b: u32| all_own(t, less).contains(b) <==> #[trigger] all_own(s, others).remove(
        block,
    ).remove(s.warm).insert(old).contains(b) by {
        pool::lemma_in_front(old, s.cache, b);
        if s.warm != NO_BLOCK {
            pool::lemma_in_front(s.warm, s.cache, b);
            assert(all[0] == s.warm);
            assert(all.contains(s.warm));
        }
    }
    assert(all_own(t, less) =~= all_own(s, others).remove(block).remove(s.warm).insert(old));
}

/// What is received of a topic whose newest sample a publisher wrote: the bytes
/// that it wrote, whole, once, and on no other topic.
pub open spec fn is_delivered(
    c: PubSubConfig,
    m: Seq<u8>,
    n: Seq<u8>,
    topic: int,
    block: u32,
    data: Seq<u8>,
) -> bool {
    let last = region::write_seq(m, topic);
    let seq = (last + 1) as u64;
    &&& region::write_seq(n, topic) == seq
    &&& subscription::next_readable(c, n, topic, last) == Some(seq)
    &&& region::ring_block(c, n, topic, layout::slot_of(c, seq)) == block
    &&& region::ring_len(c, n, topic, layout::slot_of(c, seq)) == data.len()
    &&& account_runs::sample(c, n, topic, seq) == data
    &&& subscription::next_readable(c, n, topic, seq) is None
    &&& forall|t: int|
        0 <= t < c.max_topics && t != topic ==> #[trigger] region::write_seq(n, t)
            == region::write_seq(m, t)
}

/// The bytes that a publisher writes into a block that it has lent, and
/// publishes, are what a subscriber who was up to date receives, exactly once.
/// The block does not go back to the pool, and everything else stays in order.
pub proof fn law_published_bytes_are_received(
    c: PubSubConfig,
    s: Stock,
    free: Seq<u32>,
    others: Set<u32>,
    held: Multiset<u32>,
    topic: int,
    block: u32,
    data: Seq<u8>,
) -> (rest: Seq<u32>)
    requires
        in_order(c, s, free, others, held),
        others.contains(block),
        0 <= topic < c.max_topics,
        data.len() <= region::capacity_of(c),
        region::write_seq(s.image, topic) < u64::MAX,
    ensures
        ({
            let w = memory::put(s.image, region::data_off(c, block as int), data);
            let (n, warm) = region::after_commit(c, w, s.warm, topic, block, data.len() as u32);
            &&& is_delivered(c, s.image, n, topic, block, data)
            &&& in_order(
                c,
                Stock { image: n, warm, cache: s.cache },
                rest,
                others.remove(block),
                held,
            )
            &&& !rest.contains(block)
        }),
{
    let w = memory::put(s.image, region::data_off(c, block as int), data);
    let written = Stock { image: w, ..s };
    let (n, warm) = region::after_commit(c, w, s.warm, topic, block, data.len() as u32);
    law_lent_block_is_fresh(c, s, free, others, held, topic, block);
    laws::law_data_round_trip(c, s.image, s.warm, topic, block, data);
    lemma_lent_block_is_written(c, s, free, others, held, block, data);
    law_lent_block_is_fresh(c, written, free, others, held, topic, block);
    laws::law_publish_effect(c, w, s.warm, topic, block, data.len() as u32);
    account_runs::lemma_write_effect(c, s.image, block, 0, data);
    lemma_lent_block_is_published(
        c,
        written,
        free,
        others,
        held,
        topic,
        block,
        data.len() as u32,
    );
    let rest = accounting::free_after_publish(c, w, free, held, s.warm, topic);
    let t = Stock { image: n, warm, cache: s.cache };
    let seq = region::next_seq(s.image, topic);
    assert(region::next_seq(w, topic) == seq);
    layout::lemma_layout(c);
    if rest.contains(block) {
        account_runs::law_own_block_is_in_no_ring(
            c,
            state(t, rest, others.remove(block), held),
            block,
            topic,
            layout::slot_of(c, seq),
        );
    }
    rest
}

/// The value that a publisher sends in a block that it has lent is the value that
/// a subscriber who was up to date gets, exactly once: as a value of the type, or
/// as a sample of as many bytes as the type has.
pub proof fn law_published_value_is_received<T: Pod>(
    c: PubSubConfig,
    s: Stock,
    free: Seq<u32>,
    others: Set<u32>,
    held: Multiset<u32>,
    topic: int,
    block: u32,
    value: T,
    got: T,
) -> (rest: Seq<u32>)
    requires
        in_order(c, s, free, others, held),
        others.contains(block),
        0 <= topic < c.max_topics,
        T::size() <= region::capacity_of(c),
        region::write_seq(s.image, topic) < u64::MAX,
        ({
            let w = memory::put(s.image, region::data_off(c, block as int), value.encode());
            let n = region::after_commit(c, w, s.warm, topic, block, T::size() as u32).0;
            let seq = region::next_seq(s.image, topic);
            got.encode() == account_runs::sample(c, n, topic, seq)
        }),
    ensures
        ({
            let w = memory::put(s.image, region::data_off(c, block as int), value.encode());
            let (n, warm) = region::after_commit(c, w, s.warm, topic, block, T::size() as u32);
            &&& is_delivered(c, s.image, n, topic, block, value.encode())
            &&& value.encode().len() == T::size()
            &&& in_order(
                c,
                Stock { image: n, warm, cache: s.cache },
                rest,
                others.remove(block),
                held,
            )
        }),
        got == value,
{
    value.encode_size();
    let rest = law_published_bytes_are_received(
        c,
        s,
        free,
        others,
        held,
        topic,
        block,
        value.encode(),
    );
    T::encode_injective(got, value);
    rest
}

/// Filling the cache keeps the pinned blocks.
proof fn lemma_refill_keeps_pins(c: PubSubConfig, m: Seq<u8>, cache: Seq<u32>, pins: Seq<u32>)
    requires
        laws::segment(c, m),
        pins.len() == c.max_topics,
        shm::pins_agree(m, pins),
    ensures
        shm::pins_agree(shm::refilled(layout::pool_of(c), m, cache).0, pins),
        shm::refilled(layout::pool_of(c), m, cache).0.len() == m.len(),
    decreases shm::CACHE_SIZE - cache.len(),
{
    let p = layout::pool_of(c);
    layout::lemma_layout(c);
    if cache.len() < shm::CACHE_SIZE {
        match p.alloc_choice(m) {
            None => {},
            Some(idx) => {
                shm::lemma_pins_kept(c, m, p.after_alloc(m), pins);
                lemma_refill_keeps_pins(c, p.after_alloc(m), cache.push(idx), pins);
            },
        }
    }
}

/// Lending a block keeps the pinned blocks.
pub proof fn lemma_loan_keeps_pins(c: PubSubConfig, s: Stock, pins: Seq<u32>)
    requires
        laws::segment(c, s.image),
        pins.len() == c.max_topics,
        shm::pins_agree(s.image, pins),
    ensures
        shm::pins_agree(shm::taken(layout::pool_of(c), s).1.image, pins),
        laws::segment(c, shm::taken(layout::pool_of(c), s).1.image),
{
    lemma_refill_keeps_pins(c, s.image, s.cache, pins);
}

/// A heartbeat keeps the pinned blocks.
pub proof fn lemma_heartbeat_keeps_pins(c: PubSubConfig, m: Seq<u8>, now: u64, pins: Seq<u32>)
    requires
        laws::segment(c, m),
        pins.len() == c.max_topics,
        shm::pins_agree(m, pins),
    ensures
        shm::pins_agree(shm::with_heartbeat(m, now), pins),
        laws::segment(c, shm::with_heartbeat(m, now)),
{
    layout::lemma_layout(c);
    shm::lemma_pins_kept(c, m, shm::with_heartbeat(m, now), pins);
}

/// Giving a block back keeps the pinned blocks.
pub proof fn lemma_discard_keeps_pins(c: PubSubConfig, m: Seq<u8>, block: u32, pins: Seq<u32>)
    requires
        laws::segment(c, m),
        pins.len() == c.max_topics,
        shm::pins_agree(m, pins),
    ensures
        shm::pins_agree(layout::pool_of(c).after_free(m, block), pins),
{
    layout::lemma_layout(c);
    if block < c.block_count {
        region::lemma_block_parts(c, block as int);
    }
    shm::lemma_pins_kept(c, m, layout::pool_of(c).after_free(m, block), pins);
}

/// Writing data and publishing it keeps the pinned blocks.
pub proof fn lemma_publish_keeps_pins(
    c: PubSubConfig,
    m: Seq<u8>,
    warm: u32,
    topic: int,
    block: u32,
    data: Seq<u8>,
    pins: Seq<u32>,
)
    requires
        laws::segment(c, m),
        warm == NO_BLOCK || warm < c.block_count,
        0 <= topic < c.max_topics,
        block < c.block_count,
        data.len() <= region::capacity_of(c),
        pins.len() == c.max_topics,
        shm::pins_agree(m, pins),
    ensures
        ({
            let w = memory::put(m, region::data_off(c, block as int), data);
            shm::pins_agree(
                region::after_commit(c, w, warm, topic, block, data.len() as u32).0,
                pins,
            )
        }),
{
    let w = memory::put(m, region::data_off(c, block as int), data);
    layout::lemma_layout(c);
    region::lemma_block_parts(c, block as int);
    shm::lemma_pins_kept(c, m, w, pins);
    lemma_commit_keeps_pins(c, w, warm, topic, block, data.len() as u32, pins);
}

/// Publishing keeps the pinned blocks.
proof fn lemma_commit_keeps_pins(
    c: PubSubConfig,
    m: Seq<u8>,
    warm: u32,
    topic: int,
    block: u32,
    len: u32,
    pins: Seq<u32>,
)
    requires
        laws::segment(c, m),
        warm == NO_BLOCK || warm < c.block_count,
        0 <= topic < c.max_topics,
        block < c.block_count,
        pins.len() == c.max_topics,
        shm::pins_agree(m, pins),
    ensures
        shm::pins_agree(region::after_commit(c, m, warm, topic, block, len).0, pins),
{
    let seq = region::next_seq(m, topic);
    let slot = layout::slot_of(c, seq);
    let old = region::ring_block(c, m, topic, slot);
    let e = layout::ring_off(c, topic, slot);
    let at = layout::topic_off(topic) + layout::TE_WRITE_SEQ;
    let r = region::refcount_off(c, block as int);
    let k = region::with_entry(c, m, topic, block, len);
    layout::lemma_layout(c);
    layout::lemma_ring(c, topic, slot);
    region::lemma_block_parts(c, block as int);
    shm::lemma_topic_store_keeps_pins(
        c,
        m,
        topic,
        layout::TE_WRITE_SEQ as int,
        memory::le64(seq),
        pins,
    );
    let m1 = memory::put(m, at, memory::le64(seq));
    shm::lemma_back_store_keeps_pins(c, m1, r, memory::le32(1), pins);
    let m2 = memory::put(m1, r, memory::le32(1));
    shm::lemma_back_store_keeps_pins(c, m2, e + layout::RE_BLOCK_IDX, memory::le32(block), pins);
    let m3 = memory::put(m2, e + layout::RE_BLOCK_IDX, memory::le32(block));
    shm::lemma_back_store_keeps_pins(c, m3, e + layout::RE_DATA_LEN, memory::le32(len), pins);
    let m4 = memory::put(m3, e + layout::RE_DATA_LEN, memory::le32(len));
    shm::lemma_back_store_keeps_pins(c, m4, e + layout::RE_SEQ, memory::le64(seq), pins);
    lemma_recycle_keeps_pins(c, k, warm, old, pins);
}

/// Letting a block go keeps the pinned blocks.
proof fn lemma_recycle_keeps_pins(
    c: PubSubConfig,
    m: Seq<u8>,
    warm: u32,
    block: u32,
    pins: Seq<u32>,
)
    requires
        laws::segment(c, m),
        warm == NO_BLOCK || warm < c.block_count,
        pins.len() == c.max_topics,
        shm::pins_agree(m, pins),
    ensures
        shm::pins_agree(region::after_recycle(c, m, warm, block).0, pins),
{
    layout::lemma_layout(c);
    laws::lemma_recycle_frame(c, m, warm, block);
    shm::lemma_pins_kept(c, m, region::after_recycle(c, m, warm, block).0, pins);
}

/// A pinned loan is of the block that the entry of the topic names, on the first
/// such loan and on every other.
pub proof fn law_pinned_loan_is_of_the_named_block<M: SharedMemory>(
    p: ShmPublisher<M>,
    topic: int,
)
    requires
        p.wf(),
        p.region.mem.exclusive(),
        0 <= topic < p.region.config.max_topics,
    ensures
        p.pinned(topic).0 matches Some(b) ==> {
            let n = memory::put32(
                p.pinned(topic).1.image,
                layout::topic_off(topic) + layout::TE_PINNED_READERS,
                PINNED_WRITER_ACTIVE,
            );
            &&& region::pinned_block_of(n, topic) == b
            &&& shm::pins_agree(n, p.pinned_blocks@.update(topic, b))
        },
{
    let c = p.region.config;
    let pins = p.pinned_blocks@;
    layout::lemma_layout(c);
    layout::lemma_topic(c, topic);
    lemma_loan_keeps_pins(c, p.stock(), pins);
    match p.pinned(topic).0 {
        Some(b) => {
            let now = pins.update(topic, b);
            let s = p.pinned(topic).1;
            if pins[topic] != NO_BLOCK {
                assert(now =~= pins);
            } else {
                lemma_pin_is_set(
                    c,
                    shm::taken(layout::pool_of(c), p.stock()).1.image,
                    topic,
                    b,
                    pins,
                );
            }
            shm::lemma_topic_store_keeps_pins(
                c,
                s.image,
                topic,
                layout::TE_PINNED_READERS as int,
                memory::le32(PINNED_WRITER_ACTIVE),
                now,
            );
            assert(now[topic] == b);
            lemma_pinned_block_named(c, s.image, topic, b);
        },
        None => {},
    }
}

/// Marking the readers leaves the name of the pinned block alone.
proof fn lemma_pinned_block_named(c: PubSubConfig, m: Seq<u8>, topic: int, b: u32)
    requires
        laws::segment(c, m),
        0 <= topic < c.max_topics,
        region::pinned_block_of(m, topic) == b,
    ensures
        region::pinned_block_of(
            memory::put32(
                m,
                layout::topic_off(topic) + layout::TE_PINNED_READERS,
                PINNED_WRITER_ACTIVE,
            ),
            topic,
        ) == b,
{
    layout::lemma_layout(c);
    layout::lemma_topic(c, topic);
}

/// Naming a block in the entry of a topic keeps the others.
#[verifier::rlimit(40)]
proof fn lemma_pin_is_set(c: PubSubConfig, m: Seq<u8>, topic: int, b: u32, pins: Seq<u32>)
    requires
        laws::segment(c, m),
        0 <= topic < c.max_topics,
        pins.len() == c.max_topics,
        shm::pins_agree(m, pins),
    ensures
        ({
            let n = memory::put32(m, layout::topic_off(topic) + layout::TE_PINNED_BLOCK, b);
            &&& n.len() == m.len()
            &&& region::pinned_block_of(n, topic) == b
            &&& shm::pins_agree(n, pins.update(topic, b))
        }),
{
    let n = memory::put32(m, layout::topic_off(topic) + layout::TE_PINNED_BLOCK, b);
    let now = pins.update(topic, b);
    layout::lemma_layout(c);
    layout::lemma_topic(c, topic);
    assert forall|t: int| 0 <= t < now.len() && #[trigger] now[t] != NO_BLOCK implies
        region::pinned_block_of(n, t) == now[t] by {
        layout::lemma_topic(c, t);
        shm::lemma_topics_apart(t, topic);
        if t != topic {
            assert(now[t] == pins[t]);
            assert(region::pinned_block_of(m, t) == pins[t]);
            let o = layout::topic_off(t) + layout::TE_PINNED_BLOCK;
            assert(n[o] == m[o] && n[o + 1] == m[o + 1] && n[o + 2] == m[o + 2] && n[o + 3]
                == m[o + 3]);
        }
    }
}

/// What is written in a pinned block and published is what a subscriber reads
/// there, once, that has not seen its number: its bytes, from the block that the
/// publisher wrote, since that is the one that the topic names. Nobody writes or
/// reads the block then, so that the publisher may write it again.
pub proof fn law_pinned_bytes_are_received(
    c: PubSubConfig,
    m: Seq<u8>,
    pins: Seq<u32>,
    topic: int,
    data: Seq<u8>,
    last: u64,
)
    requires
        laws::segment(c, m),
        0 <= topic < c.max_topics,
        pins.len() == c.max_topics,
        pins[topic] < c.block_count,
        shm::pins_agree(m, pins),
        data.len() <= region::capacity_of(c),
        region::write_seq(m, topic) < u32::MAX,
        last <= region::write_seq(m, topic),
    ensures
        ({
            let block = pins[topic] as int;
            let w = memory::put(m, region::data_off(c, block), data);
            let n = memory::put32(
                region::after_commit_pinned(w, topic, data.len() as u32),
                layout::topic_off(topic) + layout::TE_PINNED_READERS,
                0,
            );
            &&& region::write_seq(n, topic) == region::write_seq(m, topic) + 1
            &&& region::pinned_readers_of(n, topic) == 0
            &&& subscription::pinned_readable(c, n, topic, last)
            &&& subscription::pinned_number(region::pinned_seq_of(n, topic)) == region::write_seq(
                n,
                topic,
            )
            &&& pool::idx_of(region::pinned_seq_of(n, topic)) == data.len()
            &&& region::pinned_block_of(n, topic) == block
            &&& region::block_data(c, n, block, data.len() as int) == data
            &&& !subscription::pinned_readable(c, n, topic, region::write_seq(n, topic))
            &&& shm::pins_agree(n, pins)
        }),
{
    let block = pins[topic] as int;
    let w = memory::put(m, region::data_off(c, block), data);
    let len = data.len() as u32;
    layout::lemma_layout(c);
    layout::lemma_topic(c, topic);
    region::lemma_block_parts(c, block);
    shm::lemma_pins_kept(c, m, w, pins);
    assert(region::pinned_block_of(w, topic) == pins[topic]);
    let seq = region::next_seq(w, topic);
    assert(seq == region::write_seq(m, topic) + 1);
    assert(seq % 0x1_0000_0000 == seq);
    laws::law_pinned_publish_then_receive(c, w, topic, len, last);
    pool::law_pack_unpack(seq as u32, len, 0);
    assert(region::block_data(c, w, block, data.len() as int) =~= data);
    lemma_pinned_keeps_pins(c, w, topic, len, pins);
}

/// Publishing a pinned block keeps the pinned blocks.
pub proof fn lemma_pinned_keeps_pins(
    c: PubSubConfig,
    m: Seq<u8>,
    topic: int,
    len: u32,
    pins: Seq<u32>,
)
    requires
        laws::segment(c, m),
        0 <= topic < c.max_topics,
        pins.len() == c.max_topics,
        shm::pins_agree(m, pins),
    ensures
        shm::pins_agree(
            memory::put32(
                region::after_commit_pinned(m, topic, len),
                layout::topic_off(topic) + layout::TE_PINNED_READERS,
                0,
            ),
            pins,
        ),
{
    let seq = region::next_seq(m, topic);
    let off = layout::topic_off(topic);
    let word = memory::le64(pool::packed((seq % 0x1_0000_0000) as u32, len));
    let count = memory::le64(seq);
    shm::lemma_topic_store_keeps_pins(c, m, topic, layout::TE_WRITE_SEQ as int, count, pins);
    let m1 = memory::put(m, off + layout::TE_WRITE_SEQ, count);
    shm::lemma_topic_store_keeps_pins(c, m1, topic, layout::TE_PINNED_SEQ as int, word, pins);
    let m2 = memory::put(m1, off + layout::TE_PINNED_SEQ, word);
    shm::lemma_topic_store_keeps_pins(
        c,
        m2,
        topic,
        layout::TE_PINNED_READERS as int,
        memory::le32(0),
        pins,
    );
}

} // verus!
