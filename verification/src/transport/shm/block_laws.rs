//! What an exchange does to the free list of the pool.

use crate::memory;
use crate::protocol::laws as segment_laws;
use crate::protocol::pool;
use crate::transport::headers;
use crate::transport::shm::exchange;
use crate::transport::shm::laws;
use crate::transport::shm::region::{
    self, ShmConfig, GLOBAL_HEADER_SIZE, H_POOL_HEAD, NO_BLOCK, SLOT_SIZE,
};
use crate::transport::shm::server;
use crate::transport::shm::service;
use crate::types;
use vstd::prelude::*;

verus! {

broadcast use crate::memory::group_memory;

/// Two segments have the same pool: the same list head and the same blocks.
pub open spec fn same_pool(c: ShmConfig, m: Seq<u8>, n: Seq<u8>) -> bool {
    &&& m.len() == n.len()
    &&& forall|i: int| H_POOL_HEAD <= i < H_POOL_HEAD + 8 ==> #[trigger] n[i] == m[i]
    &&& forall|i: int|
        GLOBAL_HEADER_SIZE + c.slot_count * SLOT_SIZE <= i < m.len() ==> #[trigger] n[i] == m[i]
}

/// A free list is that of every segment with the same pool.
proof fn lemma_same_pool_same_list(c: ShmConfig, m: Seq<u8>, n: Seq<u8>, list: Seq<u32>)
    requires
        laws::fits(c, m),
        0 < c.block_count,
        same_pool(c, m, n),
        region::pool_of(c).is_free_list(m, list),
    ensures
        region::pool_of(c).is_free_list(n, list),
{
    laws::lemma_pool(c, m, 0);
    segment_laws::lemma_free_list_kept(region::pool_of(c), m, n, list);
}

/// A request that is handed over keeps the free list.
proof fn lemma_submit_keeps_free_list(
    c: ShmConfig,
    m: Seq<u8>,
    list: Seq<u32>,
    slot: int,
    block: u32,
    v: types::RequestView,
)
    requires
        laws::fits(c, m),
        0 <= slot < c.slot_count,
        block < c.block_count,
        region::pool_of(c).is_free_list(m, list),
        !list.contains(block),
        exchange::request_fault(v, c.block_size as nat) is None,
    ensures
        service::after_submit(c, m, slot, block, v).len() == m.len(),
        region::pool_of(c).is_free_list(service::after_submit(c, m, slot, block, v), list),
{
    let p = region::pool_of(c);
    let b = p.block(block as int);
    let t = exchange::tail_bytes(v.uri, v.headers);
    headers::law_headers_fit(
        v.headers,
        (c.block_size - v.body.len() - types::text_bytes(v.uri).len()) as nat,
    );
    laws::lemma_pool(c, m, block as int);
    let m1 = memory::put(m, b, v.body);
    pool::law_block_writes_keep_free_list(p, m, list, block, b, v.body);
    let m2 = memory::put(m1, b + v.body.len(), t);
    pool::law_block_writes_keep_free_list(p, m1, list, block, (b + v.body.len()) as int, t);
    let n = service::after_submit(c, m, slot, block, v);
    region::lemma_slot(c, slot);
    assert(same_pool(c, m2, n));
    lemma_same_pool_same_list(c, m2, n, list);
}

/// A server that takes a request and lets it go puts its block on the free list.
proof fn lemma_let_go_frees_the_block(
    c: ShmConfig,
    m: Seq<u8>,
    list: Seq<u32>,
    slot: int,
    block: u32,
    v: types::RequestView,
    now: u64,
)
    requires
        laws::fits(c, m),
        0 <= slot < c.slot_count,
        block < c.block_count,
        region::pool_of(c).is_free_list(m, list),
        !list.contains(block),
        region::state_of(m, slot) == region::REQUEST_READY,
        service::request_block(m, slot) == block,
        exchange::request_at(c, service::with_claim(m, slot, now), slot) == Ok::<
            types::RequestView,
            crate::error::CrossbarErrorView,
        >(v),
    ensures
        server::after_request_is_let_go(c, m, slot, v, now).len() == m.len(),
        region::pool_of(c).is_free_list(
            server::after_request_is_let_go(c, m, slot, v, now),
            seq![block] + list,
        ),
{
    let p = region::pool_of(c);
    laws::lemma_pool(c, m, block as int);
    region::lemma_slot(c, slot);
    let k = service::with_claim(m, slot, now);
    assert(same_pool(c, m, k));
    lemma_same_pool_same_list(c, m, k, list);
    assert(service::request_block(k, slot) == block);
    pool::law_free_pushes_the_head(p, k, list, block);
}

/// An answer takes the block at the head of the free list.
proof fn lemma_answer_takes_the_head(
    c: ShmConfig,
    m: Seq<u8>,
    list: Seq<u32>,
    slot: int,
    block: u32,
    resp: types::ResponseView,
)
    requires
        laws::fits(c, m),
        0 <= slot < c.slot_count,
        block < c.block_count,
        region::pool_of(c).is_free_list(m, seq![block] + list),
        types::distinct_keys(resp.headers),
    ensures
        region::pool_of(c).alloc_choice(m) == Some(block),
        service::after_answer(c, m, slot, resp).len() == m.len(),
        service::response_block(service::after_answer(c, m, slot, resp), slot) == block,
        region::pool_of(c).is_free_list(service::after_answer(c, m, slot, resp), list),
        !list.contains(block),
{
    let p = region::pool_of(c);
    let all = seq![block] + list;
    laws::lemma_pool(c, m, block as int);
    pool::law_alloc_takes_the_head(p, m, all);
    assert(all.subrange(1, all.len() as int) =~= list);
    let w = exchange::stored_response(resp, c.block_size as nat);
    laws::lemma_stored_fits(c, resp);
    let k = p.after_alloc(m);
    let m1 = exchange::after_refused_response(c, k, block, resp);
    if m1 != k {
        let room = (c.block_size - resp.body.len()) as nat;
        headers::lemma_written_fits(resp.headers, room);
        pool::law_block_writes_keep_free_list(
            p,
            k,
            list,
            block,
            p.block(block as int),
            resp.body + headers::headers_written(resp.headers, room),
        );
    }
    let data = w.body + headers::header_bytes(w.headers);
    let m2 = memory::put(m1, p.block(block as int), data);
    pool::law_block_writes_keep_free_list(p, m1, list, block, p.block(block as int), data);
    let n = service::after_answer(c, m, slot, resp);
    region::lemma_slot(c, slot);
    assert(same_pool(c, m2, n));
    lemma_same_pool_same_list(c, m2, n, list);
}

/// A client that takes the response and lets its body go puts the block back on
/// the free list.
proof fn lemma_poll_frees_the_block(
    c: ShmConfig,
    m: Seq<u8>,
    list: Seq<u32>,
    slot: int,
    block: u32,
    w: types::ResponseView,
    expired: bool,
)
    requires
        laws::fits(c, m),
        0 <= slot < c.slot_count,
        block < c.block_count < NO_BLOCK,
        region::pool_of(c).is_free_list(m, list),
        !list.contains(block),
        region::state_of(m, slot) == region::RESPONSE_READY,
        service::response_block(m, slot) == block,
        exchange::response_at(c, m, slot) == Ok::<
            types::ResponseView,
            crate::error::CrossbarErrorView,
        >(w),
    ensures
        region::pool_of(c).is_free_list(
            exchange::after_message(
                c,
                service::after_poll(c, m, slot, expired),
                block,
                w.body.len() == 0,
            ),
            seq![block] + list,
        ),
{
    let p = region::pool_of(c);
    laws::lemma_pool(c, m, block as int);
    region::lemma_slot(c, slot);
    let n = service::after_poll(c, m, slot, expired);
    if w.body.len() > 0 {
        assert(same_pool(c, m, n));
        lemma_same_pool_same_list(c, m, n, list);
        pool::law_free_pushes_the_head(p, n, list, block);
    } else {
        let k = p.after_free(m, block);
        pool::law_free_pushes_the_head(p, m, list, block);
        assert(same_pool(c, k, n));
        lemma_same_pool_same_list(c, k, n, seq![block] + list);
    }
}

/// A request that was handed over, taken and let go leaves its block at the head
/// of the free list.
proof fn lemma_read_request_frees_the_block(
    c: ShmConfig,
    m: Seq<u8>,
    list: Seq<u32>,
    slot: int,
    block: u32,
    v: types::RequestView,
    now: u64,
)
    requires
        laws::fits(c, m),
        0 <= slot < c.slot_count,
        block < c.block_count,
        region::pool_of(c).is_free_list(m, list),
        !list.contains(block),
        exchange::request_fault(v, c.block_size as nat) is None,
        types::distinct_keys(v.headers),
    ensures
        ({
            let asked = service::after_submit(c, m, slot, block, v);
            let read = server::after_request_is_let_go(c, asked, slot, v, now);
            &&& read.len() == m.len()
            &&& region::pool_of(c).is_free_list(read, seq![block] + list)
        }),
{
    lemma_submit_keeps_free_list(c, m, list, slot, block, v);
    laws::law_submitted_request_is_taken(c, m, slot, block, v, now);
    laws::lemma_submitted_block(c, m, slot, block, v);
    let asked = service::after_submit(c, m, slot, block, v);
    lemma_let_go_frees_the_block(c, asked, list, slot, block, v, now);
}

/// An answer that the client takes, and whose body it lets go, leaves the free
/// list as it was.
proof fn lemma_taken_answer_frees_the_block(
    c: ShmConfig,
    m: Seq<u8>,
    list: Seq<u32>,
    slot: int,
    block: u32,
    resp: types::ResponseView,
    expired: bool,
)
    requires
        laws::fits(c, m),
        0 <= slot < c.slot_count,
        block < c.block_count < NO_BLOCK,
        region::pool_of(c).is_free_list(m, seq![block] + list),
        types::distinct_keys(resp.headers),
    ensures
        ({
            let answered = service::after_answer(c, m, slot, resp);
            let taken = service::after_poll(c, answered, slot, expired);
            let empty = exchange::stored_response(resp, c.block_size as nat).body.len() == 0;
            &&& service::response_block(answered, slot) == block
            &&& region::pool_of(c).is_free_list(
                exchange::after_message(c, taken, block, empty),
                seq![block] + list,
            )
        }),
{
    lemma_answer_takes_the_head(c, m, list, slot, block, resp);
    laws::law_answer_is_received(c, m, slot, resp, expired);
    let answered = service::after_answer(c, m, slot, resp);
    let w = exchange::stored_response(resp, c.block_size as nat);
    region::lemma_slot(c, slot);
    lemma_poll_frees_the_block(c, answered, list, slot, block, w, expired);
}

/// The segment with an answer in a slot: a client handed over its request in a
/// block, and the server let the request go and answered.
pub open spec fn answered(
    c: ShmConfig,
    m: Seq<u8>,
    slot: int,
    block: u32,
    v: types::RequestView,
    now: u64,
    resp: types::ResponseView,
) -> Seq<u8> {
    let asked = service::after_submit(c, m, slot, block, v);
    service::after_answer(
        c,
        server::after_request_is_let_go(c, asked, slot, v, now),
        slot,
        resp,
    )
}

/// The segment after the client took the answer and let its body go, which lies
/// in `block` where there is one.
pub open spec fn taken(
    c: ShmConfig,
    m: Seq<u8>,
    slot: int,
    block: u32,
    resp: types::ResponseView,
    expired: bool,
) -> Seq<u8> {
    exchange::after_message(
        c,
        service::after_poll(c, m, slot, expired),
        block,
        exchange::stored_response(resp, c.block_size as nat).body.len() == 0,
    )
}

#[verifier::rlimit(40)]
proof fn lemma_exchange(
    c: ShmConfig,
    m: Seq<u8>,
    list: Seq<u32>,
    slot: int,
    block: u32,
    v: types::RequestView,
    now: u64,
    resp: types::ResponseView,
    expired: bool,
)
    requires
        laws::fits(c, m),
        0 <= slot < c.slot_count,
        block < c.block_count < NO_BLOCK,
        region::pool_of(c).is_free_list(m, list),
        !list.contains(block),
        exchange::request_fault(v, c.block_size as nat) is None,
        types::distinct_keys(v.headers),
        types::distinct_keys(resp.headers),
    ensures
        service::response_block(answered(c, m, slot, block, v, now, resp), slot) == block,
        region::pool_of(c).is_free_list(
            taken(c, answered(c, m, slot, block, v, now, resp), slot, block, resp, expired),
            seq![block] + list,
        ),
{
    lemma_read_request_frees_the_block(c, m, list, slot, block, v, now);
    let asked = service::after_submit(c, m, slot, block, v);
    let read = server::after_request_is_let_go(c, asked, slot, v, now);
    lemma_taken_answer_frees_the_block(c, read, list, slot, block, resp, expired);
}

/// An exchange gives its block back. The client takes a block and sends its
/// request in it; the server lets the request go, whose body the handler does not
/// hand on, and answers, in the same block as it turns out; and the client takes
/// the response and lets its body go: after that the free list is what it was
/// before.
#[verifier::rlimit(40)]
pub proof fn law_exchange_gives_the_block_back(
    c: ShmConfig,
    m: Seq<u8>,
    list: Seq<u32>,
    slot: int,
    v: types::RequestView,
    now: u64,
    resp: types::ResponseView,
    expired: bool,
)
    requires
        laws::fits(c, m),
        0 <= slot < c.slot_count,
        c.block_count < NO_BLOCK,
        region::pool_of(c).is_free_list(m, list),
        list.len() > 0,
        exchange::request_fault(v, c.block_size as nat) is None,
        types::distinct_keys(v.headers),
        types::distinct_keys(resp.headers),
    ensures
        ({
            let p = region::pool_of(c);
            let block = list[0];
            let n = answered(c, p.after_alloc(m), slot, block, v, now, resp);
            &&& p.alloc_choice(m) == Some(block)
            &&& service::response_block(n, slot) == block
            &&& p.is_free_list(taken(c, n, slot, block, resp, expired), list)
        }),
{
    let p = region::pool_of(c);
    let block = list[0];
    let rest = list.subrange(1, list.len() as int);
    laws::lemma_pool(c, m, block as int);
    pool::law_alloc_takes_the_head(p, m, list);
    lemma_exchange(c, p.after_alloc(m), rest, slot, block, v, now, resp, expired);
    assert(seq![block] + rest =~= list);
}

} // verus!
