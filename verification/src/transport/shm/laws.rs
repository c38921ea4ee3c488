//! What holds of an exchange as a whole.

use crate::memory;
use crate::protocol::pool;
use crate::transport::headers;
use crate::transport::shm::exchange;
use crate::transport::shm::region::{
    self, ShmConfig, FREE, GLOBAL_HEADER_SIZE, NO_BLOCK, PROCESSING, REQUEST_READY,
    SLOT_SIZE, S_REQUEST_BLOCK, S_RESPONSE_BLOCK, S_RESPONSE_BODY_LEN, S_RESPONSE_HEADERS_LEN,
    S_STATE, S_STATUS, S_TIMESTAMP, WRITING,
};
use crate::transport::shm::service;
use crate::types::{self, Body, Method, Request};
use vstd::prelude::*;

verus! {

broadcast use crate::memory::group_memory;

/// A segment has room for its slots and blocks.
pub open spec fn fits(c: ShmConfig, m: Seq<u8>) -> bool {
    &&& c.block_size >= region::MIN_BLOCK_SIZE
    &&& region::segment_size(c.slot_count as int, c.block_count as int, c.block_size as int)
        <= m.len() <= usize::MAX
}

/// The blocks lie behind the slots, and inside the segment.
pub proof fn lemma_pool(c: ShmConfig, m: Seq<u8>, block: int)
    requires
        fits(c, m),
        0 <= block < c.block_count,
    ensures
        region::pool_of(c).fits(m.len()),
        region::pool_of(c).base == GLOBAL_HEADER_SIZE + c.slot_count * SLOT_SIZE,
        region::pool_of(c).block(block) >= GLOBAL_HEADER_SIZE + c.slot_count * SLOT_SIZE,
        region::pool_of(c).block(block) + c.block_size <= m.len(),
{
    region::lemma_header_room(c);
    let a = c.block_count as int;
    let b = c.block_size as int;
    assert(0 <= a * b) by (nonlinear_arith)
        requires
            0 <= a,
            0 <= b,
    ;
    pool::lemma_block(region::pool_of(c), block, m.len());
}

/// A segment that was created can be opened, and has the parameters that it
/// was created with.
#[verifier::rlimit(50)]
pub proof fn law_create_then_open(c: ShmConfig, m: Seq<u8>, pid: u32, now: u64)
    requires
        region::config_fault(c) is None,
        fits(c, m),
    ensures
        ({
            let n = region::created(c, m, pid, now);
            &&& region::header_fault(n) is None
            &&& region::header_config(n).slot_count == c.slot_count
            &&& region::header_config(n).block_count == c.block_count
            &&& region::header_config(n).block_size == c.block_size
        }),
{
    let h = region::with_header(c, m, pid, now);
    let s = region::with_free_slots(h, c.slot_count as nat);
    region::lemma_header_room(c);
    lemma_free_slots(c, h, c.slot_count as nat);
    lemma_pool(c, s, 0);
    let n = region::created(c, m, pid, now);
    lemma_init_keeps(c, s);
    assert(memory::bytes_at(h, 0, 8) =~= region::magic());
    assert(memory::bytes_at(s, 0, 8) =~= memory::bytes_at(h, 0, 8)) by {
        assert forall|i: int| 0 <= i < 8 implies s[i] == h[i] by {}
    }
    assert(memory::bytes_at(n, 0, 8) =~= region::magic());
    assert(memory::u32_at(h, region::H_VERSION as int) == region::VERSION);
    assert(memory::u32_at(h, region::H_SLOT_COUNT as int) == c.slot_count);
    assert(memory::u32_at(h, region::H_BLOCK_COUNT as int) == c.block_count);
    assert(memory::u32_at(h, region::H_BLOCK_SIZE as int) == c.block_size);
    assert forall|off: int| 0 <= off <= 20 implies #[trigger] memory::u32_at(n, off)
        == memory::u32_at(h, off) by {
        assert(n[off] == h[off] && n[off + 1] == h[off + 1] && n[off + 2] == h[off + 2] && n[off
            + 3] == h[off + 3]);
    }
}

/// All slots of a new segment are free and name no blocks.
pub proof fn law_created_slots_are_free(c: ShmConfig, m: Seq<u8>, pid: u32, now: u64, slot: int)
    requires
        region::config_fault(c) is None,
        fits(c, m),
        0 <= slot < c.slot_count,
    ensures
        ({
            let n = region::created(c, m, pid, now);
            &&& region::state_of(n, slot) == FREE
            &&& service::request_block(n, slot) == NO_BLOCK
            &&& service::response_block(n, slot) == NO_BLOCK
        }),
{
    let h = region::with_header(c, m, pid, now);
    let s = region::with_free_slots(h, c.slot_count as nat);
    region::lemma_header_room(c);
    lemma_free_slots(c, h, c.slot_count as nat);
    lemma_init_keeps(c, s);
    region::lemma_slot(c, slot);
    let n = region::created(c, m, pid, now);
    let o = region::slot_off(slot);
    assert(region::state_of(s, slot) == FREE);
    lemma_same_u32(s, n, o + S_STATE);
    lemma_same_u32(s, n, o + S_REQUEST_BLOCK);
    lemma_same_u32(s, n, o + S_RESPONSE_BLOCK);
}

/// A new segment has every block in its pool.
pub proof fn law_created_blocks_are_free(c: ShmConfig, m: Seq<u8>, pid: u32, now: u64)
    requires
        region::config_fault(c) is None,
        fits(c, m),
    ensures
        region::pool_of(c).is_free_list(
            region::created(c, m, pid, now),
            region::pool_of(c).full_list(),
        ),
{
    let h = region::with_header(c, m, pid, now);
    let s = region::with_free_slots(h, c.slot_count as nat);
    lemma_free_slots(c, h, c.slot_count as nat);
    lemma_pool(c, s, 0);
    pool::law_init_frees_every_block(region::pool_of(c), s);
}

proof fn lemma_same_u32(a: Seq<u8>, b: Seq<u8>, off: int)
    requires
        a[off] == b[off],
        a[off + 1] == b[off + 1],
        a[off + 2] == b[off + 2],
        a[off + 3] == b[off + 3],
    ensures
        memory::u32_at(a, off) == memory::u32_at(b, off),
{
}

/// Making the slots free writes to no other bytes.
proof fn lemma_free_slots(c: ShmConfig, m: Seq<u8>, n: nat)
    requires
        fits(c, m),
        n <= c.slot_count,
    ensures
        region::with_free_slots(m, n).len() == m.len(),
        forall|i: int|
            0 <= i < GLOBAL_HEADER_SIZE ==> #[trigger] region::with_free_slots(m, n)[i] == m[i],
        forall|slot: int|
            0 <= slot < n ==> {
                &&& #[trigger] region::state_of(region::with_free_slots(m, n), slot) == FREE
                &&& service::request_block(region::with_free_slots(m, n), slot) == NO_BLOCK
                &&& service::response_block(region::with_free_slots(m, n), slot) == NO_BLOCK
            },
    decreases n,
{
    if n > 0 {
        let k = n - 1;
        lemma_free_slots(c, m, k as nat);
        region::lemma_slot(c, k);
        let m0 = region::with_free_slots(m, k as nat);
        let m1 = region::with_free_slots(m, n);
        assert forall|i: int| 0 <= i < GLOBAL_HEADER_SIZE implies #[trigger] m1[i] == m[i] by {
            assert(m0[i] == m[i]);
        }
        assert forall|slot: int| 0 <= slot < n implies {
            &&& #[trigger] region::state_of(m1, slot) == FREE
            &&& service::request_block(m1, slot) == NO_BLOCK
            &&& service::response_block(m1, slot) == NO_BLOCK
        } by {
            region::lemma_slot(c, slot);
            if slot < k {
                assert(region::state_of(m0, slot) == FREE);
                assert(region::slot_off(slot) + SLOT_SIZE <= region::slot_off(k));
            }
        }
    }
}

/// Putting the blocks on the free list writes to the blocks and the head of the
/// list only.
proof fn lemma_init_keeps(c: ShmConfig, m: Seq<u8>)
    requires
        fits(c, m),
        0 < c.block_count,
    ensures
        region::pool_of(c).after_init(m).len() == m.len(),
        forall|i: int|
            0 <= i < GLOBAL_HEADER_SIZE + c.slot_count * SLOT_SIZE && !(region::H_POOL_HEAD <= i
                < region::H_POOL_HEAD + 8) ==> #[trigger] region::pool_of(c).after_init(m)[i]
                == m[i],
{
    lemma_linked_keeps(c, m, c.block_count as nat);
    let l = region::pool_of(c).linked(m, c.block_count as nat);
    let n = region::pool_of(c).after_init(m);
    assert forall|i: int|
        0 <= i < GLOBAL_HEADER_SIZE + c.slot_count * SLOT_SIZE && !(region::H_POOL_HEAD <= i
            < region::H_POOL_HEAD + 8) implies #[trigger] n[i] == m[i] by {
        region::lemma_header_room(c);
        lemma_pool(c, m, 0);
        assert(l[i] == m[i]);
    }
}

proof fn lemma_linked_keeps(c: ShmConfig, m: Seq<u8>, n: nat)
    requires
        fits(c, m),
        n <= c.block_count,
        0 < c.block_count,
    ensures
        region::pool_of(c).linked(m, n).len() == m.len(),
        forall|i: int|
            0 <= i < GLOBAL_HEADER_SIZE + c.slot_count * SLOT_SIZE
                ==> #[trigger] region::pool_of(c).linked(m, n)[i] == m[i],
    decreases n,
{
    if n > 0 {
        let k = n - 1;
        lemma_linked_keeps(c, m, k as nat);
        lemma_pool(c, m, k);
        let m0 = region::pool_of(c).linked(m, k as nat);
        let m1 = region::pool_of(c).linked(m, n);
        assert forall|i: int|
            0 <= i < GLOBAL_HEADER_SIZE + c.slot_count * SLOT_SIZE implies #[trigger] m1[i]
            == m[i] by {
            assert(m0[i] == m[i]);
        }
    }
}

/// A request reads back as it was written.
pub proof fn law_request_round_trip(
    c: ShmConfig,
    m: Seq<u8>,
    slot: int,
    block: u32,
    v: types::RequestView,
)
    requires
        fits(c, m),
        0 <= slot < c.slot_count,
        block < c.block_count,
        exchange::request_fault(v, c.block_size as nat) is None,
        types::distinct_keys(v.headers),
    ensures
        exchange::request_at(c, exchange::after_request(c, m, slot, block, v), slot) == Ok::<
            types::RequestView,
            crate::error::CrossbarErrorView,
        >(v),
{
    lemma_pool(c, m, block as int);
    let b = region::pool_of(c).block(block as int);
    let m1 = memory::put(m, b, v.body);
    assert(memory::bytes_at(m1, b, v.body.len() as int) =~= v.body);
    law_direct_request_round_trip(c, m1, slot, block, v.body, v.method, v.uri, v.headers);
}

/// The block of a request that is read goes back to the pool exactly once: at once
/// where the request has no body, and otherwise when the body is let go, which holds
/// on to the block until then. `req` is what reading gives, `read` and `end` are the
/// segment after reading and after letting the body go.
pub proof fn law_read_request_gives_the_block_back_once(
    c: ShmConfig,
    m: Seq<u8>,
    slot: int,
    block: u32,
    v: types::RequestView,
    req: Request,
    read: Seq<u8>,
    end: Seq<u8>,
)
    requires
        fits(c, m),
        0 <= slot < c.slot_count,
        block < c.block_count,
        exchange::request_fault(v, c.block_size as nat) is None,
        types::distinct_keys(v.headers),
        ({
            let n = exchange::after_request(c, m, slot, block, v);
            let named = memory::u32_at(n, region::slot_off(slot) + S_REQUEST_BLOCK);
            let found = exchange::request_at(c, n, slot);
            &&& found matches Ok(w) ==> req@ == w && exchange::body_in(req.body, named)
            &&& read == exchange::after_message(
                c,
                n,
                named,
                found matches Ok(w) && w.body.len() > 0,
            )
            &&& end == (match req.body {
                Body::Mmap(g) => region::pool_of(c).after_free(read, g.block_idx),
                _ => read,
            })
        }),
    ensures
        req@ == v,
        ({
            let n = exchange::after_request(c, m, slot, block, v);
            &&& v.body.len() > 0 ==> read == n
            &&& v.body.len() == 0 ==> read == region::pool_of(c).after_free(n, block)
            &&& end == region::pool_of(c).after_free(n, block)
        }),
{
    law_request_round_trip(c, m, slot, block, v);
    region::lemma_slot(c, slot);
    lemma_pool(c, m, block as int);
}

/// A request whose body is in the block already reads back with that body.
#[verifier::rlimit(40)]
pub proof fn law_direct_request_round_trip(
    c: ShmConfig,
    m: Seq<u8>,
    slot: int,
    block: u32,
    body: Seq<u8>,
    method: Method,
    uri: Seq<char>,
    p: types::Pairs,
)
    requires
        fits(c, m),
        0 <= slot < c.slot_count,
        block < c.block_count,
        memory::bytes_at(m, region::pool_of(c).block(block as int), body.len() as int) == body,
        exchange::tail_fault(body.len(), uri, p, c.block_size as nat) is None,
        types::distinct_keys(p),
    ensures
        exchange::request_at(
            c,
            exchange::after_request_tail(c, m, slot, block, body.len(), method, uri, p),
            slot,
        ) == Ok::<types::RequestView, crate::error::CrossbarErrorView>(
            (types::RequestView { method, uri, headers: p, body }),
        ),
{
    let size = c.block_size as int;
    let u = types::text_bytes(uri);
    let h = headers::header_bytes(p);
    let t = exchange::tail_bytes(uri, p);
    let b = region::pool_of(c).block(block as int);
    headers::law_headers_fit(p, (size - body.len() - u.len()) as nat);
    lemma_pool(c, m, block as int);
    region::lemma_slot(c, slot);
    let m1 = memory::put(m, b + body.len(), t);
    let n = exchange::after_request_tail(c, m, slot, block, body.len(), method, uri, p);
    lemma_request_meta(c, m1, slot, block, method, u.len(), body.len(), h.len());
    let d = memory::bytes_at(n, b, size);
    assert(d =~= memory::bytes_at(m1, b, size));
    lemma_tail_in_block(m, b, size, body, uri, p);
    types::law_method_bytes(method, 0);
    types::law_text_body_reads_back(uri);
    headers::law_headers_round_trip(p, Seq::empty());
    assert(h + Seq::<u8>::empty() =~= h);
}

/// The parts of a request are found in its block.
proof fn lemma_tail_in_block(
    m: Seq<u8>,
    b: int,
    size: int,
    body: Seq<u8>,
    uri: Seq<char>,
    p: types::Pairs,
)
    requires
        0 <= b,
        b + size <= m.len(),
        body.len() + exchange::tail_bytes(uri, p).len() <= size,
        memory::bytes_at(m, b, body.len() as int) == body,
    ensures
        ({
            let d = memory::bytes_at(
                memory::put(m, b + body.len(), exchange::tail_bytes(uri, p)),
                b,
                size,
            );
            let e = body.len() + types::text_bytes(uri).len();
            &&& d.len() == size
            &&& d.subrange(0, body.len() as int) == body
            &&& d.subrange(body.len() as int, e as int) == types::text_bytes(uri)
            &&& d.subrange(e as int, (e + headers::header_bytes(p).len()) as int)
                == headers::header_bytes(p)
        }),
{
    let t = exchange::tail_bytes(uri, p);
    let n = memory::put(m, b + body.len(), t);
    let d = memory::bytes_at(n, b, size);
    let u = types::text_bytes(uri);
    let h = headers::header_bytes(p);
    let e = body.len() + u.len();
    assert forall|i: int| 0 <= i < body.len() implies d[i] == body[i] by {
        assert(memory::bytes_at(m, b, body.len() as int)[i] == m[b + i]);
    }
    assert(d.subrange(0, body.len() as int) =~= body);
    assert(d.subrange(body.len() as int, e as int) =~= u) by {
        assert forall|i: int| 0 <= i < u.len() implies d[body.len() + i] == u[i] by {
            assert(t[i] == u[i]);
        }
    }
    assert(d.subrange(e as int, (e + h.len()) as int) =~= h) by {
        assert forall|i: int| 0 <= i < h.len() implies d[e + i] == h[i] by {
            assert(t[u.len() + i] == h[i]);
        }
    }
}

/// The data of a request is found in its slot.
proof fn lemma_request_meta(
    c: ShmConfig,
    m: Seq<u8>,
    slot: int,
    block: u32,
    method: Method,
    uri_len: nat,
    body_len: nat,
    headers_len: nat,
)
    requires
        fits(c, m),
        0 <= slot < c.slot_count,
        uri_len <= u32::MAX,
        body_len <= u32::MAX,
        headers_len <= u32::MAX,
    ensures
        ({
            let n = exchange::with_request_meta(
                m,
                slot,
                block,
                method,
                uri_len,
                body_len,
                headers_len,
            );
            &&& n.len() == m.len()
            &&& exchange::request_meta(n, slot) == (exchange::RequestMeta {
                method: types::method_byte(method),
                uri_len: uri_len as u32,
                body_len: body_len as u32,
                headers_len: headers_len as u32,
            })
            &&& service::request_block(n, slot) == block
            &&& region::state_of(n, slot) == region::state_of(m, slot)
            &&& forall|at: int, len: int|
                0 <= len && at >= GLOBAL_HEADER_SIZE + c.slot_count * SLOT_SIZE && at + len
                    <= m.len() ==> #[trigger] memory::bytes_at(n, at, len) == memory::bytes_at(
                    m,
                    at,
                    len,
                )
        }),
{
    region::lemma_slot(c, slot);
    let n = exchange::with_request_meta(m, slot, block, method, uri_len, body_len, headers_len);
    assert forall|at: int, len: int|
        0 <= len && at >= GLOBAL_HEADER_SIZE + c.slot_count * SLOT_SIZE && at + len
            <= m.len() implies #[trigger] memory::bytes_at(n, at, len) == memory::bytes_at(
        m,
        at,
        len,
    ) by {
        assert(memory::bytes_at(n, at, len) =~= memory::bytes_at(m, at, len));
    }
}

/// A response reads back as it was written, or as the report that it was too
/// large.
pub proof fn law_response_round_trip(
    c: ShmConfig,
    m: Seq<u8>,
    slot: int,
    block: u32,
    v: types::ResponseView,
)
    requires
        fits(c, m),
        0 <= slot < c.slot_count,
        block < c.block_count,
        types::distinct_keys(v.headers),
    ensures
        exchange::response_at(c, exchange::after_response(c, m, slot, block, v), slot) == Ok::<
            types::ResponseView,
            crate::error::CrossbarErrorView,
        >(exchange::stored_response(v, c.block_size as nat)),
{
    let w = exchange::stored_response(v, c.block_size as nat);
    lemma_stored_fits(c, v);
    lemma_fitting_response(c, exchange::after_refused_response(c, m, block, v), slot, block, w);
}

/// What is stored of a response fits in a block.
pub proof fn lemma_stored_fits(c: ShmConfig, v: types::ResponseView)
    requires
        c.block_size >= region::MIN_BLOCK_SIZE,
        types::distinct_keys(v.headers),
    ensures
        ({
            let w = exchange::stored_response(v, c.block_size as nat);
            &&& headers::fit_fields(w.headers)
            &&& types::distinct_keys(w.headers)
            &&& w.body.len() + headers::header_bytes(w.headers).len() <= c.block_size
        }),
{
    match exchange::response_fault(v, c.block_size as nat) {
        None => {
            headers::law_headers_fit(v.headers, (c.block_size - v.body.len()) as nat);
        },
        Some(_) => {
            let none = Seq::<(Seq<char>, Seq<char>)>::empty();
            assert(headers::header_bytes(none).len() == 2);
            exchange::lemma_too_large_body();
        },
    }
}

#[verifier::rlimit(50)]
proof fn lemma_fitting_response(
    c: ShmConfig,
    m: Seq<u8>,
    slot: int,
    block: u32,
    w: types::ResponseView,
)
    requires
        fits(c, m),
        0 <= slot < c.slot_count,
        block < c.block_count,
        headers::fit_fields(w.headers),
        types::distinct_keys(w.headers),
        w.body.len() + headers::header_bytes(w.headers).len() <= c.block_size,
    ensures
        ({
            let n = exchange::after_fitting_response(c, m, slot, block, w);
            &&& n.len() == m.len()
            &&& service::response_block(n, slot) == block
            &&& exchange::response_at(c, n, slot) == Ok::<
                types::ResponseView,
                crate::error::CrossbarErrorView,
            >(w)
        }),
{
    let size = c.block_size as int;
    let h = headers::header_bytes(w.headers);
    let b = region::pool_of(c).block(block as int);
    lemma_pool(c, m, block as int);
    region::lemma_slot(c, slot);
    let m1 = memory::put(m, b, w.body + h);
    let n = exchange::after_fitting_response(c, m, slot, block, w);
    let d = memory::bytes_at(n, b, size);
    assert(d =~= memory::bytes_at(m1, b, size));
    let e = w.body.len() as int;
    assert(d.subrange(0, e) =~= w.body);
    assert(d.subrange(e, (e + h.len()) as int) =~= h);
    headers::law_headers_round_trip(w.headers, Seq::empty());
    assert(h + Seq::<u8>::empty() =~= h);
}

/// A slot that a client acquires was free and is its own; no other slot
/// changes its state.
pub proof fn law_acquired_slot_was_free(
    c: ShmConfig,
    m: Seq<u8>,
    client_id: u64,
    now: u64,
    other: int,
)
    requires
        fits(c, m),
        0 <= other < c.slot_count,
    ensures
        match region::acquired(m, c.slot_count) {
            Some(i) => {
                let n = region::after_acquire(m, i, client_id, now);
                &&& i < c.slot_count
                &&& region::state_of(m, i as int) == FREE
                &&& region::state_of(n, i as int) == WRITING
                &&& memory::u64_at(n, region::slot_off(i as int) + region::S_CLIENT) == client_id
                &&& other != i ==> region::state_of(n, other) == region::state_of(m, other)
            },
            None => region::state_of(m, other) != FREE,
        },
{
    region::lemma_slot(c, other);
    region::lemma_header_room(c);
    let n = c.slot_count;
    let start: u32 = memory::u32_at(m, region::H_SLOT_HINT as int) % n;
    lemma_free_from(m, n, start, 0);
    match region::acquired(m, n) {
        Some(i) => {
            region::lemma_slot(c, i as int);
            lemma_slots_apart(i as int, other);
        },
        None => {
            let offset = (other - start) % (n as int);
            assert((start + offset) % (n as int) == other) by (nonlinear_arith)
                requires
                    0 <= other < n,
                    0 <= start < n,
                    offset == (other - start) % (n as int),
            ;
            assert(0 <= offset < n);
            assert(region::cyclic(n, start, offset as nat) == other);
        },
    }
}

proof fn lemma_slots_apart(a: int, b: int)
    ensures
        a < b ==> region::slot_off(a) + SLOT_SIZE <= region::slot_off(b),
        b < a ==> region::slot_off(b) + SLOT_SIZE <= region::slot_off(a),
{
}

proof fn lemma_free_from(m: Seq<u8>, n: u32, start: u32, offset: nat)
    requires
        0 < n,
        start < n,
    ensures
        match region::free_from(m, n, start, offset) {
            Some(i) => i < n && region::state_of(m, i as int) == FREE,
            None => forall|k: nat|
                offset <= k < n ==> region::state_of(m, #[trigger] region::cyclic(n, start, k))
                    != FREE,
        },
    decreases n - offset,
{
    if offset < n {
        lemma_free_from(m, n, start, offset + 1);
    }
}

/// A slot that has waited for too long is freed, and names no blocks any more.
/// One that is free, that the server works on, or that has not waited for too
/// long stays as it is.
pub proof fn law_recovery_frees_stale_slots(
    c: ShmConfig,
    m: Seq<u8>,
    slot: int,
    timeout: u64,
    now: u64,
)
    requires
        fits(c, m),
        0 <= slot < c.slot_count,
        0 < c.block_count,
    ensures
        ({
            let n = region::after_recover(c, m, slot, timeout, now);
            let s = region::state_of(m, slot);
            let waited = now - memory::u64_at(m, region::slot_off(slot) + S_TIMESTAMP);
            if s != FREE && s != PROCESSING && waited > timeout {
                &&& region::state_of(n, slot) == FREE
                &&& service::request_block(n, slot) == NO_BLOCK
                &&& service::response_block(n, slot) == NO_BLOCK
            } else {
                n == m
            }
        }),
{
    region::lemma_slot(c, slot);
    let m1 = memory::put32(m, region::slot_off(slot) + S_STATE, PROCESSING);
    lemma_drop(c, m1, slot, S_REQUEST_BLOCK as int);
    let m2 = region::after_drop(c, m1, slot, S_REQUEST_BLOCK as int);
    lemma_drop(c, m2, slot, S_RESPONSE_BLOCK as int);
}

/// A slot has waited for too long.
pub open spec fn is_stale(m: Seq<u8>, slot: int, timeout: u64, now: u64) -> bool {
    let s = region::state_of(m, slot);
    &&& s != FREE
    &&& s != PROCESSING
    &&& now - memory::u64_at(m, region::slot_off(slot) + S_TIMESTAMP) > timeout
}

/// A slot is free, and names no blocks.
pub open spec fn is_vacant(m: Seq<u8>, slot: int) -> bool {
    &&& region::state_of(m, slot) == FREE
    &&& service::request_block(m, slot) == NO_BLOCK
    &&& service::response_block(m, slot) == NO_BLOCK
}

/// Two segments have the same bytes in a slot.
pub open spec fn same_slot(m: Seq<u8>, n: Seq<u8>, slot: int) -> bool {
    forall|i: int|
        region::slot_off(slot) <= i < region::slot_off(slot) + SLOT_SIZE ==> #[trigger] n[i]
            == m[i]
}

/// A round of recovery frees every slot that has waited for too long, which then
/// names no blocks any more. Of every other slot all bytes stay as they are.
pub proof fn law_recovery_round(c: ShmConfig, m: Seq<u8>, timeout: u64, now: u64, slot: int)
    requires
        fits(c, m),
        0 <= slot < c.slot_count,
        0 < c.block_count,
    ensures
        ({
            let n = region::recovered(c, m, timeout, now, c.slot_count as nat);
            &&& n.len() == m.len()
            &&& is_stale(m, slot, timeout, now) ==> is_vacant(n, slot)
            &&& !is_stale(m, slot, timeout, now) ==> same_slot(m, n, slot)
        }),
{
    lemma_recovered(c, m, timeout, now, c.slot_count as nat, slot);
}

/// After the first `n` slots were looked at, those of them that had waited for
/// too long are vacant, and all others are as they were.
proof fn lemma_recovered(c: ShmConfig, m: Seq<u8>, timeout: u64, now: u64, n: nat, slot: int)
    requires
        fits(c, m),
        0 <= slot < c.slot_count,
        n <= c.slot_count,
        0 < c.block_count,
    ensures
        ({
            let k = region::recovered(c, m, timeout, now, n);
            &&& k.len() == m.len()
            &&& slot < n && is_stale(m, slot, timeout, now) ==> is_vacant(k, slot)
            &&& slot >= n || !is_stale(m, slot, timeout, now) ==> same_slot(m, k, slot)
        }),
    decreases n,
{
    if n > 0 {
        let i = n - 1;
        let b = region::recovered(c, m, timeout, now, i as nat);
        let k = region::recovered(c, m, timeout, now, n);
        lemma_recovered(c, m, timeout, now, i as nat, slot);
        if i == slot {
            lemma_same_slot(m, b, region::slot_off(slot));
            law_recovery_frees_stale_slots(c, b, slot, timeout, now);
            lemma_recover_keeps_size(c, b, i, timeout, now);
        } else {
            lemma_recover_keeps_slots(c, b, i, timeout, now, slot);
            lemma_same_slot(b, k, region::slot_off(slot));
        }
    }
}

/// Recovering a slot keeps the size of the segment.
proof fn lemma_recover_keeps_size(c: ShmConfig, m: Seq<u8>, slot: int, timeout: u64, now: u64)
    requires
        fits(c, m),
        0 <= slot < c.slot_count,
        0 < c.block_count,
    ensures
        region::after_recover(c, m, slot, timeout, now).len() == m.len(),
{
    let m1 = memory::put32(m, region::slot_off(slot) + S_STATE, PROCESSING);
    lemma_drop(c, m1, slot, S_REQUEST_BLOCK as int);
    let m2 = region::after_drop(c, m1, slot, S_REQUEST_BLOCK as int);
    lemma_drop(c, m2, slot, S_RESPONSE_BLOCK as int);
}

/// Recovering a slot changes no byte of another one.
proof fn lemma_recover_keeps_slots(
    c: ShmConfig,
    m: Seq<u8>,
    slot: int,
    timeout: u64,
    now: u64,
    other: int,
)
    requires
        fits(c, m),
        0 <= slot < c.slot_count,
        0 <= other < c.slot_count,
        other != slot,
        0 < c.block_count,
    ensures
        region::after_recover(c, m, slot, timeout, now).len() == m.len(),
        same_slot(m, region::after_recover(c, m, slot, timeout, now), other),
{
    region::lemma_slot(c, slot);
    region::lemma_slot(c, other);
    lemma_slots_apart(slot, other);
    let m1 = memory::put32(m, region::slot_off(slot) + S_STATE, PROCESSING);
    lemma_drop_keeps_slots(c, m1, slot, S_REQUEST_BLOCK as int, other);
    let m2 = region::after_drop(c, m1, slot, S_REQUEST_BLOCK as int);
    lemma_drop_keeps_slots(c, m2, slot, S_RESPONSE_BLOCK as int, other);
}

/// Dropping the block of a slot changes no byte of another one.
proof fn lemma_drop_keeps_slots(c: ShmConfig, m: Seq<u8>, slot: int, off: int, other: int)
    requires
        fits(c, m),
        0 <= slot < c.slot_count,
        0 <= other < c.slot_count,
        other != slot,
        0 < c.block_count,
        off == S_REQUEST_BLOCK || off == S_RESPONSE_BLOCK,
    ensures
        region::after_drop(c, m, slot, off).len() == m.len(),
        same_slot(m, region::after_drop(c, m, slot, off), other),
{
    region::lemma_slot(c, slot);
    region::lemma_slot(c, other);
    lemma_slots_apart(slot, other);
    lemma_pool_keeps_slots(c, m, memory::u32_at(m, region::slot_off(slot) + off), other);
}

proof fn lemma_drop(c: ShmConfig, m: Seq<u8>, slot: int, off: int)
    requires
        fits(c, m),
        0 <= slot < c.slot_count,
        0 < c.block_count,
        off == S_REQUEST_BLOCK || off == S_RESPONSE_BLOCK,
    ensures
        ({
            let n = region::after_drop(c, m, slot, off);
            &&& n.len() == m.len()
            &&& memory::u32_at(n, region::slot_off(slot) + off) == NO_BLOCK
            &&& off == S_RESPONSE_BLOCK ==> service::request_block(n, slot)
                == service::request_block(m, slot)
        }),
{
    region::lemma_slot(c, slot);
    lemma_pool(c, m, 0);
    let block = memory::u32_at(m, region::slot_off(slot) + off);
    if block < c.block_count {
        lemma_pool(c, m, block as int);
    }
}

/// Taking a block from the pool, or giving one back, leaves the slots alone.
proof fn lemma_pool_keeps_slots(c: ShmConfig, m: Seq<u8>, block: u32, slot: int)
    requires
        fits(c, m),
        0 <= slot < c.slot_count,
        0 < c.block_count,
    ensures
        ({
            let p = region::pool_of(c);
            let s = region::slot_off(slot);
            &&& p.after_free(m, block).len() == m.len()
            &&& p.after_alloc(m).len() == m.len()
            &&& forall|i: int|
                s <= i < s + SLOT_SIZE ==> #[trigger] p.after_free(m, block)[i] == m[i]
            &&& forall|i: int| s <= i < s + SLOT_SIZE ==> #[trigger] p.after_alloc(m)[i] == m[i]
        }),
{
    region::lemma_slot(c, slot);
    lemma_pool(c, m, 0);
    if block < c.block_count {
        lemma_pool(c, m, block as int);
    }
}

/// A request that a client hands over is what the server takes.
#[verifier::rlimit(40)]
pub proof fn law_submitted_request_is_taken(
    c: ShmConfig,
    m: Seq<u8>,
    slot: int,
    block: u32,
    v: types::RequestView,
    now: u64,
)
    requires
        fits(c, m),
        0 <= slot < c.slot_count,
        block < c.block_count,
        exchange::request_fault(v, c.block_size as nat) is None,
        types::distinct_keys(v.headers),
    ensures
        ({
            let n = service::after_submit(c, m, slot, block, v);
            &&& region::state_of(n, slot) == REQUEST_READY
            &&& exchange::request_at(c, service::with_claim(n, slot, now), slot) == Ok::<
                types::RequestView,
                crate::error::CrossbarErrorView,
            >(v)
            &&& region::state_of(service::after_take(c, n, slot, now), slot) == PROCESSING
        }),
{
    law_request_round_trip(c, m, slot, block, v);
    region::lemma_slot(c, slot);
    region::lemma_header_room(c);
    lemma_pool(c, m, block as int);
    let a = exchange::after_request(c, m, slot, block, v);
    let b = memory::put32(a, region::slot_off(slot) + S_STATE, REQUEST_READY);
    let n = service::after_submit(c, m, slot, block, v);
    let k = service::with_claim(n, slot, now);
    assert(a.len() == m.len());
    lemma_same_request(c, a, k, slot);
    lemma_pool_keeps_slots(c, k, service::request_block(k, slot), slot);
    let t = service::after_take(c, n, slot, now);
    let s = region::slot_off(slot);
    assert(k[s] == t[s] && k[s + 1] == t[s + 1] && k[s + 2] == t[s + 2] && k[s + 3] == t[s + 3]);
    lemma_same_u32(k, t, s + S_STATE);
}

/// A request that was handed over names its block.
pub proof fn lemma_submitted_block(
    c: ShmConfig,
    m: Seq<u8>,
    slot: int,
    block: u32,
    v: types::RequestView,
)
    requires
        fits(c, m),
        0 <= slot < c.slot_count,
        block < c.block_count,
        exchange::request_fault(v, c.block_size as nat) is None,
    ensures
        service::request_block(service::after_submit(c, m, slot, block, v), slot) == block,
        service::after_submit(c, m, slot, block, v).len() == m.len(),
{
    region::lemma_slot(c, slot);
    region::lemma_header_room(c);
    lemma_pool(c, m, block as int);
}

/// Taking a request and letting it go leaves a segment of the same size.
pub proof fn lemma_taken_fits(c: ShmConfig, m: Seq<u8>, slot: int, now: u64, block: u32)
    requires
        fits(c, m),
        0 <= slot < c.slot_count,
        block < c.block_count,
        region::state_of(m, slot) == REQUEST_READY,
        exchange::request_at(c, service::with_claim(m, slot, now), slot) is Ok,
    ensures
        fits(c, service::after_take(c, m, slot, now)),
        fits(c, region::pool_of(c).after_free(service::after_take(c, m, slot, now), block)),
{
    lemma_pool(c, m, block as int);
}

/// The request of a slot is the same where its data and its block are.
proof fn lemma_same_request(c: ShmConfig, a: Seq<u8>, b: Seq<u8>, slot: int)
    requires
        fits(c, a),
        a.len() == b.len(),
        0 <= slot < c.slot_count,
        0 < c.block_count,
        forall|i: int|
            region::slot_off(slot) + region::S_METHOD <= i < region::slot_off(slot) + SLOT_SIZE
                ==> #[trigger] a[i] == b[i],
        forall|i: int|
            GLOBAL_HEADER_SIZE + c.slot_count * SLOT_SIZE <= i < a.len() ==> #[trigger] a[i]
                == b[i],
    ensures
        exchange::request_at(c, a, slot) == exchange::request_at(c, b, slot),
        service::request_block(a, slot) == service::request_block(b, slot),
{
    region::lemma_slot(c, slot);
    let block = service::request_block(a, slot);
    assert(service::request_block(b, slot) == block);
    assert(exchange::request_meta(a, slot) == exchange::request_meta(b, slot));
    if block < c.block_count {
        lemma_pool(c, a, block as int);
        let o = region::pool_of(c).block(block as int);
        assert(memory::bytes_at(a, o, c.block_size as int) =~= memory::bytes_at(
            b,
            o,
            c.block_size as int,
        ));
    }
}

/// An answer is what the client receives: the response, or the report that it
/// was too large, or status 503 where there was no block for it. The slot is
/// free after that.
pub proof fn law_answer_is_received(
    c: ShmConfig,
    m: Seq<u8>,
    slot: int,
    v: types::ResponseView,
    expired: bool,
)
    requires
        fits(c, m),
        0 <= slot < c.slot_count,
        0 < c.block_count < NO_BLOCK,
        types::distinct_keys(v.headers),
    ensures
        ({
            let n = service::after_answer(c, m, slot, v);
            let expected = match region::pool_of(c).alloc_choice(m) {
                Some(_) => exchange::stored_response(v, c.block_size as nat),
                None => types::plain_response(503, Seq::empty()),
            };
            &&& service::polled(c, n, slot, expired) == Some(
                Ok::<types::ResponseView, crate::error::CrossbarErrorView>(expected),
            )
            &&& region::state_of(service::after_poll(c, n, slot, expired), slot) == FREE
        }),
{
    region::lemma_slot(c, slot);
    let p = region::pool_of(c);
    let n = service::after_answer(c, m, slot, v);
    lemma_pool_keeps_slots(c, m, NO_BLOCK, slot);
    match p.alloc_choice(m) {
        Some(block) => {
            let m1 = p.after_alloc(m);
            let w = exchange::stored_response(v, c.block_size as nat);
            lemma_stored_fits(c, v);
            let m2 = exchange::after_refused_response(c, m1, block, v);
            lemma_fitting_response(c, m2, slot, block, w);
            let a = exchange::after_response(c, m1, slot, block, v);
            lemma_same_response(c, a, n, slot);
        },
        None => {},
    }
    assert(n.len() == m.len());
    lemma_pool_keeps_slots(c, n, service::response_block(n, slot), slot);
}

/// The response of a slot is the same where its data and its block are.
proof fn lemma_same_response(c: ShmConfig, a: Seq<u8>, b: Seq<u8>, slot: int)
    requires
        fits(c, a),
        a.len() == b.len(),
        0 <= slot < c.slot_count,
        0 < c.block_count,
        forall|i: int|
            region::slot_off(slot) + region::S_METHOD <= i < region::slot_off(slot) + SLOT_SIZE
                ==> #[trigger] a[i] == b[i],
        forall|i: int|
            GLOBAL_HEADER_SIZE + c.slot_count * SLOT_SIZE <= i < a.len() ==> #[trigger] a[i]
                == b[i],
    ensures
        exchange::response_at(c, a, slot) == exchange::response_at(c, b, slot),
        service::response_block(a, slot) == service::response_block(b, slot),
{
    region::lemma_slot(c, slot);
    let block = service::response_block(a, slot);
    assert(service::response_block(b, slot) == block);
    assert(exchange::response_meta(a, slot) == exchange::response_meta(b, slot));
    if block < c.block_count {
        lemma_pool(c, a, block as int);
        let o = region::pool_of(c).block(block as int);
        assert(memory::bytes_at(a, o, c.block_size as int) =~= memory::bytes_at(
            b,
            o,
            c.block_size as int,
        ));
    }
}

/// A server that takes a request which a client handed over, and keeps its block,
/// leaves the list head alone.
pub proof fn lemma_submit_keeps_head(
    c: ShmConfig,
    m: Seq<u8>,
    slot: int,
    block: u32,
    v: types::RequestView,
    now: u64,
)
    requires
        fits(c, m),
        0 <= slot < c.slot_count,
        block < c.block_count,
        exchange::request_fault(v, c.block_size as nat) is None,
    ensures
        region::pool_of(c).first(
            service::with_claim(service::after_submit(c, m, slot, block, v), slot, now),
        ) == region::pool_of(c).first(m),
{
    region::lemma_slot(c, slot);
    region::lemma_header_room(c);
    lemma_pool(c, m, block as int);
}

/// An answer stays what it is when a block goes back to the pool that was not
/// the one taken for it.
pub proof fn lemma_freed_block_keeps_answer(
    c: ShmConfig,
    m: Seq<u8>,
    slot: int,
    v: types::ResponseView,
    expired: bool,
    block: u32,
)
    requires
        fits(c, m),
        0 <= slot < c.slot_count,
        block < c.block_count < NO_BLOCK,
        region::pool_of(c).first(m) != block,
        types::distinct_keys(v.headers),
    ensures
        ({
            let n = service::after_answer(c, m, slot, v);
            service::polled(c, region::pool_of(c).after_free(n, block), slot, expired)
                == service::polled(c, n, slot, expired)
        }),
{
    let p = region::pool_of(c);
    let n = service::after_answer(c, m, slot, v);
    let k = p.after_free(n, block);
    region::lemma_slot(c, slot);
    lemma_pool(c, m, block as int);
    lemma_pool_keeps_slots(c, m, NO_BLOCK, slot);
    assert(n.len() == m.len());
    lemma_pool_keeps_slots(c, n, block, slot);
    let s = region::slot_off(slot);
    assert forall|i: int| s <= i < s + SLOT_SIZE implies #[trigger] k[i] == n[i] by {}
    match p.alloc_choice(m) {
        Some(other) => {
            let m1 = p.after_alloc(m);
            let m2 = exchange::after_refused_response(c, m1, other, v);
            lemma_stored_fits(c, v);
            lemma_fitting_response(
                c,
                m2,
                slot,
                other,
                exchange::stored_response(v, c.block_size as nat),
            );
            let a = exchange::after_response(c, m1, slot, other, v);
            lemma_same_response(c, a, n, slot);
            assert(service::response_block(n, slot) == other);
            lemma_pool(c, m, other as int);
            if other < block {
                pool::lemma_blocks_apart(p, other as int, block as int);
            } else {
                pool::lemma_blocks_apart(p, block as int, other as int);
            }
            let o = p.block(other as int);
            assert(memory::bytes_at(k, o, c.block_size as int) =~= memory::bytes_at(
                n,
                o,
                c.block_size as int,
            ));
        },
        None => {
            assert(service::response_block(n, slot) == NO_BLOCK);
        },
    }
    lemma_same_slot(n, k, s);
}

/// A slot with the same bytes has the same state and the same data of its
/// response.
proof fn lemma_same_slot(a: Seq<u8>, b: Seq<u8>, s: int)
    requires
        forall|i: int| s <= i < s + SLOT_SIZE ==> #[trigger] b[i] == a[i],
    ensures
        memory::u32_at(b, s + S_STATE) == memory::u32_at(a, s + S_STATE),
        memory::u16_at(b, s + S_STATUS) == memory::u16_at(a, s + S_STATUS),
        memory::u32_at(b, s + S_RESPONSE_BLOCK) == memory::u32_at(a, s + S_RESPONSE_BLOCK),
        memory::u32_at(b, s + S_RESPONSE_BODY_LEN) == memory::u32_at(a, s + S_RESPONSE_BODY_LEN),
        memory::u32_at(b, s + S_RESPONSE_HEADERS_LEN) == memory::u32_at(
            a,
            s + S_RESPONSE_HEADERS_LEN,
        ),
        memory::u32_at(b, s + S_REQUEST_BLOCK) == memory::u32_at(a, s + S_REQUEST_BLOCK),
        memory::u64_at(b, s + S_TIMESTAMP) == memory::u64_at(a, s + S_TIMESTAMP),
{
    lemma_same_u32(a, b, s + S_STATE);
    lemma_same_u32(a, b, s + S_RESPONSE_BLOCK);
    lemma_same_u32(a, b, s + S_RESPONSE_BODY_LEN);
    lemma_same_u32(a, b, s + S_RESPONSE_HEADERS_LEN);
    lemma_same_u32(a, b, s + S_REQUEST_BLOCK);
    lemma_same_u32(a, b, s + S_TIMESTAMP);
    lemma_same_u32(a, b, s + S_TIMESTAMP + 4);
}

/// A client that has waited for too long withdraws a request that the server
/// has not begun with: the slot is free, and the block of the request is the
/// next one to be taken.
pub proof fn law_expired_request_is_withdrawn(c: ShmConfig, m: Seq<u8>, slot: int)
    requires
        fits(c, m),
        0 <= slot < c.slot_count,
        region::state_of(m, slot) == REQUEST_READY,
        service::request_block(m, slot) < c.block_count < NO_BLOCK,
    ensures
        ({
            let n = service::after_poll(c, m, slot, true);
            &&& service::polled(c, m, slot, true) == Some(
                Err::<types::ResponseView, crate::error::CrossbarErrorView>(
                    crate::error::CrossbarErrorView::ShmServerDead,
                ),
            )
            &&& region::state_of(n, slot) == FREE
            &&& region::pool_of(c).first(n) == service::request_block(m, slot)
        }),
{
    region::lemma_slot(c, slot);
    let block = service::request_block(m, slot);
    let m1 = memory::put32(m, region::slot_off(slot) + S_STATE, FREE);
    lemma_pool(c, m1, block as int);
    lemma_pool_keeps_slots(c, m1, block, slot);
    pool::law_pack_unpack(
        memory::wrapping_sum_u32(
            region::pool_of(c).generation(
                memory::put32(
                    m1,
                    region::pool_of(c).block(block as int),
                    region::pool_of(c).first(m1),
                ),
            ),
            1,
        ),
        block,
        0,
    );
}

/// A server that was told of work does not sleep.
pub proof fn law_notified_server_does_not_sleep(c: ShmConfig, m: Seq<u8>)
    requires
        fits(c, m),
    ensures
        memory::u32_at(
            memory::put32(m, region::H_NOTIFY as int, 1),
            region::H_NOTIFY as int,
        ) != 0,
{
    region::lemma_header_room(c);
}

/// A heartbeat keeps the server alive for as long as the timeout.
pub proof fn law_heartbeat_keeps_alive(c: ShmConfig, m: Seq<u8>, beat: u64, now: u64, timeout: u64)
    requires
        fits(c, m),
    ensures
        now - memory::u64_at(
            memory::put64(m, region::H_HEARTBEAT as int, beat),
            region::H_HEARTBEAT as int,
        ) > timeout <==> now - beat > timeout,
{
    region::lemma_header_room(c);
}

} // verus!
