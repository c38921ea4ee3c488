//! What is read from the bytes of requests and responses, and what a request is answered.

use crate::error::CrossbarErrorView;
use crate::handler::{Handler, SyncFn0, SyncFn1};
use crate::memory;
use crate::route_laws::{self, is_for};
use crate::router::{self, Router};
use crate::transport::client;
use crate::transport::frame;
use crate::transport::headers;
use crate::transport::message_laws::{self, are_short, headers_size, response_is_small};
use crate::transport::shm::exchange::{self, RequestMeta, ResponseMeta};
use crate::transport::shm::laws;
use crate::transport::shm::region::{self, ShmConfig, NO_BLOCK};
use crate::transport::shm::rpc_message;
use crate::transport::shm::service;
use crate::types::{self, IntoResponse, Pairs, Request, ResponseView};
use vstd::prelude::*;

verus! {

broadcast use crate::memory::group_memory;

/// Headers are read one by one: a header is the length of its key in two bytes, the key, the
/// length of its value in two bytes, and the value. What is cut off, or is not UTF-8, is
/// refused; of two headers with one key the later one counts.
pub proof fn law_headers_are_read_one_by_one(data: Seq<u8>, pos: int, n: nat, before: Pairs)
    requires
        0 <= pos,
    ensures
        headers::entries_from(data, pos, 0, before) == Ok::<Pairs, Seq<char>>(before),
        n > 0 ==> {
            let mid = pos + 2 + memory::u16_at(data, pos);
            let end = mid + 2 + memory::u16_at(data, mid);
            let key = data.subrange(pos + 2, mid);
            let value = data.subrange(mid + 2, end);
            let whole = pos + 2 <= data.len() && mid + 2 <= data.len() && end <= data.len()
                && vstd::utf8::valid_utf8(key) && vstd::utf8::valid_utf8(value);
            &&& !whole ==> headers::entries_from(data, pos, n, before) is Err
            &&& whole ==> headers::entries_from(data, pos, n, before) == headers::entries_from(
                data,
                end,
                (n - 1) as nat,
                types::with_pair(
                    before,
                    vstd::utf8::decode_utf8(key),
                    vstd::utf8::decode_utf8(value),
                ),
            )
        },
        data.len() < 2 ==> headers::headers_in(data) is Err,
        data.len() >= 2 ==> headers::headers_in(data) == headers::entries_from(
            data,
            2,
            (data[0] + 256 * data[1]) as nat,
            Seq::empty(),
        ),
{
}

/// Headers can be read from some bytes; no bytes at all are no headers.
pub open spec fn are_headers(b: Seq<u8>, p: Pairs) -> bool {
    if b.len() == 0 {
        p.len() == 0
    } else {
        headers::headers_in(b) == Ok::<Pairs, Seq<char>>(p)
    }
}

/// A request is read from a block exactly if its method is one, its lengths are within the
/// block, its URI is UTF-8, and its headers can be read. Then its body comes first, its URI
/// behind that, and its headers last.
#[verifier::rlimit(50)]
pub proof fn law_request_read_from_a_block(meta: RequestMeta, b: Seq<u8>)
    ensures
        ({
            let body = meta.body_len as int;
            let uri = body + meta.uri_len;
            let end = uri + meta.headers_len;
            let r = exchange::request_in_block(meta, b);
            &&& r is Ok <==> {
                &&& meta.method < 5
                &&& end <= b.len()
                &&& vstd::utf8::valid_utf8(b.subrange(body, uri))
                &&& exists|p: Pairs| are_headers(b.subrange(uri, end), p)
            }
            &&& r matches Ok(v) ==> {
                &&& types::method_byte(v.method) == meta.method
                &&& v.body == b.subrange(0, body)
                &&& vstd::utf8::encode_utf8(v.uri) == b.subrange(body, uri)
                &&& are_headers(b.subrange(uri, end), v.headers)
            }
            &&& meta.method >= 5 ==> r == Err::<types::RequestView, CrossbarErrorView>(
                CrossbarErrorView::InvalidMethod(meta.method),
            )
        }),
{
    let body = meta.body_len as int;
    let uri = body + meta.uri_len;
    let end = uri + meta.headers_len;
    types::law_method_bytes(
        if meta.method < 5 {
            types::byte_method(meta.method)->0
        } else {
            types::Method::Get
        },
        meta.method,
    );
    lemma_headers_or_none(b.subrange(uri, end));
    if end <= b.len() && vstd::utf8::valid_utf8(b.subrange(body, uri)) {
        vstd::utf8::decode_utf8_encode_utf8(b.subrange(body, uri));
    }
}

proof fn lemma_headers_or_none(b: Seq<u8>)
    ensures
        exchange::headers_or_none(b) is Ok <==> exists|p: Pairs| are_headers(b, p),
        exchange::headers_or_none(b) matches Ok(p) ==> are_headers(b, p),
        rpc_message::headers_or_none(b) == exchange::headers_or_none(b),
{
    if exchange::headers_or_none(b) is Ok {
        assert(are_headers(b, exchange::headers_or_none(b)->Ok_0));
    }
}

/// A response is read from a block exactly if its lengths are within the block and its
/// headers can be read. It has the status that stands there; its body comes first, and its
/// headers behind that.
pub proof fn law_response_read_from_a_block(meta: ResponseMeta, b: Seq<u8>)
    ensures
        ({
            let body = meta.body_len as int;
            let end = body + meta.headers_len;
            let r = exchange::response_in_block(meta, b);
            &&& r is Ok <==> {
                &&& end <= b.len()
                &&& exists|p: Pairs| are_headers(b.subrange(body, end), p)
            }
            &&& r matches Ok(v) ==> {
                &&& v.status == meta.status
                &&& v.body == b.subrange(0, body)
                &&& are_headers(b.subrange(body, end), v.headers)
            }
        }),
{
    let body = meta.body_len as int;
    lemma_headers_or_none(b.subrange(body, body + meta.headers_len));
}

/// A request of the ring exchange is read exactly if there are the sixteen bytes of its head,
/// its method is one, its lengths are within what there is, its URI is UTF-8, and its headers
/// can be read. Its body comes behind the head, then its URI, and its headers last; its
/// number is in the last four bytes of the head.
#[verifier::rlimit(50)]
pub proof fn law_request_read_from_a_message(b: Seq<u8>)
    ensures
        ({
            let body = 16 + memory::u32_at(b, 4) as int;
            let uri = body + memory::u16_at(b, 2);
            let end = uri + memory::u32_at(b, 8);
            let r = rpc_message::request_in(b);
            &&& r is Ok <==> {
                &&& b.len() >= 16
                &&& b[0] < 5
                &&& end <= b.len()
                &&& vstd::utf8::valid_utf8(b.subrange(body, uri))
                &&& exists|p: Pairs| are_headers(b.subrange(uri, end), p)
            }
            &&& r matches Ok(x) ==> {
                &&& types::method_byte(x.0.method) == b[0]
                &&& x.0.body == b.subrange(16, body)
                &&& vstd::utf8::encode_utf8(x.0.uri) == b.subrange(body, uri)
                &&& are_headers(b.subrange(uri, end), x.0.headers)
                &&& x.1 == memory::u32_at(b, 12)
            }
        }),
{
    let body = 16 + memory::u32_at(b, 4) as int;
    let uri = body + memory::u16_at(b, 2);
    let end = uri + memory::u32_at(b, 8);
    types::law_method_bytes(
        if b[0] < 5 {
            types::byte_method(b[0])->0
        } else {
            types::Method::Get
        },
        b[0],
    );
    lemma_headers_or_none(b.subrange(uri, end));
    if end <= b.len() && vstd::utf8::valid_utf8(b.subrange(body, uri)) {
        vstd::utf8::decode_utf8_encode_utf8(b.subrange(body, uri));
    }
}

/// A response of the ring exchange is read exactly if there are the sixteen bytes of its
/// head, its lengths are within what there is, and its headers can be read. Its status is in
/// the first two bytes, its number in the last four of the head.
pub proof fn law_response_read_from_a_message(b: Seq<u8>)
    ensures
        ({
            let body = 16 + memory::u32_at(b, 4) as int;
            let end = body + memory::u32_at(b, 8);
            let r = rpc_message::response_in(b);
            &&& r is Ok <==> {
                &&& b.len() >= 16
                &&& end <= b.len()
                &&& exists|p: Pairs| are_headers(b.subrange(body, end), p)
            }
            &&& r matches Ok(x) ==> {
                &&& x.0.status == memory::u16_at(b, 0)
                &&& x.0.body == b.subrange(16, body)
                &&& are_headers(b.subrange(body, end), x.0.headers)
                &&& x.1 == memory::u32_at(b, 12)
            }
        }),
{
    let body = 16 + memory::u32_at(b, 4) as int;
    lemma_headers_or_none(b.subrange(body, body + memory::u32_at(b, 8)));
}

/// A response whose body is in its block already is read with that body and its status, and
/// with its headers if there is room for them behind the body; otherwise without headers.
pub proof fn law_direct_response_is_read(
    c: ShmConfig,
    m: Seq<u8>,
    slot: int,
    block: u32,
    body_len: nat,
    p: Pairs,
    status: u16,
)
    requires
        laws::fits(c, m),
        0 <= slot < c.slot_count,
        block < c.block_count,
        types::distinct_keys(p),
        body_len <= c.block_size,
    ensures
        exchange::response_at(
            c,
            exchange::after_response_tail(c, m, slot, block, body_len, p, status),
            slot,
        ) == Ok::<ResponseView, CrossbarErrorView>(
            ResponseView {
                status,
                headers: if body_len + headers_size(p) <= c.block_size && are_short(p) {
                    p
                } else {
                    Seq::empty()
                },
                body: memory::bytes_at(
                    m,
                    region::pool_of(c).block(block as int),
                    body_len as int,
                ),
            },
        ),
{
    let n = exchange::after_response_tail(c, m, slot, block, body_len, p, status);
    lemma_tail_written(c, m, slot, block, body_len, p, status, n);
    lemma_direct(c, m, n, slot, block, body_len, p, status);
}

#[verifier::rlimit(40)]
proof fn lemma_tail_written(
    c: ShmConfig,
    m: Seq<u8>,
    slot: int,
    block: u32,
    body_len: nat,
    p: Pairs,
    status: u16,
    n: Seq<u8>,
)
    requires
        laws::fits(c, m),
        0 <= slot < c.slot_count,
        block < c.block_count,
        body_len <= c.block_size,
        n == exchange::after_response_tail(c, m, slot, block, body_len, p, status),
    ensures
        tail_stands(
            c,
            m,
            n,
            slot,
            block,
            body_len,
            exchange::response_tail(body_len, p, c.block_size as nat),
            exchange::response_tail_len(body_len, p, c.block_size as nat) as u32,
            status,
        ),
        region::pool_of(c).block(block as int) >= 0,
        region::pool_of(c).block(block as int) + c.block_size <= m.len(),
{
    headers::lemma_written_fits(p, (c.block_size - body_len) as nat);
    let t = exchange::response_tail(body_len, p, c.block_size as nat);
    let len = exchange::response_tail_len(body_len, p, c.block_size as nat) as u32;
    lemma_tail(c, m, slot, block, body_len, t, len, status, n);
}

proof fn lemma_direct(
    c: ShmConfig,
    m: Seq<u8>,
    n: Seq<u8>,
    slot: int,
    block: u32,
    body_len: nat,
    p: Pairs,
    status: u16,
)
    requires
        block < c.block_count,
        types::distinct_keys(p),
        body_len <= c.block_size,
        tail_stands(
            c,
            m,
            n,
            slot,
            block,
            body_len,
            exchange::response_tail(body_len, p, c.block_size as nat),
            exchange::response_tail_len(body_len, p, c.block_size as nat) as u32,
            status,
        ),
        region::pool_of(c).block(block as int) >= 0,
        region::pool_of(c).block(block as int) + c.block_size <= m.len(),
    ensures
        exchange::response_at(c, n, slot) == Ok::<ResponseView, CrossbarErrorView>(
            ResponseView {
                status,
                headers: if body_len + headers_size(p) <= c.block_size && are_short(p) {
                    p
                } else {
                    Seq::empty()
                },
                body: memory::bytes_at(
                    m,
                    region::pool_of(c).block(block as int),
                    body_len as int,
                ),
            },
        ),
{
    reveal(tail_stands);
    let b = region::pool_of(c).block(block as int);
    let d = memory::bytes_at(n, b, c.block_size as int);
    lemma_read_tail(d, body_len, p, status, c.block_size as nat);
    assert(d.subrange(0, body_len as int) =~= memory::bytes_at(m, b, body_len as int));
}

/// A response stands in its slot and its block: its data in the slot, the body of `m`, and
/// the bytes behind it.
#[verifier::opaque]
spec fn tail_stands(
    c: ShmConfig,
    m: Seq<u8>,
    n: Seq<u8>,
    slot: int,
    block: u32,
    body_len: nat,
    t: Seq<u8>,
    len: u32,
    status: u16,
) -> bool {
    let b = region::pool_of(c).block(block as int);
    let d = memory::bytes_at(n, b, c.block_size as int);
    &&& exchange::response_meta(n, slot) == (ResponseMeta {
        status,
        body_len: body_len as u32,
        headers_len: len,
    })
    &&& memory::u32_at(n, region::slot_off(slot) + region::S_RESPONSE_BLOCK) == block
    &&& d.len() == c.block_size
    &&& forall|i: int| 0 <= i < body_len ==> #[trigger] d[i] == m[b + i]
    &&& forall|i: int|
        body_len <= i < body_len + t.len() ==> #[trigger] d[i] == t[i - body_len]
}

#[verifier::rlimit(50)]
proof fn lemma_read_tail(d: Seq<u8>, body_len: nat, p: Pairs, status: u16, size: nat)
    requires
        d.len() == size,
        size <= u32::MAX,
        body_len <= size,
        types::distinct_keys(p),
        ({
            let t = exchange::response_tail(body_len, p, size);
            forall|i: int|
                body_len <= i < body_len + t.len() ==> #[trigger] d[i] == t[i - body_len]
        }),
    ensures
        exchange::response_in_block(
            ResponseMeta {
                status,
                body_len: body_len as u32,
                headers_len: exchange::response_tail_len(body_len, p, size) as u32,
            },
            d,
        ) == Ok::<ResponseView, CrossbarErrorView>(
            ResponseView {
                status,
                headers: if body_len + headers_size(p) <= size && are_short(p) {
                    p
                } else {
                    Seq::empty()
                },
                body: d.subrange(0, body_len as int),
            },
        ),
{
    let room = (size - body_len) as nat;
    message_laws::law_headers_take_their_size(p, room);
    let e = body_len as int;
    if body_len + headers_size(p) <= size && are_short(p) {
        let h = headers::header_bytes(p);
        lemma_all_written(p, room);
        assert(exchange::response_tail(body_len, p, size) == h);
        assert(d.subrange(e, (e + h.len()) as int) =~= h);
        headers::law_headers_round_trip(p, Seq::empty());
        assert(h + Seq::<u8>::empty() =~= h);
    } else {
        assert(d.subrange(e, e).len() == 0);
    }
}

proof fn lemma_tail(
    c: ShmConfig,
    m: Seq<u8>,
    slot: int,
    block: u32,
    body_len: nat,
    t: Seq<u8>,
    len: u32,
    status: u16,
    n: Seq<u8>,
)
    requires
        laws::fits(c, m),
        0 <= slot < c.slot_count,
        block < c.block_count,
        body_len + t.len() <= c.block_size,
        n == exchange::with_response_meta(
            memory::put(m, region::pool_of(c).block(block as int) + body_len, t),
            slot,
            block,
            status,
            len,
            body_len as u32,
        ),
    ensures
        tail_stands(c, m, n, slot, block, body_len, t, len, status),
        region::pool_of(c).block(block as int) >= 0,
        region::pool_of(c).block(block as int) + c.block_size <= m.len(),
{
    reveal(tail_stands);
    laws::lemma_pool(c, m, block as int);
    region::lemma_slot(c, slot);
}

proof fn lemma_all_written(p: Pairs, max: nat)
    requires
        are_short(p),
        headers_size(p) <= max,
    ensures
        headers::headers_written(p, max) == headers::header_bytes(p),
{
    message_laws::law_headers_take_their_size(p, max);
    lemma_entries_all_written(p, max, 0, 2);
}

proof fn lemma_entries_all_written(p: Pairs, max: nat, i: int, pos: nat)
    requires
        0 <= i <= p.len(),
        headers::entry_fault(p, max, i, pos) is None,
    ensures
        headers::entries_written(p, max, i, pos) == p.len(),
    decreases p.len() - i,
{
    if i < p.len() {
        let k = types::text_bytes(p[i].0).len();
        let v = types::text_bytes(p[i].1).len();
        lemma_entries_all_written(p, max, i + 1, pos + 4 + k + v);
    }
}

/// A request that makes no sense is answered with status 400, or with status 503 if there is
/// no block for that: one whose method is none, whose lengths are not within its block, or
/// whose block there is not.
#[verifier::rlimit(50)]
pub proof fn law_senseless_request_is_answered(
    c: ShmConfig,
    m: Seq<u8>,
    slot: int,
    now: u64,
    expired: bool,
)
    requires
        laws::fits(c, m),
        0 <= slot < c.slot_count,
        0 < c.block_count < NO_BLOCK,
        memory::u32_at(m, 128 + slot * 64) == 1,
        ({
            let s = 128 + slot * 64;
            ||| memory::u32_at(m, s + 40) >= c.block_count
            ||| m[s + 24] >= 5
            ||| memory::u32_at(m, s + 28) + memory::u32_at(m, s + 32) + memory::u32_at(m, s + 36)
                > c.block_size
        }),
    ensures
        ({
            let n = service::after_take(c, m, slot, now);
            let w = service::polled(c, n, slot, expired);
            ||| w == Some(
                Ok::<ResponseView, CrossbarErrorView>(
                    ResponseView {
                        status: 400,
                        headers: Seq::empty(),
                        body: vstd::utf8::encode_utf8("malformed shm request"@),
                    },
                ),
            )
            ||| w == Some(
                Ok::<ResponseView, CrossbarErrorView>(
                    ResponseView { status: 503, headers: Seq::empty(), body: Seq::empty() },
                ),
            )
        }),
{
    let s = region::slot_off(slot);
    let m1 = service::with_claim(m, slot, now);
    lemma_senseless(c, m, slot, now);
    let block = service::request_block(m1, slot);
    let n1 = region::pool_of(c).after_free(m1, block);
    let n2 = memory::put32(n1, s + region::S_REQUEST_BLOCK, NO_BLOCK);
    let v = service::malformed();
    lemma_malformed();
    assert(response_is_small(v, c.block_size as nat));
    message_laws::law_response_is_stored_if_it_fits(v, c.block_size as nat);
    laws::law_answer_is_received(c, n2, slot, v, expired);
}

#[verifier::rlimit(50)]
proof fn lemma_senseless(c: ShmConfig, m: Seq<u8>, slot: int, now: u64)
    requires
        laws::fits(c, m),
        0 <= slot < c.slot_count,
        0 < c.block_count < NO_BLOCK,
        ({
            let s = 128 + slot * 64;
            ||| memory::u32_at(m, s + 40) >= c.block_count
            ||| m[s + 24] >= 5
            ||| memory::u32_at(m, s + 28) + memory::u32_at(m, s + 32) + memory::u32_at(m, s + 36)
                > c.block_size
        }),
    ensures
        ({
            let m1 = service::with_claim(m, slot, now);
            let block = service::request_block(m1, slot);
            &&& exchange::request_at(c, m1, slot) is Err
            &&& region::pool_of(c).after_free(m1, block).len() == m.len()
        }),
{
    let s = region::slot_off(slot);
    region::lemma_slot(c, slot);
    let m1 = service::with_claim(m, slot, now);
    assert(m1[s + 24] == m[s + 24]);
    assert(memory::u32_at(m1, s + 40) == memory::u32_at(m, s + 40));
    assert(memory::u32_at(m1, s + 28) == memory::u32_at(m, s + 28));
    assert(memory::u32_at(m1, s + 32) == memory::u32_at(m, s + 32));
    assert(memory::u32_at(m1, s + 36) == memory::u32_at(m, s + 36));
    let block = memory::u32_at(m1, s + 40);
    laws::lemma_pool(c, m1, 0);
    if block < c.block_count {
        laws::lemma_pool(c, m1, block as int);
        law_request_read_from_a_block(
            exchange::request_meta(m1, slot),
            memory::bytes_at(m1, region::pool_of(c).block(block as int), c.block_size as int),
        );
    }
}

proof fn lemma_malformed()
    ensures
        service::malformed().body.len() == 21,
        headers_size(service::malformed().headers) == 2,
{
    reveal_strlit("malformed shm request");
    let text = "malformed shm request"@;
    assert(vstd::utf8::is_ascii_chars(text));
    vstd::utf8::is_ascii_chars_encode_utf8(text);
}

/// A request that no route is for is answered with status 404 and no headers, and in no
/// other way; any other one is answered as the handler of the first route for it does.
#[verifier::rlimit(50)]
pub proof fn law_how_a_request_is_answered<H: Handler<T>, T>(
    router: Router<H>,
    req: Request,
    resp: ResponseView,
    held: Option<u32>,
    i: int,
)
    ensures
        (forall|j: int|
            0 <= j < router.routes@.len() ==> !is_for(
                #[trigger] router.routes@[j],
                req.method,
                req.uri.path@,
            )) ==> (client::may_answer::<H, T>(router, req, resp, held) <==> {
            &&& resp.status == 404
            &&& resp.headers.len() == 0
            &&& resp.body == vstd::utf8::encode_utf8("not found"@)
            &&& held is None
        }),
        0 <= i < router.routes@.len() && is_for(router.routes@[i], req.method, req.uri.path@) && (
        forall|j: int|
            0 <= j < i ==> !is_for(#[trigger] router.routes@[j], req.method, req.uri.path@))
            && client::may_answer::<H, T>(router, req, resp, held) ==> exists|q: Request|
            q@ == req@ && q.uri == req.uri && #[trigger] router.routes@[i].handler.answers(
                q,
                resp,
                held,
            ),
{
    route_laws::law_first_route_for_a_request(router.routes@, req.method, req.uri.path@);
    let none = Seq::<(Seq<char>, Seq<char>)>::empty();
    if resp.headers.len() == 0 {
        assert(resp.headers =~= none);
    }
    let found = router::first_route(router.routes@, req.method, req.uri.path@, 0);
    if found is Some && client::may_answer::<H, T>(router, req, resp, held) {
        let k = found->0;
        let q = choose|q: Request|
            router::is_routed(router.routes@[k], req, q)
                && #[trigger] router.routes@[k].handler.answers(q, resp, held);
        assert(q@ == req@);
        assert(router.routes@[k].handler.answers(q, resp, held));
    }
}

/// What a handler returned stands for a response whose body holds on to a block, if to any.
pub open spec fn stands_for<R: IntoResponse>(x: R, resp: ResponseView, held: Option<u32>) -> bool {
    resp == x.as_response() && held == x.response_block()
}

/// A handler that is a function answers with the response that the function's value stands
/// for, when it is called with the request, or without it.
#[verifier::rlimit(50)]
pub proof fn law_functions_answer<F, G, R>(
    f: F,
    g: G,
    req: Request,
    resp: ResponseView,
    held: Option<u32>,
) where F: Fn() -> R, G: Fn(Request) -> R, R: IntoResponse
    ensures
        SyncFn0(f).answers(req, resp, held) ==> exists|x: R|
            call_ensures(f, (), x) && #[trigger] stands_for(x, resp, held),
        SyncFn1(g).answers(req, resp, held) ==> exists|x: R|
            call_ensures(g, (req,), x) && #[trigger] stands_for(x, resp, held),
{
    if SyncFn0(f).answers(req, resp, held) {
        let x = choose|x: R| #[trigger]
            call_ensures(f, (), x) && resp == x.as_response() && held == x.response_block();
        assert(stands_for(x, resp, held));
    }
    if SyncFn1(g).answers(req, resp, held) {
        let x = choose|x: R| #[trigger]
            call_ensures(g, (req,), x) && resp == x.as_response() && held == x.response_block();
        assert(stands_for(x, resp, held));
    }
}

/// A request is read from a frame exactly if its URI is UTF-8 and its headers can be read:
/// its URI comes first, its headers behind that, and all the rest is its body. So it is with
/// a response, which has no URI.
pub proof fn law_messages_read_from_a_frame(
    head: frame::RequestHead,
    resp: frame::ResponseHead,
    b: Seq<u8>,
)
    ensures
        ({
            let u = head.uri_len as int;
            let h = u + head.headers_len;
            let r = frame::request_in(head, b);
            let whole = headers::headers_in(b.subrange(u, h));
            &&& r is Ok <==> vstd::utf8::valid_utf8(b.subrange(0, u)) && whole is Ok
            &&& r matches Ok(v) ==> {
                &&& v.method == head.method
                &&& v.uri == vstd::utf8::decode_utf8(b.subrange(0, u))
                &&& whole == Ok::<Pairs, Seq<char>>(v.headers)
                &&& v.body == b.subrange(h, b.len() as int)
            }
        }),
        ({
            let h = resp.headers_len as int;
            let r = frame::response_in(resp, b);
            let whole = headers::headers_in(b.subrange(0, h));
            &&& r is Ok <==> whole is Ok
            &&& r matches Ok(v) ==> {
                &&& v.status == resp.status
                &&& whole == Ok::<Pairs, Seq<char>>(v.headers)
                &&& v.body == b.subrange(h, b.len() as int)
            }
        }),
{
}

} // verus!
