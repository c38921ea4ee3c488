//! What requests and responses are carried for, stated over their sizes: what fits arrives
//! as it was sent, and what does not is refused, or reported as too large.

use crate::error::CrossbarErrorView;
use crate::handler::Handler;
use crate::memory;
use crate::protocol::pool;
use crate::router::Router;
use crate::transport::client;
use crate::transport::frame::{self, MAX_FRAME_SIZE};
use crate::transport::headers;
use crate::transport::shm::exchange;
use crate::transport::shm::laws;
use crate::transport::shm::pubsub_rpc::{self, PubSubRpcConfig};
use crate::transport::shm::region::{
    self, ShmConfig, FREE, NO_BLOCK, PROCESSING, REQUEST_READY, S_STATE,
};
use crate::transport::shm::rpc_message;
use crate::transport::shm::server;
use crate::transport::shm::service::{self, Inflight};
use crate::types::{self, Pairs, Request, RequestView, ResponseView};
use vstd::prelude::*;

verus! {

broadcast use crate::memory::group_memory;

/// Bytes of a text.
pub open spec fn size(s: Seq<char>) -> nat {
    vstd::utf8::encode_utf8(s).len()
}

/// Bytes that the first `n` headers take: their keys and values, and two lengths of two
/// bytes each.
pub open spec fn entries_size(p: Pairs, n: nat) -> nat
    decreases n,
{
    if n == 0 {
        0
    } else {
        entries_size(p, (n - 1) as nat) + 4 + size(p[n - 1].0) + size(p[n - 1].1)
    }
}

/// Bytes that headers take, with their number in front.
pub open spec fn headers_size(p: Pairs) -> nat {
    2 + entries_size(p, p.len())
}

/// There are no more headers than two bytes can count, and none of their keys and values is
/// longer than that.
pub open spec fn are_short(p: Pairs) -> bool {
    &&& p.len() <= 65535
    &&& forall|i: int|
        0 <= i < p.len() ==> size((#[trigger] p[i]).0) <= 65535 && size(p[i].1) <= 65535
}

proof fn lemma_entries_size(p: Pairs, n: nat)
    requires
        n <= p.len(),
    ensures
        headers::entry_bytes(p, n).len() == entries_size(p, n),
    decreases n,
{
    if n > 0 {
        lemma_entries_size(p, (n - 1) as nat);
    }
}

/// Headers take as many bytes as their texts and lengths, and can be written exactly if
/// they are short and there is that much room.
#[verifier::rlimit(50)]
pub proof fn law_headers_take_their_size(p: Pairs, max: nat)
    ensures
        headers::header_bytes(p).len() == headers_size(p),
        headers::headers_fault(p, max) is None <==> are_short(p) && headers_size(p) <= max,
{
    lemma_entries_size(p, p.len());
    headers::law_headers_fit(p, max);
    assert(headers::fit_fields(p) == are_short(p)) by {
        if are_short(p) {
            assert forall|i: int| 0 <= i < p.len() implies types::text_bytes(
                (#[trigger] p[i]).0,
            ).len() <= 65535 && types::text_bytes(p[i].1).len() <= 65535 by {
                assert(size(p[i].0) <= 65535);
            }
        }
        if headers::fit_fields(p) {
            assert forall|i: int| 0 <= i < p.len() implies size((#[trigger] p[i]).0) <= 65535
                && size(p[i].1) <= 65535 by {
                assert(types::text_bytes(p[i].0).len() <= 65535);
            }
        }
    }
}

/// A request fits in a block.
pub open spec fn request_is_small(v: RequestView, max: nat) -> bool {
    &&& v.body.len() + size(v.uri) + headers_size(v.headers) <= max
    &&& are_short(v.headers)
}

/// A response fits in a block.
pub open spec fn response_is_small(v: ResponseView, max: nat) -> bool {
    &&& v.body.len() + headers_size(v.headers) <= max
    &&& are_short(v.headers)
}

/// A request is refused exactly if it does not fit in a block. A body that is too long by
/// itself is reported with its length.
pub proof fn law_request_is_refused_if_too_large(v: RequestView, max: nat)
    requires
        max <= u64::MAX,
    ensures
        exchange::request_fault(v, max) is None <==> request_is_small(v, max),
        max < v.body.len() <= u64::MAX ==> exchange::request_fault(v, max) == Some(
            CrossbarErrorView::ShmMessageTooLarge { size: v.body.len() as u64, max: max as u64 },
        ),
{
    if v.body.len() + size(v.uri) <= max {
        law_headers_take_their_size(v.headers, (max - v.body.len() - size(v.uri)) as nat);
    }
}

/// A response is stored as it is exactly if it fits in a block: status, headers and body.
/// Otherwise a report that it was too large is stored in its place.
pub proof fn law_response_is_stored_if_it_fits(v: ResponseView, max: nat)
    ensures
        response_is_small(v, max) ==> exchange::stored_response(v, max) == v,
        !response_is_small(v, max) ==> {
            let w = exchange::stored_response(v, max);
            &&& w.status == 500
            &&& w.headers.len() == 0
            &&& w.body == vstd::utf8::encode_utf8("response too large for shm block"@)
        },
{
    if v.body.len() <= max {
        law_headers_take_their_size(v.headers, (max - v.body.len()) as nat);
    }
}

/// A response that fits comes out of its block as it went in.
pub proof fn law_fitting_response_arrives(
    c: ShmConfig,
    m: Seq<u8>,
    slot: int,
    block: u32,
    v: ResponseView,
)
    requires
        laws::fits(c, m),
        0 <= slot < c.slot_count,
        block < c.block_count,
        types::distinct_keys(v.headers),
        response_is_small(v, c.block_size as nat),
    ensures
        exchange::response_at(c, exchange::after_response(c, m, slot, block, v), slot) == Ok::<
            ResponseView,
            CrossbarErrorView,
        >(v),
{
    law_response_is_stored_if_it_fits(v, c.block_size as nat);
    laws::law_response_round_trip(c, m, slot, block, v);
}

/// A response that fits is what the client gets, with its own status, headers and body, if
/// a block is free for it; if none is free, the client gets status 503 and nothing else.
pub proof fn law_fitting_answer_is_received(
    c: ShmConfig,
    m: Seq<u8>,
    slot: int,
    v: ResponseView,
    expired: bool,
    list: Seq<u32>,
)
    requires
        laws::fits(c, m),
        0 <= slot < c.slot_count,
        0 < c.block_count < NO_BLOCK,
        types::distinct_keys(v.headers),
        response_is_small(v, c.block_size as nat),
        region::pool_of(c).is_free_list(m, list),
    ensures
        service::polled(c, service::after_answer(c, m, slot, v), slot, expired) == Some(
            Ok::<ResponseView, CrossbarErrorView>(
                if list.len() > 0 {
                    v
                } else {
                    ResponseView { status: 503, headers: Seq::empty(), body: Seq::empty() }
                },
            ),
        ),
{
    law_response_is_stored_if_it_fits(v, c.block_size as nat);
    laws::lemma_pool(c, m, 0);
    pool::law_alloc_takes_the_head(region::pool_of(c), m, list);
    laws::law_answer_is_received(c, m, slot, v, expired);
}

/// A request that fits is what the server takes, with its own method, URI, headers and
/// body.
pub proof fn law_fitting_request_is_taken(
    c: ShmConfig,
    m: Seq<u8>,
    slot: int,
    block: u32,
    v: RequestView,
    now: u64,
)
    requires
        laws::fits(c, m),
        0 <= slot < c.slot_count,
        block < c.block_count,
        types::distinct_keys(v.headers),
        request_is_small(v, c.block_size as nat),
    ensures
        ({
            let n = service::after_submit(c, m, slot, block, v);
            &&& memory::u32_at(n, region::slot_off(slot) + S_STATE) == REQUEST_READY
            &&& exchange::request_at(c, service::with_claim(n, slot, now), slot) == Ok::<
                RequestView,
                CrossbarErrorView,
            >(v)
            &&& memory::u32_at(
                service::after_take(c, n, slot, now),
                region::slot_off(slot) + S_STATE,
            ) == PROCESSING
        }),
{
    law_request_is_refused_if_too_large(v, c.block_size as nat);
    laws::law_submitted_request_is_taken(c, m, slot, block, v, now);
}

/// A request that does not fit is withdrawn: its slot is free again, and its block is the
/// first of the free list.
#[verifier::rlimit(50)]
pub proof fn law_refused_request_is_withdrawn(
    c: ShmConfig,
    m: Seq<u8>,
    slot: int,
    block: u32,
    v: RequestView,
)
    requires
        laws::fits(c, m),
        0 <= slot < c.slot_count,
        block < c.block_count < NO_BLOCK,
        !request_is_small(v, c.block_size as nat),
    ensures
        ({
            let n = service::after_submit(c, m, slot, block, v);
            &&& memory::u32_at(n, region::slot_off(slot) + S_STATE) == FREE
            &&& region::pool_of(c).first(n) == block
        }),
{
    law_request_is_refused_if_too_large(v, c.block_size as nat);
    let p = region::pool_of(c);
    let a = exchange::after_refused_request(c, m, block, v);
    laws::lemma_pool(c, m, block as int);
    region::lemma_slot(c, slot);
    region::lemma_header_room(c);
    assert(a.len() == m.len());
    let b = p.after_free(a, block);
    let a1 = memory::put32(a, p.block(block as int), p.first(a));
    pool::law_pack_unpack(memory::wrapping_sum_u32(p.generation(a1), 1), block, 0);
    assert(p.first(b) == block);
    let n = memory::put32(b, region::slot_off(slot) + S_STATE, FREE);
    assert(memory::u64_at(n, p.head as int) == memory::u64_at(b, p.head as int));
}

/// A client goes on waiting while its request waits or is worked on, unless it has waited
/// for too long; then it reports that the server is gone. A request that is being worked
/// on is left alone.
pub proof fn law_waiting_client(c: ShmConfig, m: Seq<u8>, slot: int, expired: bool)
    requires
        memory::u32_at(m, region::slot_off(slot) + S_STATE) == PROCESSING || memory::u32_at(
            m,
            region::slot_off(slot) + S_STATE,
        ) == REQUEST_READY,
    ensures
        !expired ==> service::polled(c, m, slot, expired) is None && service::after_poll(
            c,
            m,
            slot,
            expired,
        ) == m,
        expired ==> service::polled(c, m, slot, expired) == Some(
            Err::<ResponseView, CrossbarErrorView>(CrossbarErrorView::ShmServerDead),
        ),
        memory::u32_at(m, region::slot_off(slot) + S_STATE) == PROCESSING ==> service::after_poll(
            c,
            m,
            slot,
            expired,
        ) == m,
{
}

/// Every request that a client waits for is still waited for, or is done with, and not
/// both, in the order in which they were sent; none is waited for beyond its time.
#[verifier::rlimit(50)]
pub proof fn law_every_request_is_accounted_for(
    c: ShmConfig,
    m: Seq<u8>,
    list: Seq<Inflight>,
    now: u64,
    n: nat,
)
    requires
        n <= list.len(),
    ensures
        ({
            let r = service::polled_all(c, m, list, now, n);
            &&& r.1.len() + r.2.len() == n
            &&& forall|k: int| 0 <= k < r.1.len() ==> now < (#[trigger] r.1[k]).deadline
            &&& forall|j: int| 0 <= j < n ==> is_in(#[trigger] list[j], r.1, r.2)
            &&& n > 0 ==> {
                let before = service::polled_all(c, m, list, now, (n - 1) as nat);
                before.1.is_prefix_of(r.1) && before.2.is_prefix_of(r.2)
            }
        }),
    decreases n,
{
    if n > 0 {
        law_every_request_is_accounted_for(c, m, list, now, (n - 1) as nat);
        let before = service::polled_all(c, m, list, now, (n - 1) as nat);
        let r = service::polled_all(c, m, list, now, n);
        assert(before.1 =~= r.1.subrange(0, before.1.len() as int));
        assert(before.2 =~= r.2.subrange(0, before.2.len() as int));
        assert forall|j: int| 0 <= j < n implies is_in(#[trigger] list[j], r.1, r.2) by {
            if j < n - 1 {
                assert(is_in(list[j], before.1, before.2));
                if before.1.contains(list[j]) {
                    let k = choose|k: int| 0 <= k < before.1.len() && before.1[k] == list[j];
                    assert(r.1[k] == list[j]);
                } else {
                    let k = choose|k: int|
                        0 <= k < before.2.len() && (#[trigger] before.2[k]).0 == list[j].id;
                    assert(r.2[k].0 == list[j].id);
                }
            } else if r.1.len() > before.1.len() {
                assert(r.1[before.1.len() as int] == list[j]);
            } else {
                assert(r.2[before.2.len() as int].0 == list[j].id);
            }
        }
    }
}

/// A request is among those that are waited for, or those that are done with.
pub open spec fn is_in(q: Inflight, kept: Seq<Inflight>, done: service::Outcomes) -> bool {
    ||| kept.contains(q)
    ||| exists|k: int| 0 <= k < done.len() && (#[trigger] done[k]).0 == q.id
}

/// A request that fits is answered, in one turn of the server, as the router may answer it;
/// and if the answer fits as well, the client gets that very answer, or status 503 if there
/// was no block for it.
#[verifier::rlimit(50)]
pub proof fn law_request_gets_its_answer<H: Handler<T>, T>(
    c: ShmConfig,
    router: Router<H>,
    m: Seq<u8>,
    slot: int,
    block: u32,
    v: RequestView,
    now: u64,
    n: Seq<u8>,
    expired: bool,
)
    requires
        laws::fits(c, m),
        0 <= slot < c.slot_count,
        block < c.block_count < NO_BLOCK,
        region::pool_of(c).first(m) != block,
        request_is_small(v, c.block_size as nat),
        types::distinct_keys(v.headers),
        server::turn_is::<H, T>(
            c,
            router,
            slot,
            now,
            service::after_submit(c, m, slot, block, v),
            n,
        ),
    ensures
        exists|req: Request, resp: ResponseView, held: Option<u32>|
            {
                &&& req@ == v
                &&& #[trigger] client::may_answer::<H, T>(router, req, resp, held)
                &&& types::distinct_keys(resp.headers) && response_is_small(
                    resp,
                    c.block_size as nat,
                ) ==> {
                    ||| service::polled(c, n, slot, expired) == Some(
                        Ok::<ResponseView, CrossbarErrorView>(resp),
                    )
                    ||| service::polled(c, n, slot, expired) == Some(
                        Ok::<ResponseView, CrossbarErrorView>(
                            (ResponseView {
                                status: 503,
                                headers: Seq::empty(),
                                body: Seq::empty(),
                            }),
                        ),
                    )
                }
            },
{
    law_request_is_refused_if_too_large(v, c.block_size as nat);
    server::law_request_is_answered::<H, T>(c, router, m, slot, block, v, now, n, expired);
    let (req, resp, held) = choose|req: Request, resp: ResponseView, held: Option<u32>|
        {
            &&& server::is_received(req, v, block)
            &&& #[trigger] client::may_answer::<H, T>(router, req, resp, held)
            &&& types::distinct_keys(resp.headers) ==> server::is_answered(
                c,
                n,
                slot,
                resp,
                expired,
            )
        };
    law_response_is_stored_if_it_fits(resp, c.block_size as nat);
    assert(client::may_answer::<H, T>(router, req, resp, held));
}

/// Bytes that headers take in a message of the ring exchange: none if there are none.
pub open spec fn ring_headers_size(p: Pairs) -> nat {
    if p.len() == 0 {
        0
    } else {
        headers_size(p)
    }
}

/// A message of the ring exchange can be written exactly if its head of sixteen bytes, its
/// body, its URI and its headers fit in the block.
pub proof fn law_ring_message_is_refused_if_too_large(used: nat, p: Pairs, max: nat)
    ensures
        rpc_message::message_fault(used, p, max) is None <==> used + ring_headers_size(p) <= max
            && are_short(p),
        rpc_message::wire_headers(p).len() == ring_headers_size(p),
{
    law_headers_take_their_size(p, rpc_message::room(max, used));
}

/// What a server of the ring exchange sends is the response itself exactly if it fits in
/// the block; otherwise it sends status 500 without a body, if even that fits.
#[verifier::rlimit(50)]
pub proof fn law_ring_response_is_sent_if_it_fits(c: PubSubRpcConfig, v: ResponseView)
    requires
        pubsub_rpc::capacity_of(c) >= 16,
    ensures
        ({
            let fits = 16 + v.body.len() + ring_headers_size(v.headers)
                <= pubsub_rpc::capacity_of(c) && are_short(v.headers);
            &&& pubsub_rpc::response_fits(c, v) == fits
            &&& fits ==> pubsub_rpc::sent_response(c, v) == Some(v)
            &&& !fits ==> pubsub_rpc::sent_response(c, v) == Some(
                ResponseView { status: 500, headers: Seq::empty(), body: Seq::empty() },
            )
        }),
{
    let max = pubsub_rpc::capacity_of(c) as nat;
    law_ring_message_is_refused_if_too_large(rpc_message::response_used(v), v.headers, max);
    let none = Seq::<(Seq<char>, Seq<char>)>::empty();
    let failed = types::plain_response(500, Seq::empty());
    law_ring_message_is_refused_if_too_large(rpc_message::response_used(failed), none, max);
    assert(failed.headers =~= none);
}

/// A head of a frame is accepted exactly if its first byte is that of a method and what it
/// announces is within the limit; a larger frame is refused with its size.
pub proof fn law_frames_within_the_limit(h: Seq<u8>)
    requires
        h.len() == 13,
    ensures
        ({
            let total = memory::u32_at(h, 1) + memory::u32_at(h, 5) + memory::u32_at(h, 9);
            &&& frame::request_head_in(h) is Ok <==> h[0] < 5 && total <= 64 * 1024 * 1024
            &&& h[0] < 5 && total > 64 * 1024 * 1024 ==> frame::request_head_in(h) == Err::<
                frame::RequestHead,
                CrossbarErrorView,
            >(CrossbarErrorView::FrameTooLarge { size: total as u64, max: MAX_FRAME_SIZE })
            &&& h[0] >= 5 ==> frame::request_head_in(h) == Err::<
                frame::RequestHead,
                CrossbarErrorView,
            >(CrossbarErrorView::InvalidMethod(h[0]))
        }),
{
}

/// A head of a response frame is accepted exactly if what it announces is within the
/// limit, whatever the status is, and keeps the status.
pub proof fn law_response_frames_within_the_limit(h: Seq<u8>)
    requires
        h.len() == 10,
    ensures
        ({
            let total = memory::u32_at(h, 2) + memory::u32_at(h, 6);
            &&& frame::response_head_in(h) is Ok <==> total <= 64 * 1024 * 1024
            &&& frame::response_head_in(h) matches Ok(head) ==> head.status == memory::u16_at(h, 0)
            &&& total > 64 * 1024 * 1024 ==> frame::response_head_in(h) == Err::<
                frame::ResponseHead,
                CrossbarErrorView,
            >(CrossbarErrorView::FrameTooLarge { size: total as u64, max: MAX_FRAME_SIZE })
        }),
{
}

/// A request and a response take as many bytes in a frame as their parts, and come out of
/// it as they went in wherever that is within the limit.
#[verifier::rlimit(50)]
pub proof fn law_frames_carry_messages(v: RequestView, w: ResponseView)
    requires
        are_short(v.headers),
        types::distinct_keys(v.headers),
        v.body.len() + size(v.uri) + headers_size(v.headers) <= 64 * 1024 * 1024,
        are_short(w.headers),
        types::distinct_keys(w.headers),
        w.body.len() + headers_size(w.headers) <= 64 * 1024 * 1024,
    ensures
        ({
            let f = frame::request_frame(v);
            &&& f.len() == 13 + v.body.len() + size(v.uri) + headers_size(v.headers)
            &&& frame::request_head_in(f.subrange(0, 13)) matches Ok(head)
            &&& frame::request_in(head, f.subrange(13, f.len() as int)) == Ok::<
                RequestView,
                Seq<char>,
            >(v)
        }),
        ({
            let f = frame::response_frame(w);
            &&& f.len() == 10 + w.body.len() + headers_size(w.headers)
            &&& frame::response_head_in(f.subrange(0, 10)) matches Ok(head)
            &&& frame::response_in(head, f.subrange(10, f.len() as int)) == Ok::<
                ResponseView,
                Seq<char>,
            >(w)
        }),
{
    law_headers_take_their_size(v.headers, headers_size(v.headers));
    law_headers_take_their_size(w.headers, headers_size(w.headers));
    headers::law_headers_fit(v.headers, headers_size(v.headers));
    headers::law_headers_fit(w.headers, headers_size(w.headers));
    frame::law_request_round_trip(v);
    frame::law_response_round_trip(w);
}

} // verus!
