//! A server that has a router answer the requests in the slots of a segment.

use crate::handler::Handler;
use crate::memory::SharedMemory;
use crate::router::Router;
use crate::transport::client;
use crate::transport::shm::exchange;
use crate::transport::shm::laws;
use crate::transport::shm::region::{self, ShmConfig, ShmRegion, NO_BLOCK, REQUEST_READY};
use crate::transport::shm::service::{self, Work};
use crate::types::{self, Request, Response};
use vstd::prelude::*;

verus! {

/// A request as it comes out of a block.
pub open spec fn is_received(req: Request, v: types::RequestView, block: u32) -> bool {
    &&& req.wf()
    &&& req.path_params.pairs().len() == 0
    &&& req@ == v
    &&& exchange::body_in(req.body, block)
}

/// The segment after a request was dealt with and let go: a block that held a
/// body goes back to the pool.
pub open spec fn after_request_is_let_go(
    c: ShmConfig,
    m: Seq<u8>,
    slot: int,
    v: types::RequestView,
    now: u64,
) -> Seq<u8> {
    let n = service::after_take(c, m, slot, now);
    if v.body.len() > 0 {
        region::pool_of(c).after_free(n, service::request_block(m, slot))
    } else {
        n
    }
}

/// The segment after a request was answered. Its block goes back to the pool
/// before the answer; where the handler hands the body of the request on as that
/// of the response, it goes back once the answer is written.
pub open spec fn after_request_is_answered(
    c: ShmConfig,
    m: Seq<u8>,
    slot: int,
    v: types::RequestView,
    now: u64,
    resp: types::ResponseView,
    held: Option<u32>,
) -> Seq<u8> {
    let block = service::request_block(m, slot);
    if v.body.len() > 0 && held == Some(block) {
        region::pool_of(c).after_free(
            service::after_answer(c, service::after_take(c, m, slot, now), slot, resp),
            block,
        )
    } else {
        service::after_answer(c, after_request_is_let_go(c, m, slot, v, now), slot, resp)
    }
}

/// What one turn of a server does for a slot: a request is answered as the
/// router may answer it, and a malformed one is refused.
pub open spec fn turn_is<H: Handler<T>, T>(
    c: ShmConfig,
    router: Router<H>,
    slot: int,
    now: u64,
    m: Seq<u8>,
    n: Seq<u8>,
) -> bool {
    if region::state_of(m, slot) != REQUEST_READY {
        n == m
    } else {
        match exchange::request_at(c, service::with_claim(m, slot, now), slot) {
            Ok(v) => exists|req: Request, resp: types::ResponseView, held: Option<u32>|
                {
                    &&& is_received(req, v, service::request_block(m, slot))
                    &&& #[trigger] client::may_answer::<H, T>(router, req, resp, held)
                    &&& n == after_request_is_answered(c, m, slot, v, now, resp, held)
                },
            Err(_) => n == service::after_take(c, m, slot, now),
        }
    }
}

/// What a round of a server does: it takes a turn for each slot, one after the
/// other. `nows` are the moments of the turns, and `ms` the contents of the
/// segment between them.
pub open spec fn round_is<H: Handler<T>, T>(
    c: ShmConfig,
    router: Router<H>,
    nows: Seq<u64>,
    ms: Seq<Seq<u8>>,
    found: bool,
    n: int,
) -> bool {
    &&& ms.len() == n + 1
    &&& nows.len() == n
    &&& forall|i: int|
        0 <= i < n ==> #[trigger] turn_is::<H, T>(c, router, i, nows[i], ms[i], ms[i + 1])
    &&& found <==> exists|i: int|
        0 <= i < n && #[trigger] region::state_of(ms[i], i) == REQUEST_READY
}

/// The clock may have told these moments.
pub open spec fn told<F: Fn() -> u64>(clock: F, nows: Seq<u64>) -> bool {
    forall|i: int| 0 <= i < nows.len() ==> call_ensures(clock, (), #[trigger] nows[i])
}

/// What a round for all slots does, by way of some contents in between: the
/// clock is read for each slot anew.
pub open spec fn served<H: Handler<T>, T, F: Fn() -> u64>(
    c: ShmConfig,
    router: Router<H>,
    clock: F,
    m: Seq<u8>,
    n: Seq<u8>,
    found: bool,
) -> bool {
    exists|nows: Seq<u64>, ms: Seq<Seq<u8>>|
        {
            &&& #[trigger] round_is::<H, T>(c, router, nows, ms, found, c.slot_count as int)
            &&& told(clock, nows)
            &&& ms[0] == m
            &&& ms.last() == n
        }
}

impl<M: SharedMemory> ShmRegion<M> {
    /// Takes a turn for one slot: says whether there was a request.
    pub fn serve_slot<H, T>(&mut self, router: &Router<H>, slot: u32, now: u64) -> (r: bool) where
        H: Handler<T>,

        requires
            old(self).wf(),
            slot < old(self).slot_count,
            router.wf(),
            forall|req: Request|
                req.wf() && req.path_params.pairs().len() == 0 ==> #[trigger] client::takes::<
                    H,
                    T,
                >(*router, req),
        ensures
            final(self).wf(),
            old(self).same_segment(final(self)),
            old(self).mem.exclusive() ==> {
                let m = old(self).mem.image();
                &&& turn_is::<H, T>(
                    old(self).config,
                    *router,
                    slot as int,
                    now,
                    m,
                    final(self).mem.image(),
                )
                &&& r == (region::state_of(m, slot as int) == REQUEST_READY)
            },
    {
        match self.take_request(slot, now) {
            Work::Idle => false,
            Work::Refused => true,
            Work::Ready(req) => {
                let ghost asked = req;
                let block: Option<u32> = req.body.held_block();
                assert(client::takes::<H, T>(*router, req));
                let resp: Response = router.dispatch(req);
                assert(client::may_answer::<H, T>(*router, asked, resp@, resp.body.held()));
                let handed_on: bool = match (block, resp.body.held_block()) {
                    (Some(a), Some(b)) => a == b,
                    _ => false,
                };
                if let Some(b) = block {
                    if handed_on {
                        self.answer(slot, &resp);
                        self.free_block(b);
                        return true;
                    }
                    self.free_block(b);
                }
                self.answer(slot, &resp);
                true
            },
        }
    }

    /// Takes a turn for each slot: says whether there was a request. A turn has
    /// the moment that the clock tells as it begins, so that a handler that takes
    /// its time does not age the slots behind it.
    pub fn serve_round<H, T, F>(&mut self, router: &Router<H>, clock: &F) -> (r: bool) where
        H: Handler<T>,
        F: Fn() -> u64,

        requires
            old(self).wf(),
            router.wf(),
            call_requires(*clock, ()),
            forall|req: Request|
                req.wf() && req.path_params.pairs().len() == 0 ==> #[trigger] client::takes::<
                    H,
                    T,
                >(*router, req),
        ensures
            final(self).wf(),
            old(self).same_segment(final(self)),
            old(self).mem.exclusive() ==> served::<H, T, F>(
                old(self).config,
                *router,
                *clock,
                old(self).mem.image(),
                final(self).mem.image(),
                r,
            ),
    {
        let mut found: bool = false;
        let count: u32 = self.slot_count;
        let mut i: u32 = 0;
        let ghost mut ms: Seq<Seq<u8>> = seq![self.mem.image()];
        let ghost mut nows: Seq<u64> = Seq::empty();
        while i < count
            invariant
                i <= count,
                count == self.slot_count,
                self.wf(),
                old(self).same_segment(self),
                router.wf(),
                call_requires(*clock, ()),
                forall|req: Request|
                    req.wf() && req.path_params.pairs().len() == 0 ==> #[trigger] client::takes::<
                        H,
                        T,
                    >(*router, req),
                ms.len() == i + 1,
                ms[0] == old(self).mem.image(),
                nows.len() == i,
                told(*clock, nows),
                self.mem.exclusive() ==> {
                    &&& ms.last() == self.mem.image()
                    &&& round_is::<H, T>(self.config, *router, nows, ms, found, i as int)
                },
            decreases count - i,
        {
            let ghost had = found;
            let now: u64 = clock();
            let served: bool = self.serve_slot(router, i, now);
            if served {
                found = true;
            }
            proof {
                if self.mem.exclusive() {
                    lemma_round::<H, T>(
                        self.config,
                        *router,
                        nows,
                        now,
                        ms,
                        had,
                        i as int,
                        self.mem.image(),
                        served,
                    );
                }
                ms = ms.push(self.mem.image());
                nows = nows.push(now);
            }
            i = i + 1;
        }
        proof {
            if self.mem.exclusive() {
                assert(round_is::<H, T>(self.config, *router, nows, ms, found, count as int));
            }
        }
        found
    }
}

/// A request that a client hands over is answered, in one turn of the server, as
/// the router may answer it; and the client receives the answer, or the report
/// that it was too large, or status 503 where there was no block for it. The block
/// of the request is one that the client has taken, so that it is not the next one
/// of the pool.
pub proof fn law_request_is_answered<H: Handler<T>, T>(
    c: ShmConfig,
    router: Router<H>,
    m: Seq<u8>,
    slot: int,
    block: u32,
    v: types::RequestView,
    now: u64,
    n: Seq<u8>,
    expired: bool,
)
    requires
        laws::fits(c, m),
        0 <= slot < c.slot_count,
        block < c.block_count < NO_BLOCK,
        region::pool_of(c).first(m) != block,
        exchange::request_fault(v, c.block_size as nat) is None,
        types::distinct_keys(v.headers),
        turn_is::<H, T>(c, router, slot, now, service::after_submit(c, m, slot, block, v), n),
    ensures
        exists|req: Request, resp: types::ResponseView, held: Option<u32>|
            {
                &&& is_received(req, v, block)
                &&& #[trigger] client::may_answer::<H, T>(router, req, resp, held)
                &&& types::distinct_keys(resp.headers) ==> is_answered(c, n, slot, resp, expired)
            },
{
    let sent = service::after_submit(c, m, slot, block, v);
    laws::law_submitted_request_is_taken(c, m, slot, block, v, now);
    laws::lemma_submitted_block(c, m, slot, block, v);
    let (req, resp, held) = choose|req: Request, resp: types::ResponseView, held: Option<u32>|
        {
            &&& is_received(req, v, service::request_block(sent, slot))
            &&& #[trigger] client::may_answer::<H, T>(router, req, resp, held)
            &&& n == after_request_is_answered(c, sent, slot, v, now, resp, held)
        };
    laws::lemma_taken_fits(c, sent, slot, now, block);
    if types::distinct_keys(resp.headers) {
        if v.body.len() > 0 && held == Some(block) {
            let k = service::after_take(c, sent, slot, now);
            laws::lemma_submit_keeps_head(c, m, slot, block, v, now);
            laws::law_answer_is_received(c, k, slot, resp, expired);
            laws::lemma_freed_block_keeps_answer(c, k, slot, resp, expired, block);
        } else {
            let k = after_request_is_let_go(c, sent, slot, v, now);
            laws::law_answer_is_received(c, k, slot, resp, expired);
        }
    }
    assert(client::may_answer::<H, T>(router, req, resp, held));
}

/// What a client finds in its slot is a response, as far as there was room for
/// it.
pub open spec fn is_answered(
    c: ShmConfig,
    m: Seq<u8>,
    slot: int,
    resp: types::ResponseView,
    expired: bool,
) -> bool {
    service::polled(c, m, slot, expired) matches Some(Ok(w)) && (w == exchange::stored_response(
        resp,
        c.block_size as nat,
    ) || w == types::plain_response(503, Seq::empty()))
}

/// A turn for one more slot makes a longer round.
proof fn lemma_round<H: Handler<T>, T>(
    c: ShmConfig,
    router: Router<H>,
    nows: Seq<u64>,
    now: u64,
    ms: Seq<Seq<u8>>,
    found: bool,
    n: int,
    m: Seq<u8>,
    served: bool,
)
    requires
        0 <= n,
        round_is::<H, T>(c, router, nows, ms, found, n),
        turn_is::<H, T>(c, router, n, now, ms.last(), m),
        served == (region::state_of(ms.last(), n) == REQUEST_READY),
    ensures
        round_is::<H, T>(c, router, nows.push(now), ms.push(m), found || served, n + 1),
{
    let next = ms.push(m);
    let times = nows.push(now);
    assert forall|i: int| 0 <= i < n + 1 implies #[trigger] turn_is::<H, T>(
        c,
        router,
        i,
        times[i],
        next[i],
        next[i + 1],
    ) by {
        if i < n {
            assert(turn_is::<H, T>(c, router, i, nows[i], ms[i], ms[i + 1]));
        }
    }
    if found {
        let i = choose|i: int| 0 <= i < n && #[trigger] region::state_of(ms[i], i) == REQUEST_READY;
        assert(region::state_of(next[i], i) == REQUEST_READY);
    }
    if served {
        assert(region::state_of(next[n], n) == REQUEST_READY);
    }
    if !found && !served {
        assert forall|i: int| 0 <= i < n + 1 implies #[trigger] region::state_of(next[i], i)
            != REQUEST_READY by {
            if i < n {
                assert(region::state_of(ms[i], i) != REQUEST_READY);
            }
        }
    }
}

} // verus!
