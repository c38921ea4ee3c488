//! The two sides of an exchange: what a server does with a slot, and what a
//! client does.

use crate::error::{self, CrossbarError};
use crate::memory::{self, Access, Accesses, SharedMemory};
use crate::protocol::reading;
use crate::transport::shm::exchange;
use crate::transport::shm::region::{
    self, ShmRegion, FREE, NO_BLOCK, PROCESSING, REQUEST_READY, RESPONSE_READY, S_REQUEST_BLOCK,
    S_RESPONSE_BLOCK, S_RESPONSE_BODY_LEN, S_RESPONSE_HEADERS_LEN, S_STATE, S_STATUS, S_TIMESTAMP,
};
use crate::types::{self, Request, Response};
use vstd::prelude::*;

verus! {

broadcast use crate::memory::group_memory;

/// How often a client tries to acquire a slot before it gives up.
pub const MAX_ATTEMPTS: u32 = 5000;

/// How often it tries without sleeping in between.
pub const EAGER_ATTEMPTS: u32 = 64;

/// How long it sleeps between later attempts, in microseconds.
pub const RETRY_SLEEP_US: u64 = 50;

/// What a server finds in a slot.
#[derive(Debug)]
pub enum Work {
    /// Nothing to do.
    Idle,
    /// A malformed request, which was answered.
    Refused,
    /// A request to answer.
    Ready(Request),
}

/// What a client does after an attempt to acquire a slot failed.
#[derive(Debug, Clone, Copy, PartialEq, Eq, Structural)]
pub enum Retry {
    /// Let other tasks run, and try again.
    Yield,
    /// Sleep, and try again.
    Sleep,
    /// Give up: all slots are in use.
    GiveUp,
}

/// What a client finds in its slot.
#[derive(Debug)]
pub enum Poll {
    /// No response yet.
    Pending,
    /// The outcome of the request.
    Done(Result<Response, CrossbarError>),
}

/// The answer to a malformed request.
pub open spec fn malformed() -> types::ResponseView {
    types::plain_response(400, types::text_bytes("malformed shm request"@))
}

/// The segment with a response in a slot that has no block: only a status.
pub open spec fn with_bare_status(m: Seq<u8>, slot: int, status: u16) -> Seq<u8> {
    let s = region::slot_off(slot);
    let m = memory::put(m, s + S_STATUS, memory::le16(status));
    let m = memory::put32(m, s + S_RESPONSE_BODY_LEN, 0);
    let m = memory::put32(m, s + S_RESPONSE_HEADERS_LEN, 0);
    memory::put32(m, s + S_RESPONSE_BLOCK, NO_BLOCK)
}

/// The segment after a server answered: with the response in a block of the
/// pool, or with status 503 where there is none.
pub open spec fn after_answer(
    c: region::ShmConfig,
    m: Seq<u8>,
    slot: int,
    v: types::ResponseView,
) -> Seq<u8> {
    let n = match region::pool_of(c).alloc_choice(m) {
        Some(block) => exchange::after_response(
            c,
            region::pool_of(c).after_alloc(m),
            slot,
            block,
            v,
        ),
        None => with_bare_status(m, slot, 503),
    };
    memory::put32(n, region::slot_off(slot) + S_STATE, RESPONSE_READY)
}

/// The segment with a slot that the server works on.
pub open spec fn with_claim(m: Seq<u8>, slot: int, now: u64) -> Seq<u8> {
    let m = memory::put32(m, region::slot_off(slot) + S_STATE, PROCESSING);
    memory::put64(m, region::slot_off(slot) + S_TIMESTAMP, now)
}

/// The block that a slot names for its request.
pub open spec fn request_block(m: Seq<u8>, slot: int) -> u32 {
    memory::u32_at(m, region::slot_off(slot) + S_REQUEST_BLOCK)
}

/// The block that a slot names for its response.
pub open spec fn response_block(m: Seq<u8>, slot: int) -> u32 {
    memory::u32_at(m, region::slot_off(slot) + S_RESPONSE_BLOCK)
}

/// The segment after a server looked at a slot.
pub open spec fn after_take(c: region::ShmConfig, m: Seq<u8>, slot: int, now: u64) -> Seq<u8> {
    if region::state_of(m, slot) != REQUEST_READY {
        m
    } else {
        let m = with_claim(m, slot, now);
        let r = exchange::request_at(c, m, slot);
        let n = exchange::after_message(
            c,
            m,
            request_block(m, slot),
            r matches Ok(v) && v.body.len() > 0,
        );
        match r {
            Ok(_) => n,
            Err(_) => after_answer(
                c,
                memory::put32(n, region::slot_off(slot) + S_REQUEST_BLOCK, NO_BLOCK),
                slot,
                malformed(),
            ),
        }
    }
}

/// The segment after a client handed over a request.
pub open spec fn after_submit(
    c: region::ShmConfig,
    m: Seq<u8>,
    slot: int,
    block: u32,
    v: types::RequestView,
) -> Seq<u8> {
    match exchange::request_fault(v, c.block_size as nat) {
        None => {
            let m = exchange::after_request(c, m, slot, block, v);
            let m = memory::put32(m, region::slot_off(slot) + S_STATE, REQUEST_READY);
            memory::put32(m, region::H_NOTIFY as int, 1)
        },
        Some(_) => {
            let m = exchange::after_refused_request(c, m, block, v);
            let m = region::pool_of(c).after_free(m, block);
            memory::put32(m, region::slot_off(slot) + S_STATE, FREE)
        },
    }
}

/// The segment with no blocks named in a slot.
pub open spec fn with_no_blocks(m: Seq<u8>, slot: int) -> Seq<u8> {
    let m = memory::put32(m, region::slot_off(slot) + S_REQUEST_BLOCK, NO_BLOCK);
    memory::put32(m, region::slot_off(slot) + S_RESPONSE_BLOCK, NO_BLOCK)
}

/// The response in a slot that has one: without a block it is only a status.
pub open spec fn reply_at(c: region::ShmConfig, m: Seq<u8>, slot: int) -> Result<
    types::ResponseView,
    error::CrossbarErrorView,
> {
    if response_block(m, slot) == NO_BLOCK {
        Ok(
            types::plain_response(
                memory::u16_at(m, region::slot_off(slot) + S_STATUS),
                Seq::empty(),
            ),
        )
    } else {
        exchange::response_at(c, m, slot)
    }
}

/// What a client finds in its slot: `None` if there is no response yet.
pub open spec fn polled(c: region::ShmConfig, m: Seq<u8>, slot: int, expired: bool) -> Option<
    Result<types::ResponseView, error::CrossbarErrorView>,
> {
    let s = region::state_of(m, slot);
    if s == RESPONSE_READY {
        Some(reply_at(c, m, slot))
    } else if expired || (s != PROCESSING && s != REQUEST_READY) {
        Some(Err(error::CrossbarErrorView::ShmServerDead))
    } else {
        None
    }
}

/// The segment after a client looked at its slot. A response is taken and the
/// slot freed; a request that took too long is withdrawn if the server has not
/// begun with it.
pub open spec fn after_poll(c: region::ShmConfig, m: Seq<u8>, slot: int, expired: bool) -> Seq<u8> {
    let s = region::state_of(m, slot);
    if s == RESPONSE_READY {
        let n = if response_block(m, slot) == NO_BLOCK {
            m
        } else {
            exchange::after_message(
                c,
                m,
                response_block(m, slot),
                exchange::response_at(c, m, slot) matches Ok(v) && v.body.len() > 0,
            )
        };
        memory::put32(with_no_blocks(n, slot), region::slot_off(slot) + S_STATE, FREE)
    } else if expired && s == REQUEST_READY {
        let m = memory::put32(m, region::slot_off(slot) + S_STATE, FREE);
        let block = request_block(m, slot);
        with_no_blocks(
            if block == NO_BLOCK {
                m
            } else {
                region::pool_of(c).after_free(m, block)
            },
            slot,
        )
    } else {
        m
    }
}

/// An outcome and its plain values.
pub open spec fn outcome_is(
    r: Result<Response, CrossbarError>,
    expected: Result<types::ResponseView, error::CrossbarErrorView>,
) -> bool {
    match expected {
        Ok(v) => r matches Ok(resp) && resp@ == v,
        Err(f) => r matches Err(e) && e@ == f,
    }
}

/// A request on its way.
#[derive(Debug, Clone, Copy, PartialEq, Eq)]
pub struct Inflight {
    /// The slot of the request.
    pub slot_idx: u32,
    /// What the client knows it by.
    pub id: u64,
    /// When it has taken too long.
    pub deadline: u64,
}

/// Outcomes of requests as plain values.
pub type Outcomes = Seq<(u64, Result<types::ResponseView, error::CrossbarErrorView>)>;

/// The segment, the requests still on their way, and the outcomes, after a
/// client looked for the responses to the first `n` requests in turn.
pub open spec fn polled_all(
    c: region::ShmConfig,
    m: Seq<u8>,
    list: Seq<Inflight>,
    now: u64,
    n: nat,
) -> (Seq<u8>, Seq<Inflight>, Outcomes)
    decreases n,
{
    if n == 0 {
        (m, Seq::empty(), Seq::empty())
    } else {
        let (m, kept, done) = polled_all(c, m, list, now, (n - 1) as nat);
        let q = list[n - 1];
        let expired = now >= q.deadline;
        let after = after_poll(c, m, q.slot_idx as int, expired);
        match polled(c, m, q.slot_idx as int, expired) {
            None => (after, kept.push(q), done),
            Some(o) => (after, kept, done.push((q.id, o))),
        }
    }
}

/// Outcomes and their plain values.
pub open spec fn outcomes_are(
    done: Seq<(u64, Result<Response, CrossbarError>)>,
    expected: Outcomes,
) -> bool {
    &&& done.len() == expected.len()
    &&& forall|i: int|
        0 <= i < done.len() ==> (#[trigger] done[i]).0 == expected[i].0 && outcome_is(
            done[i].1,
            expected[i].1,
        )
}

/// The id of a client: its process and the time at which it connected.
pub fn client_id(pid: u32, nanos: u64) -> (r: u64)
    ensures
        r == (pid as u64) ^ nanos,
{
    pid as u64 ^ nanos
}

/// What to do after `attempts` attempts to acquire a slot failed.
pub fn retry_after(attempts: u32) -> (r: Retry)
    ensures
        r == (if attempts > MAX_ATTEMPTS {
            Retry::GiveUp
        } else if attempts < EAGER_ATTEMPTS {
            Retry::Yield
        } else {
            Retry::Sleep
        }),
{
    if attempts > MAX_ATTEMPTS {
        Retry::GiveUp
    } else if attempts < EAGER_ATTEMPTS {
        Retry::Yield
    } else {
        Retry::Sleep
    }
}

/// What writing a response without a block into a slot stores.
pub open spec fn bare_status_stores(slot: int, status: u16) -> Accesses {
    let s = region::slot_off(slot);
    seq![
        Access::Bytes { off: s + S_STATUS, data: memory::le16(status) },
        Access::Word32 { off: s + S_RESPONSE_BODY_LEN, v: 0 },
        Access::Word32 { off: s + S_RESPONSE_HEADERS_LEN, v: 0 },
        Access::Word32 { off: s + S_RESPONSE_BLOCK, v: NO_BLOCK },
    ]
}

/// What answering a request does, in this order: a block is taken, the response is
/// written, and only then the slot says that it is there.
pub open spec fn answers(
    c: region::ShmConfig,
    ops: Accesses,
    slot: int,
    v: types::ResponseView,
) -> bool {
    exists|taking: Accesses, block: Option<u32>|
        {
            &&& #[trigger] region::pool_of(c).takes(taking, block)
            &&& ops == taking + (match block {
                Some(b) => exchange::response_stores(c, slot, b, v),
                None => bare_status_stores(slot, 503),
            }) + seq![region::state_store(slot, RESPONSE_READY)]
        }
}

/// What handing a request over does, in this order: the request is written, and
/// only then the slot says that it is there, and the servers are told. Of one that
/// does not fit the block goes back, and then the slot is free.
pub open spec fn submits(
    c: region::ShmConfig,
    ops: Accesses,
    slot: int,
    block: u32,
    v: types::RequestView,
) -> bool {
    match exchange::request_fault(v, c.block_size as nat) {
        None => ops == exchange::request_stores(c, slot, block, v) + seq![
            region::state_store(slot, REQUEST_READY),
            region::server_told(),
        ],
        Some(_) => exists|given: Accesses|
            {
                &&& #[trigger] region::pool_of(c).gives(given, block)
                &&& ops == exchange::request_block_stores(c, block, v) + given + seq![
                    region::state_store(slot, FREE),
                ]
            },
    }
}

/// What reading a message did: nothing, or its block went back.
proof fn lemma_read<M: SharedMemory>(c: region::ShmConfig, before: M, after: M) -> (ops: Accesses)
    requires
        after.accesses() == before.accesses() || exchange::lets_go(c, before, after),
    ensures
        after.accesses() == before.accesses() + ops,
{
    let none = Seq::<Access>::empty();
    assert(before.accesses() + none =~= before.accesses());
    if after.accesses() == before.accesses() {
        none
    } else {
        let block = choose|block: u32|
            block < c.block_count && #[trigger] region::pool_of(c).gave(before, after, block);
        choose|ops: Accesses|
            after.accesses() == before.accesses() + ops && #[trigger] region::pool_of(c).gives(
                ops,
                block,
            )
    }
}

/// A server claims the request of a slot, or finds none: by an exchange, so that
/// only one thread takes it. Nothing else is done where there is none.
pub open spec fn claims(ops: Accesses, slot: int, work: Work) -> bool {
    &&& ops.len() > 0
    &&& region::moves_slot(ops[0], slot, REQUEST_READY, PROCESSING, work !is Idle)
    &&& work is Idle ==> ops.len() == 1
}

/// What freeing a slot stores whose response was taken.
pub open spec fn taken_stores(slot: int) -> Accesses {
    let s = region::slot_off(slot);
    seq![
        Access::Word32 { off: s + S_REQUEST_BLOCK, v: NO_BLOCK },
        Access::Word32 { off: s + S_RESPONSE_BLOCK, v: NO_BLOCK },
        region::state_store(slot, FREE),
    ]
}

impl<M: SharedMemory> ShmRegion<M> {
    /// Answers the request of a slot: with the response in a block of the
    /// pool, or with status 503 where there is none.
    pub fn answer(&mut self, slot: u32, resp: &Response)
        requires
            old(self).wf(),
            slot < old(self).slot_count,
        ensures
            final(self).wf(),
            old(self).same_segment(final(self)),
            exists|ops: Accesses|
                {
                    &&& final(self).mem.accesses() == old(self).mem.accesses() + ops
                    &&& #[trigger] answers(old(self).config, ops, slot as int, resp@)
                },
            old(self).mem.exclusive() ==> final(self).mem.image() == after_answer(
                old(self).config,
                old(self).mem.image(),
                slot as int,
                resp@,
            ),
    {
        let ghost c = self.config;
        let ghost first = self.mem.accesses();
        let taken: Option<u32> = self.alloc_block();
        let ghost taking = choose|ops: Accesses|
            self.mem.accesses() == first + ops && #[trigger] region::pool_of(c).takes(ops, taken);
        match taken {
            Some(block) => {
                self.write_response_to_block(slot, block, resp);
            },
            None => {
                self.set_response_status(slot, 503);
                self.set_response_body_len(slot, 0);
                self.set_response_headers_data_len(slot, 0);
                self.set_response_block_idx(slot, NO_BLOCK);
            },
        }
        let ghost written = match taken {
            Some(b) => exchange::response_stores(c, slot as int, b, resp@),
            None => bare_status_stores(slot as int, 503),
        };
        assert(self.mem.accesses() =~= first + taking + written);
        self.set_slot_state(slot, RESPONSE_READY);
        proof {
            let ops = taking + written + seq![region::state_store(slot as int, RESPONSE_READY)];
            assert(self.mem.accesses() =~= first + ops);
            assert(answers(c, ops, slot as int, resp@));
        }
    }

    /// Takes the request of a slot, if there is one. A malformed request is
    /// answered at once.
    #[verifier::rlimit(50)]
    pub fn take_request(&mut self, slot: u32, now: u64) -> (r: Work)
        requires
            old(self).wf(),
            slot < old(self).slot_count,
        ensures
            final(self).wf(),
            old(self).same_segment(final(self)),
            r matches Work::Ready(req) ==> req.wf() && req.path_params.pairs().len() == 0,
            exists|ops: Accesses|
                {
                    &&& final(self).mem.accesses() == old(self).mem.accesses() + ops
                    &&& #[trigger] claims(ops, slot as int, r)
                },
            r is Refused ==> final(self).mem.accesses().last() == region::state_store(
                slot as int,
                RESPONSE_READY,
            ),
            old(self).mem.exclusive() ==> {
                let m = old(self).mem.image();
                let c = old(self).config;
                &&& final(self).mem.image() == after_take(c, m, slot as int, now)
                &&& if region::state_of(m, slot as int) != REQUEST_READY {
                    r is Idle
                } else {
                    match exchange::request_at(c, with_claim(m, slot as int, now), slot as int) {
                        Ok(v) => r matches Work::Ready(req) && req@ == v && exchange::body_in(
                            req.body,
                            request_block(m, slot as int),
                        ),
                        Err(_) => r is Refused,
                    }
                }
            },
    {
        proof {
            region::lemma_slot(self.config, slot as int);
        }
        let ghost c = self.config;
        let ghost first = self.mem.accesses();
        let got: bool = self.advance_slot(slot, REQUEST_READY, PROCESSING);
        let ghost a = choose|a: Access|
            self.mem.accesses() == first.push(a) && #[trigger] region::moves_slot(
                a,
                slot as int,
                REQUEST_READY,
                PROCESSING,
                got,
            );
        if !got {
            proof {
                assert(self.mem.accesses() =~= first + seq![a]);
                assert(claims(seq![a], slot as int, Work::Idle));
            }
            return Work::Idle;
        }
        self.touch_slot(slot, now);
        let ghost touched = self.mem;
        let read: Result<Request, CrossbarError> = self.read_request_from_block(slot);
        let ghost freed = lemma_read(c, touched, self.mem);
        match read {
            Ok(req) => {
                proof {
                    let ops = seq![a, touched.accesses().last()] + freed;
                    assert(self.mem.accesses() =~= first + ops);
                    assert(claims(ops, slot as int, Work::Ready(req)));
                }
                Work::Ready(req)
            },
            Err(_) => {
                self.set_request_block_idx(slot, NO_BLOCK);
                let ghost named = self.mem.accesses();
                let resp: Response = Response::bad_request("malformed shm request");
                self.answer(slot, &resp);
                proof {
                    let sent = choose|ops: Accesses|
                        self.mem.accesses() == named + ops && #[trigger] answers(
                            c,
                            ops,
                            slot as int,
                            resp@,
                        );
                    let ops = seq![a, touched.accesses().last()] + freed + seq![named.last()]
                        + sent;
                    assert(self.mem.accesses() =~= first + ops);
                    assert(claims(ops, slot as int, Work::Refused));
                }
                Work::Refused
            },
        }
    }

    /// Begins a request: checks that the server is alive, and takes a block.
    pub fn begin_request(&mut self, timeout: u64, now: u64) -> (r: Result<u32, CrossbarError>)
        requires
            old(self).wf(),
        ensures
            final(self).wf(),
            old(self).same_segment(final(self)),
            r matches Ok(block) ==> block < old(self).block_count,
            old(self).mem.exclusive() ==> {
                let m = old(self).mem.image();
                let p = region::pool_of(old(self).config);
                if now - memory::u64_at(m, region::H_HEARTBEAT as int) > timeout {
                    &&& r matches Err(e) && e@ == error::CrossbarErrorView::ShmServerDead
                    &&& final(self).mem.image() == m
                } else {
                    &&& final(self).mem.image() == p.after_alloc(m)
                    &&& match p.alloc_choice(m) {
                        Some(block) => r == Ok::<u32, CrossbarError>(block),
                        None => r matches Err(e) && e@
                            == error::CrossbarErrorView::ShmPoolExhausted,
                    }
                }
            },
    {
        if let Err(e) = self.check_heartbeat(timeout, now) {
            return Err(e);
        }
        match self.alloc_block() {
            Some(block) => Ok(block),
            None => Err(CrossbarError::ShmPoolExhausted),
        }
    }

    /// Hands a request over to the server, in a slot and a block that the
    /// client has acquired. Says whether a server thread is to be woken. A
    /// request that does not fit gives up the slot and the block.
    pub fn submit_request(&mut self, slot: u32, block: u32, req: &Request) -> (r: Result<
        bool,
        CrossbarError,
    >)
        requires
            old(self).wf(),
            slot < old(self).slot_count,
            block < old(self).block_count,
        ensures
            final(self).wf(),
            old(self).same_segment(final(self)),
            match exchange::request_fault(req@, old(self).block_size as nat) {
                None => r is Ok,
                Some(f) => r matches Err(e) && e@ == f,
            },
            exists|ops: Accesses|
                {
                    &&& final(self).mem.accesses() == old(self).mem.accesses() + ops
                    &&& #[trigger] submits(old(self).config, ops, slot as int, block, req@)
                },
            old(self).mem.exclusive() ==> {
                &&& final(self).mem.image() == after_submit(
                    old(self).config,
                    old(self).mem.image(),
                    slot as int,
                    block,
                    req@,
                )
                &&& r matches Ok(wake) ==> wake == (memory::u32_at(
                    final(self).mem.image(),
                    region::H_WAITERS as int,
                ) > 0)
            },
    {
        let ghost c = self.config;
        let ghost first = self.mem.accesses();
        if let Err(e) = self.write_request_to_block(slot, block, req) {
            let ghost written = self.mem.accesses();
            self.free_block(block);
            let ghost given = choose|ops: Accesses|
                self.mem.accesses() == written + ops && #[trigger] region::pool_of(c).gives(
                    ops,
                    block,
                );
            self.set_slot_state(slot, FREE);
            proof {
                let ops = exchange::request_block_stores(c, block, req@) + given + seq![
                    region::state_store(slot as int, FREE),
                ];
                assert(self.mem.accesses() =~= first + ops);
                assert(submits(c, ops, slot as int, block, req@));
            }
            return Err(e);
        }
        self.set_slot_state(slot, REQUEST_READY);
        proof {
            region::lemma_header_room(self.config);
        }
        let wake: bool = self.notify_server();
        proof {
            let ops = exchange::request_stores(c, slot as int, block, req@) + seq![
                region::state_store(slot as int, REQUEST_READY),
                region::server_told(),
            ];
            assert(self.mem.accesses() =~= first + ops);
            assert(submits(c, ops, slot as int, block, req@));
        }
        Ok(wake)
    }

    /// Looks for the response in a slot. `expired` says that the client has
    /// waited for long enough.
    pub fn poll_slot(&mut self, slot: u32, expired: bool) -> (r: Poll)
        requires
            old(self).wf(),
            slot < old(self).slot_count,
        ensures
            final(self).wf(),
            old(self).same_segment(final(self)),
            expired ==> r is Done,
            r matches Poll::Done(Ok(_)) ==> reading::ends_with(
                final(self).mem.accesses(),
                taken_stores(slot as int),
            ),
            r is Pending ==> final(self).mem.accesses() == old(self).mem.accesses(),
            old(self).mem.exclusive() ==> {
                let m = old(self).mem.image();
                let c = old(self).config;
                &&& final(self).mem.image() == after_poll(c, m, slot as int, expired)
                &&& match polled(c, m, slot as int, expired) {
                    None => r is Pending,
                    Some(expected) => r matches Poll::Done(o) && outcome_is(o, expected),
                }
            },
    {
        proof {
            region::lemma_slot(self.config, slot as int);
        }
        let current: u32 = self.slot_state(slot);
        if current == RESPONSE_READY {
            let resp: Result<Response, CrossbarError> = if self.response_block_idx(slot)
                == NO_BLOCK {
                Ok(Response::with_status(self.response_status(slot)))
            } else {
                self.read_response_from_block(slot)
            };
            let ghost read = self.mem.accesses();
            self.set_request_block_idx(slot, NO_BLOCK);
            self.set_response_block_idx(slot, NO_BLOCK);
            self.set_slot_state(slot, FREE);
            proof {
                assert(self.mem.accesses() =~= read + taken_stores(slot as int));
                reading::lemma_ends_with(read, taken_stores(slot as int));
            }
            return Poll::Done(resp);
        }
        if expired {
            if self.advance_slot(slot, REQUEST_READY, FREE) {
                let block: u32 = self.request_block_idx(slot);
                if block != NO_BLOCK {
                    self.free_block(block);
                }
                self.set_request_block_idx(slot, NO_BLOCK);
                self.set_response_block_idx(slot, NO_BLOCK);
            }
            return Poll::Done(Err(CrossbarError::ShmServerDead));
        }
        if current != PROCESSING && current != REQUEST_READY {
            return Poll::Done(Err(CrossbarError::ShmServerDead));
        }
        Poll::Pending
    }

    /// Looks for the responses to all requests on their way, in turn. Gives
    /// back those that still are, and the outcomes of the others.
    pub fn poll_all(&mut self, inflight: &Vec<Inflight>, now: u64) -> (r: (
        Vec<Inflight>,
        Vec<(u64, Result<Response, CrossbarError>)>,
    ))
        requires
            old(self).wf(),
            forall|i: int|
                0 <= i < inflight@.len() ==> (#[trigger] inflight@[i]).slot_idx
                    < old(self).slot_count,
        ensures
            final(self).wf(),
            old(self).same_segment(final(self)),
            r.0@.len() + r.1@.len() == inflight@.len(),
            forall|i: int|
                0 <= i < r.0@.len() ==> (#[trigger] r.0@[i]).slot_idx < old(self).slot_count && now
                    < r.0@[i].deadline,
            old(self).mem.exclusive() ==> {
                let expected = polled_all(
                    old(self).config,
                    old(self).mem.image(),
                    inflight@,
                    now,
                    inflight@.len(),
                );
                &&& final(self).mem.image() == expected.0
                &&& r.0@ == expected.1
                &&& outcomes_are(r.1@, expected.2)
            },
    {
        let mut kept: Vec<Inflight> = Vec::new();
        let mut done: Vec<(u64, Result<Response, CrossbarError>)> = Vec::new();
        let mut i: usize = 0;
        while i < inflight.len()
            invariant
                i <= inflight@.len(),
                self.wf(),
                old(self).same_segment(self),
                forall|j: int|
                    0 <= j < inflight@.len() ==> (#[trigger] inflight@[j]).slot_idx
                        < self.slot_count,
                kept@.len() + done@.len() == i,
                forall|j: int|
                    0 <= j < kept@.len() ==> (#[trigger] kept@[j]).slot_idx < self.slot_count
                        && now < kept@[j].deadline,
                self.mem.exclusive() ==> {
                    let expected = polled_all(
                        self.config,
                        old(self).mem.image(),
                        inflight@,
                        now,
                        i as nat,
                    );
                    &&& self.mem.image() == expected.0
                    &&& kept@ == expected.1
                    &&& outcomes_are(done@, expected.2)
                },
            decreases inflight@.len() - i,
        {
            let q: Inflight = inflight[i];
            match self.poll_slot(q.slot_idx, now >= q.deadline) {
                Poll::Pending => {
                    kept.push(q);
                },
                Poll::Done(o) => {
                    done.push((q.id, o));
                },
            }
            i = i + 1;
        }
        (kept, done)
    }
}

} // verus!
