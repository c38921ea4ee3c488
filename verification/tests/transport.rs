//! Requests, responses and samples over shared memory.

use crossbar::error::CrossbarError;
use crossbar::handler::{sync_handler_with_req, SyncFn1};
use crossbar::memory::{Accesses, Delays, HeapMemory, Image, SharedMemory};
use crossbar::router::{get, post, Router};
use crossbar::transport::shm::bidi::{events_name, BidiConfig};
use crossbar::transport::shm::notify::{park_time, poll_time, WaitAction, WordWait};
use crossbar::transport::shm::pool_pubsub::{
    self, PoolPubSubConfig, ShmPoolPublisher, ShmPoolSubscriber, ShmPoolSubscription,
};
use crossbar::transport::shm::pubsub::{
    self, active_error, region_is_active, PubSubConfig, ShmPublisher, ShmSubscriber,
    ShmSubscription,
};
use crossbar::transport::shm::pubsub_rpc::{
    self, checked_region_size, ClientState, PubSubRpcClient, PubSubRpcConfig, RpcRegion, RpcTurn,
    RpcWait, RpcWork, ServerStep,
};
use crossbar::transport::shm::region::{
    self, ShmConfig, ShmRegion, FREE, NO_BLOCK, REQUEST_READY, RESPONSE_READY,
};
use crossbar::transport::shm::service::{client_id, retry_after, Inflight, Poll, Retry, Work};
use crossbar::types::{Body, Method, Request, Response, StringMap};
use std::cell::RefCell;
use std::rc::Rc;

/// One of several handles on a segment on the heap.
#[derive(Clone)]
struct Shared(Rc<RefCell<HeapMemory>>);

impl Shared {
    fn zeroed(len: usize) -> Shared {
        Shared(Rc::new(RefCell::new(HeapMemory::zeroed(len))))
    }
}

impl SharedMemory for Shared {
    fn image(&self) -> Image {
        unreachable!()
    }
    fn exclusive(&self) -> bool {
        unreachable!()
    }
    fn contention(&self) -> Delays {
        unreachable!()
    }
    fn accesses(&self) -> Accesses {
        unreachable!()
    }
    fn size(&self) -> usize {
        self.0.borrow().size()
    }
    fn read(&self, off: usize, len: usize) -> Vec<u8> {
        self.0.borrow().read(off, len)
    }
    fn write(&mut self, off: usize, data: &[u8]) {
        self.0.borrow_mut().write(off, data)
    }
    fn wait_while_u64(&mut self, off: usize, busy: u64) -> u64 {
        self.0.borrow_mut().wait_while_u64(off, busy)
    }
    fn load_u32(&self, off: usize) -> u32 {
        self.0.borrow().load_u32(off)
    }
    fn load_u64(&self, off: usize) -> u64 {
        self.0.borrow().load_u64(off)
    }
    fn look_u32(&mut self, off: usize) -> u32 {
        self.load_u32(off)
    }
    fn look_u64(&mut self, off: usize) -> u64 {
        self.load_u64(off)
    }
    fn copy(&mut self, off: usize, len: usize) -> Vec<u8> {
        self.read(off, len)
    }
    fn store_u32(&mut self, off: usize, v: u32) {
        self.0.borrow_mut().store_u32(off, v)
    }
    fn store_u64(&mut self, off: usize, v: u64) {
        self.0.borrow_mut().store_u64(off, v)
    }
    fn compare_exchange_u32(&mut self, off: usize, current: u32, new: u32) -> Result<u32, u32> {
        self.0.borrow_mut().compare_exchange_u32(off, current, new)
    }
    fn compare_exchange_u64(&mut self, off: usize, current: u64, new: u64) -> Result<u64, u64> {
        self.0.borrow_mut().compare_exchange_u64(off, current, new)
    }
    fn fetch_add_u32(&mut self, off: usize, v: u32) -> u32 {
        self.0.borrow_mut().fetch_add_u32(off, v)
    }
    fn fetch_sub_u32(&mut self, off: usize, v: u32) -> u32 {
        self.0.borrow_mut().fetch_sub_u32(off, v)
    }
    fn fetch_add_u64(&mut self, off: usize, v: u64) -> u64 {
        self.0.borrow_mut().fetch_add_u64(off, v)
    }
    fn fetch_max_u64(&mut self, off: usize, v: u64) -> u64 {
        self.0.borrow_mut().fetch_max_u64(off, v)
    }
}

const NOW: u64 = 10_000_000;

// Topics with rings of samples.

fn ring_of(config: PubSubConfig) -> (ShmPublisher<Shared>, Shared) {
    let mem = Shared::zeroed(ShmPublisher::<Shared>::plan(&config).unwrap());
    let publisher = ShmPublisher::create(&config, mem.clone(), 1, 7, NOW, 0);
    (publisher, mem)
}

fn ring_stream(mem: &Shared, uri: &str) -> ShmSubscription<Shared> {
    let sub = ShmSubscriber::connect(mem.clone(), None, NOW).unwrap();
    sub.subscribe(mem.clone(), uri).unwrap()
}

fn number(data: &[u8]) -> u32 {
    u32::from_le_bytes(data[..4].try_into().unwrap())
}

#[test]
fn pubsub_roundtrip() {
    let (mut pub_, mem) = ring_of(PubSubConfig::default());
    let _handle = pub_.register("/tick/AAPL").unwrap();

    let mut stream = ring_stream(&mem, "/tick/AAPL");

    // Nothing published yet
    assert!(stream.try_recv().is_none());

    // Publish a sample
    let mut loan = pub_.loan("/tick/AAPL", NOW).unwrap();
    loan.set_data(b"hello from shm");
    loan.publish();

    // Should receive it
    let sample = stream.try_recv().unwrap();
    assert_eq!(sample.to_vec(), b"hello from shm".to_vec());
    assert_eq!(sample.data_len(), 14);

    // No more
    assert!(stream.try_recv().is_none());
}

#[test]
fn pubsub_multiple_samples() {
    let (mut pub_, mem) = ring_of(PubSubConfig::default());
    let _handle = pub_.register("/data").unwrap();

    let mut stream = ring_stream(&mem, "/data");

    for i in 0u32..5 {
        let mut loan = pub_.loan("/data", NOW).unwrap();
        loan.set_data(&i.to_le_bytes());
        loan.publish();
    }

    // Read them back in order
    for i in 0u32..5 {
        let sample = stream.try_recv().unwrap();
        let val = number(&sample.to_vec());
        assert_eq!(val, i);
    }
}

#[test]
fn pubsub_io_write() {
    let (mut pub_, mem) = ring_of(PubSubConfig::default());
    let _handle = pub_.register("/json").unwrap();

    let mut stream = ring_stream(&mem, "/json");

    // Write as to a file
    let mut loan = pub_.loan("/json", NOW).unwrap();
    assert_eq!(loan.write(b"{\"price\":150.25}").unwrap(), 16);
    loan.publish();

    let sample = stream.try_recv().unwrap();
    assert_eq!(
        std::str::from_utf8(&sample.to_vec()).unwrap(),
        "{\"price\":150.25}"
    );
}

#[test]
fn pubsub_multiple_topics() {
    let (mut pub_, mem) = ring_of(PubSubConfig::default());
    let _h1 = pub_.register("/tick/AAPL").unwrap();
    let _h2 = pub_.register("/tick/MSFT").unwrap();

    let mut aapl = ring_stream(&mem, "/tick/AAPL");
    let mut msft = ring_stream(&mem, "/tick/MSFT");

    let mut loan = pub_.loan("/tick/AAPL", NOW).unwrap();
    loan.set_data(b"AAPL");
    loan.publish();

    let mut loan = pub_.loan("/tick/MSFT", NOW).unwrap();
    loan.set_data(b"MSFT");
    loan.publish();

    assert_eq!(aapl.try_recv().unwrap().to_vec(), b"AAPL".to_vec());
    assert_eq!(msft.try_recv().unwrap().to_vec(), b"MSFT".to_vec());

    // Cross-topic isolation
    assert!(aapl.try_recv().is_none());
    assert!(msft.try_recv().is_none());
}

#[test]
fn pubsub_ring_overwrite() {
    let cfg = PubSubConfig {
        ring_depth: 4,
        ..PubSubConfig::default()
    };
    let (mut pub_, mem) = ring_of(cfg);
    let _handle = pub_.register("/data").unwrap();

    let mut stream = ring_stream(&mem, "/data");

    // Publish 10 samples into a ring of depth 4: the subscriber should skip ahead
    for i in 0u32..10 {
        let mut loan = pub_.loan("/data", NOW).unwrap();
        loan.set_data(&i.to_le_bytes());
        loan.publish();
    }

    // Subscriber fell behind: first recv skips to latest available
    let sample = stream.try_recv().unwrap();
    let val = number(&sample.to_vec());
    // Should be one of the recent values (ring wraps, so >= 6)
    assert!(val >= 6, "expected recent value, got {val}");
}

#[test]
fn pubsub_latest() {
    let (mut pub_, mem) = ring_of(PubSubConfig::default());
    let _handle = pub_.register("/data").unwrap();

    let mut stream = ring_stream(&mem, "/data");

    for i in 0u32..5 {
        let mut loan = pub_.loan("/data", NOW).unwrap();
        loan.set_data(&i.to_le_bytes());
        loan.publish();
    }

    // latest() should return the most recent, skipping intermediate
    let sample = stream.latest().unwrap();
    let val = number(&sample.to_vec());
    assert_eq!(val, 4);
}

#[test]
fn a_ring_segment_tells_whether_it_is_active() {
    let (_p, mem) = ring_of(PubSubConfig::default());
    assert!(region_is_active(&mem, 0, NOW + 5_000_000));
    assert!(!region_is_active(&mem, 0, NOW + 5_000_001));
    assert!(!region_is_active(&Shared::zeroed(1000), 0, NOW));
    assert!(matches!(active_error("x"), CrossbarError::ShmInvalidRegion(_)));
    assert_eq!(pubsub::shm_path("x", true), "/dev/shm/crossbar-ps-x");
}

#[test]
fn a_waiting_ring_subscriber_is_told_of_samples() {
    let (mut p, mem) = ring_of(PubSubConfig::default());
    let h = p.register("/t").unwrap();
    let mut s = ring_stream(&mem, "/t");
    assert!(s.recv().is_err());
    let mut loan = p.loan_to(&h, NOW, 0);
    loan.set_data(b"x");
    loan.publish();
    assert_eq!(s.recv().unwrap().to_vec(), b"x".to_vec());
    assert!(s.check_publisher_heartbeat(NOW).is_ok());
    assert!(matches!(
        s.check_publisher_heartbeat(NOW + 60_000_000),
        Err(CrossbarError::ShmServerDead)
    ));
}

#[test]
fn a_dead_or_unknown_ring_segment_is_refused() {
    let (mut p, mem) = ring_of(PubSubConfig::default());
    p.register("/t").unwrap();
    assert!(matches!(
        ShmSubscriber::connect(mem.clone(), None, NOW + 60_000_000),
        Err(CrossbarError::ShmServerDead)
    ));
    assert!(matches!(
        ShmSubscriber::connect(Shared::zeroed(8), None, NOW),
        Err(CrossbarError::ShmInvalidRegion(_))
    ));
    let sub = ShmSubscriber::connect(mem.clone(), None, NOW).unwrap();
    assert!(matches!(
        sub.subscribe(mem, "/other"),
        Err(CrossbarError::ShmInvalidRegion(_))
    ));
    assert!(p.loan("/other", NOW).is_err());
    assert!(p.register(&"x".repeat(103)).is_ok());
    assert!(p.register(&"x".repeat(104)).is_err());
}

// Topics with a pool of blocks.

fn pool_config() -> PoolPubSubConfig {
    PoolPubSubConfig {
        max_topics: 2,
        block_count: 4,
        block_size: 64,
        ring_depth: 2,
        ..PoolPubSubConfig::default()
    }
}

fn pool_of(config: PoolPubSubConfig) -> (ShmPoolPublisher<Shared>, Shared) {
    let mem = Shared::zeroed(pool_pubsub::check_config(&config).unwrap());
    let publisher = ShmPoolPublisher::create(&config, mem.clone(), 1, 7, NOW, 0);
    (publisher, mem)
}

fn pool_stream(mem: &Shared, uri: &str) -> ShmPoolSubscription<Shared> {
    let sub = ShmPoolSubscriber::connect(mem.clone(), NOW).unwrap();
    sub.subscribe(mem.clone(), uri).unwrap()
}

#[test]
fn a_pooled_sample_is_received_and_released() {
    let (mut p, mem) = pool_of(pool_config());
    let h = p.register("/t").unwrap();
    let mut s = pool_stream(&mem, "/t");
    assert!(s.try_recv().is_none());
    for i in 0..20u8 {
        let mut loan = p.loan(&h, NOW, 0).unwrap();
        assert_eq!(loan.capacity(), 56);
        loan.set_data(&[i, i]);
        loan.publish();
        let g = s.try_recv().unwrap();
        assert_eq!(g.to_vec(&s.region), vec![i, i]);
        assert_eq!(g.len(), 2);
        assert!(!g.is_empty());
        g.release(&mut s.region);
    }
}

#[test]
fn a_held_pooled_sample_survives() {
    let (mut p, mem) = pool_of(pool_config());
    let h = p.register("/t").unwrap();
    let mut s = pool_stream(&mem, "/t");
    let mut loan = p.loan(&h, NOW, 0).unwrap();
    loan.set_data(b"keep");
    loan.publish();
    let g = s.try_recv().unwrap();
    for i in 0..10u8 {
        let mut loan = p.loan(&h, NOW, 0).unwrap();
        loan.set_data(&[i]);
        loan.publish();
    }
    assert_eq!(g.to_vec(&s.region), b"keep".to_vec());
    g.release(&mut s.region);
}

#[test]
fn an_exhausted_pool_lends_nothing() {
    let config = PoolPubSubConfig {
        block_count: 2,
        ..pool_config()
    };
    let (mut p, mem) = pool_of(config);
    let h = p.register("/t").unwrap();
    let mut s = pool_stream(&mem, "/t");
    let mut held = Vec::new();
    for i in 0..2u8 {
        let mut loan = p.loan(&h, NOW, 0).unwrap();
        loan.set_data(&[i]);
        loan.publish();
        held.push(s.try_recv().unwrap());
    }
    assert!(p.loan(&h, NOW, 0).is_none());
    for g in held {
        g.release(&mut s.region);
    }
    // The two samples are still in the ring, which holds them.
    assert!(p.loan(&h, NOW, 0).is_none());
}

#[test]
fn no_pooled_block_is_lost() {
    let (mut p, mem) = pool_of(pool_config());
    let h = p.register("/t").unwrap();
    let mut s = pool_stream(&mem, "/t");
    for i in 0..1000u32 {
        let mut loan = p.loan(&h, NOW, 0).unwrap();
        loan.set_data(&i.to_le_bytes());
        if i % 5 == 0 {
            loan.discard();
        } else {
            loan.publish();
        }
        if i % 3 == 0 {
            if let Some(g) = s.try_recv() {
                g.release(&mut s.region);
            }
        }
    }
    // Two blocks lie in the ring; the others are free.
    let mut free = 0;
    while s.region.alloc_block().is_some() {
        free += 1;
    }
    assert_eq!(free, 4 - 2);
}

#[test]
fn a_waiting_pool_subscriber_is_told_of_samples() {
    let (mut p, mem) = pool_of(pool_config());
    let h = p.register("/t").unwrap();
    let mut s = pool_stream(&mem, "/t");
    assert!(s.recv().is_err());
    let mut loan = p.loan(&h, NOW, 0).unwrap();
    loan.set_data(b"x");
    assert!(loan.publish());
    s.recv_done();
    let g = s.recv().unwrap();
    assert_eq!(g.to_vec(&s.region), b"x".to_vec());
    g.release(&mut s.region);
}

#[test]
fn pool_parameters_are_checked() {
    let fault = |c: PoolPubSubConfig| match pool_pubsub::check_config(&c) {
        Err(CrossbarError::ShmInvalidRegion(t)) => t,
        _ => panic!("accepted"),
    };
    fault(PoolPubSubConfig { block_size: 8, ..pool_config() });
    fault(PoolPubSubConfig { block_count: 0, ..pool_config() });
    fault(PoolPubSubConfig { ring_depth: 0, ..pool_config() });
    assert!(ShmPoolSubscriber::connect(Shared::zeroed(16), NOW).is_err());
    let (_p, mem) = pool_of(pool_config());
    assert!(matches!(
        ShmPoolSubscriber::connect(mem, NOW + 60_000_000),
        Err(CrossbarError::ShmServerDead)
    ));
}

#[test]
fn a_foreign_pool_header_is_accepted_but_not_used() {
    let (mut p, mem) = pool_of(pool_config());
    p.register("/t").unwrap();
    let mut odd = mem.clone();
    odd.store_u32(pool_pubsub::GH_RING_DEPTH, 0);
    let sub = ShmPoolSubscriber::connect(odd.clone(), NOW).unwrap();
    assert_eq!(sub.region.config.ring_depth, 0);
    assert!(!sub.region.is_usable());
    odd.store_u32(pool_pubsub::GH_RING_DEPTH, 2);
    odd.store_u32(pool_pubsub::GH_BLOCK_COUNT, 0);
    let sub = ShmPoolSubscriber::connect(odd.clone(), NOW).unwrap();
    assert!(sub.region.is_usable());
    assert!(sub.subscribe(odd, "/t").unwrap().try_recv().is_none());
}

#[test]
fn a_block_with_a_stray_link_is_lent() {
    let (p, mem) = pool_of(pool_config());
    let mut region = p.region;
    let first = region.block_at(0);
    let mut odd = mem.clone();
    odd.store_u32(first, 77);
    assert_eq!(region.alloc_block(), Some(0));
    assert_eq!(region.alloc_block(), None);
}

// Requests in slots.

fn slots() -> ShmConfig {
    ShmConfig {
        slot_count: 2,
        block_count: 4,
        block_size: 256,
        ..ShmConfig::default()
    }
}

fn server_of(config: ShmConfig) -> (ShmRegion<Shared>, Shared) {
    let mem = Shared::zeroed(ShmRegion::<Shared>::plan(&config).unwrap());
    let server = ShmRegion::create(&config, mem.clone(), 7, NOW);
    (server, mem)
}

type Routes = Router<SyncFn1<fn(Request) -> Response>>;

fn routes() -> Routes {
    fn hello(req: Request) -> Response {
        let name = req.path_param("name").unwrap_or("nobody").to_string();
        Response::ok()
            .with_body(format!("hello {name}"))
            .with_header("x-route", "hello")
    }
    fn echo(req: Request) -> Response {
        Response::with_status(201).with_body(req.body.to_vec())
    }
    fn large(_req: Request) -> Response {
        Response::ok().with_body(vec![0u8; 10_000])
    }
    Router::new()
        .route(
            "/hello/:name",
            get(sync_handler_with_req(hello as fn(Request) -> Response)),
        )
        .route(
            "/echo",
            post(sync_handler_with_req(echo as fn(Request) -> Response)),
        )
        .route(
            "/large",
            get(sync_handler_with_req(large as fn(Request) -> Response)),
        )
}

fn send(client: &mut ShmRegion<Shared>, req: &Request) -> u32 {
    let block = client.begin_request(5_000_000, NOW).unwrap();
    let slot = client.try_acquire_slot(42, NOW).unwrap();
    client.submit_request(slot, block, req).unwrap();
    slot
}

fn outcome(client: &mut ShmRegion<Shared>, slot: u32) -> Result<Response, CrossbarError> {
    match client.poll_slot(slot, false) {
        Poll::Done(o) => o,
        Poll::Pending => panic!("no outcome yet"),
    }
}

#[test]
fn a_request_is_answered_through_slots() {
    let (mut server, mem) = server_of(slots());
    let mut client = ShmRegion::open(mem).unwrap();
    let router = routes();
    for i in 0..20 {
        let mut req = Request::new(Method::Get, &format!("/hello/ann{i}"));
        req.headers.insert("k".to_string(), "v".to_string());
        let slot = send(&mut client, &req);
        assert!(matches!(client.poll_slot(slot, false), Poll::Pending));
        assert!(server.serve_round(&router, &|| NOW));
        assert!(!server.serve_round(&router, &|| NOW));
        let resp = outcome(&mut client, slot).unwrap();
        assert_eq!(resp.status, 200);
        assert_eq!(resp.body.to_vec(), format!("hello ann{i}").into_bytes());
        assert_eq!(resp.headers.get("x-route").unwrap(), "hello");
        client.release_body(&resp.body);
        assert_eq!(client.slot_state(slot), FREE);
    }
}

#[test]
fn a_body_goes_there_and_back() {
    let (mut server, mem) = server_of(slots());
    let mut client = ShmRegion::open(mem).unwrap();
    let router = routes();
    for _ in 0..10 {
        let req = Request::new(Method::Post, "/echo").with_body("some bytes");
        let slot = send(&mut client, &req);
        assert!(server.serve_round(&router, &|| NOW));
        let resp = outcome(&mut client, slot).unwrap();
        assert_eq!(resp.status, 201);
        assert_eq!(resp.body.to_vec(), b"some bytes".to_vec());
        client.release_body(&resp.body);
    }
    // All blocks are free again.
    let mut taken = Vec::new();
    while let Some(b) = client.alloc_block() {
        taken.push(b);
    }
    assert_eq!(taken.len(), 4);
}

#[test]
fn a_body_that_is_handed_on_keeps_its_block_until_the_answer_is_written() {
    fn reflect(req: Request) -> Response {
        Response::ok().with_body(req.body)
    }
    let router: Routes = Router::new().route(
        "/reflect",
        post(sync_handler_with_req(reflect as fn(Request) -> Response)),
    );
    let req = Request::new(Method::Post, "/reflect").with_body("some bytes");
    for (block_count, status) in [(1, 503), (2, 200)] {
        let (mut server, mem) = server_of(ShmConfig { block_count, ..slots() });
        let mut client = ShmRegion::open(mem).unwrap();
        let slot = send(&mut client, &req);
        assert!(server.serve_round(&router, &|| NOW));
        let resp = outcome(&mut client, slot).unwrap();
        assert_eq!(resp.status, status);
        if status == 200 {
            assert_eq!(resp.body.to_vec(), b"some bytes".to_vec());
        }
        client.release_body(&resp.body);
        for _ in 0..block_count {
            assert!(client.alloc_block().is_some());
        }
        assert!(client.alloc_block().is_none());
    }
    // A handler that copies the body lets the block go before the answer.
    let (mut server, mem) = server_of(ShmConfig { block_count: 1, ..slots() });
    let mut client = ShmRegion::open(mem).unwrap();
    let slot = send(
        &mut client,
        &Request::new(Method::Post, "/echo").with_body("some bytes"),
    );
    assert!(server.serve_round(&routes(), &|| NOW));
    assert_eq!(outcome(&mut client, slot).unwrap().status, 201);
}

#[test]
fn what_fits_of_a_refused_message_is_in_its_block() {
    let (mut server, mem) = server_of(slots());
    let block = server.alloc_block().unwrap();
    let size = server.block_size as usize;
    let at = 128 + server.slot_count as usize * 64 + block as usize * size;
    let mut req = Request::new(Method::Post, "/u").with_body("body");
    req.headers.insert("k".to_string(), "x".repeat(size));
    assert!(matches!(
        server.write_request_to_block(0, block, &req),
        Err(CrossbarError::ShmMessageTooLarge { .. })
    ));
    assert_eq!(mem.read(at, 8), b"body/u\x01\x00".to_vec());
    // Its slot is as it was.
    assert_eq!(server.body_len(0), 0);
    let other = server.alloc_block().unwrap();
    let at = 128 + server.slot_count as usize * 64 + other as usize * size;
    let before = mem.read(at, size);
    let whole = Request::new(Method::Post, "/u").with_body(vec![7u8; size + 1]);
    assert!(server.write_request_to_block(0, other, &whole).is_err());
    assert_eq!(mem.read(at, size), before);
    let mut resp = Response::ok().with_body("abc");
    resp.headers.insert("k".to_string(), "x".repeat(size));
    server.write_response_direct(0, other, 3, &resp.headers, 200);
    assert_eq!(mem.read(at + 3, 2), vec![1, 0]);
    assert_eq!(server.response_headers_data_len(0), 0);
}

#[test]
fn a_round_of_recovery_touches_stale_slots_only() {
    let (mut server, mem) = server_of(slots());
    let mut client = ShmRegion::open(mem.clone()).unwrap();
    let stale = send(&mut client, &Request::new(Method::Get, "/hello/a"));
    let block = client.begin_request(5_000_000, NOW).unwrap();
    let fresh = client.try_acquire_slot(43, NOW + 900).unwrap();
    client
        .submit_request(fresh, block, &Request::new(Method::Get, "/hello/b"))
        .unwrap();
    let before = mem.read(128 + fresh as usize * 64, 64);
    server.recover_stale_slots(500, NOW + 1000);
    assert_eq!(server.slot_state(stale), FREE);
    assert_eq!(server.request_block_idx(stale), u32::MAX);
    assert_eq!(server.response_block_idx(stale), u32::MAX);
    assert_eq!(mem.read(128 + fresh as usize * 64, 64), before);
}

#[test]
fn every_slot_is_taken_at_a_moment_of_its_own() {
    let (mut server, mem) = server_of(slots());
    let mut client = ShmRegion::open(mem).unwrap();
    let a = send(&mut client, &Request::new(Method::Get, "/hello/a"));
    let b = send(&mut client, &Request::new(Method::Get, "/hello/b"));
    let time = std::cell::Cell::new(NOW);
    let clock = || {
        time.set(time.get() + 10);
        time.get()
    };
    assert!(server.serve_round(&routes(), &clock));
    let mut moments = [server.slot_timestamp(a), server.slot_timestamp(b)];
    moments.sort();
    assert_eq!(moments, [NOW + 10, NOW + 20]);
}

#[test]
fn an_unknown_path_is_not_found() {
    let (mut server, mem) = server_of(slots());
    let mut client = ShmRegion::open(mem).unwrap();
    let slot = send(&mut client, &Request::new(Method::Get, "/nowhere"));
    assert!(server.serve_round(&routes(), &|| NOW));
    assert_eq!(outcome(&mut client, slot).unwrap().status, 404);
}

#[test]
fn a_request_that_does_not_fit_gives_up_its_slot_and_block() {
    let (_server, mem) = server_of(slots());
    let mut client = ShmRegion::open(mem).unwrap();
    let block = client.begin_request(5_000_000, NOW).unwrap();
    let slot = client.try_acquire_slot(42, NOW).unwrap();
    let req = Request::new(Method::Post, "/echo").with_body(vec![1u8; 300]);
    assert!(matches!(
        client.submit_request(slot, block, &req),
        Err(CrossbarError::ShmMessageTooLarge { .. })
    ));
    assert_eq!(client.slot_state(slot), FREE);
    assert_eq!(client.alloc_block(), Some(block));
}

#[test]
fn slots_and_blocks_run_out() {
    let (_server, mem) = server_of(slots());
    let mut client = ShmRegion::open(mem).unwrap();
    assert!(client.try_acquire_slot(1, NOW).is_some());
    assert!(client.try_acquire_slot(1, NOW).is_some());
    assert!(client.try_acquire_slot(1, NOW).is_none());
    for _ in 0..4 {
        assert!(client.begin_request(5_000_000, NOW).is_ok());
    }
    assert!(matches!(
        client.begin_request(5_000_000, NOW),
        Err(CrossbarError::ShmPoolExhausted)
    ));
    assert!(matches!(
        client.begin_request(5_000_000, NOW + 6_000_000),
        Err(CrossbarError::ShmServerDead)
    ));
    assert_eq!(retry_after(1), Retry::Yield);
    assert_eq!(retry_after(63), Retry::Yield);
    assert_eq!(retry_after(64), Retry::Sleep);
    assert_eq!(retry_after(5000), Retry::Sleep);
    assert_eq!(retry_after(5001), Retry::GiveUp);
    assert_eq!(client_id(6, 3), 5);
}

#[test]
fn an_expired_request_is_withdrawn() {
    let (_server, mem) = server_of(slots());
    let mut client = ShmRegion::open(mem).unwrap();
    let slot = send(&mut client, &Request::new(Method::Get, "/hello/x"));
    let waiting = vec![Inflight {
        slot_idx: slot,
        id: 9,
        deadline: NOW + 100,
    }];
    let (kept, done) = client.poll_all(&waiting, NOW + 99);
    assert_eq!(kept, waiting);
    assert!(done.is_empty());
    let (kept, done) = client.poll_all(&waiting, NOW + 100);
    assert!(kept.is_empty());
    assert_eq!(done[0].0, 9);
    assert!(matches!(done[0].1, Err(CrossbarError::ShmServerDead)));
    assert_eq!(client.slot_state(slot), FREE);
    assert_eq!(client.request_block_idx(slot), NO_BLOCK);
}

#[test]
fn a_malformed_request_is_refused() {
    let (mut server, mem) = server_of(slots());
    let mut client = ShmRegion::open(mem).unwrap();
    let slot = send(&mut client, &Request::new(Method::Get, "/hello/x"));
    client.set_slot_method(slot, 99);
    assert!(matches!(server.take_request(slot, NOW), Work::Refused));
    assert_eq!(client.slot_state(slot), RESPONSE_READY);
    let resp = outcome(&mut client, slot).unwrap();
    assert_eq!(resp.status, 400);
    assert_eq!(resp.body_str(), "malformed shm request");
}

#[test]
fn an_answer_without_a_free_block_is_a_bare_status() {
    let (mut server, mem) = server_of(slots());
    let mut client = ShmRegion::open(mem).unwrap();
    let slot = send(&mut client, &Request::new(Method::Get, "/hello/x"));
    let req = match server.take_request(slot, NOW) {
        Work::Ready(req) => req,
        _ => panic!("no request"),
    };
    assert_eq!(req.uri.path(), "/hello/x");
    while server.alloc_block().is_some() {}
    server.answer(slot, &Response::ok());
    let resp = outcome(&mut client, slot).unwrap();
    assert_eq!(resp.status, 503);
    assert!(resp.body.is_empty());
}

#[test]
fn stale_slots_are_recovered() {
    let (mut server, mem) = server_of(slots());
    let mut client = ShmRegion::open(mem).unwrap();
    let slot = send(&mut client, &Request::new(Method::Get, "/hello/x"));
    assert_eq!(server.slot_state(slot), REQUEST_READY);
    server.recover_stale_slots(5_000_000, NOW + 5_000_000);
    assert_eq!(server.slot_state(slot), REQUEST_READY);
    server.recover_stale_slots(5_000_000, NOW + 5_000_001);
    assert_eq!(server.slot_state(slot), FREE);
    // A slot that the server works on is left alone.
    let slot = send(&mut client, &Request::new(Method::Get, "/hello/x"));
    assert!(matches!(server.take_request(slot, NOW), Work::Ready(_)));
    server.recover_stale_slots(5_000_000, NOW + 60_000_000);
    assert_ne!(server.slot_state(slot), FREE);
}

#[test]
fn a_notified_server_does_not_sleep() {
    let (mut server, mem) = server_of(slots());
    let mut client = ShmRegion::open(mem).unwrap();
    assert!(server.wait_for_work());
    assert!(client.notify_server());
    server.work_wait_done();
    assert!(!client.notify_server());
    assert!(!server.wait_for_work());
    server.update_heartbeat(NOW + 1);
    assert!(client.check_heartbeat(0, NOW + 1).is_ok());
    assert!(client.check_heartbeat(0, NOW + 2).is_err());
}

#[test]
fn a_segment_without_slots_is_refused() {
    assert!(matches!(
        ShmRegion::open(Shared::zeroed(10)),
        Err(CrossbarError::ShmInvalidRegion(_))
    ));
    assert!(matches!(
        ShmRegion::open(Shared::zeroed(10_000)),
        Err(CrossbarError::ShmInvalidRegion(_))
    ));
    assert_eq!(region::shm_path("x", true), "/dev/shm/crossbar-x");
    assert!(region::region_size(&slots()).is_some());
}

#[test]
fn requests_and_responses_that_stand_in_a_block_already() {
    let (mut server, mem) = server_of(slots());
    let mut client = ShmRegion::open(mem).unwrap();
    let block = client.alloc_block().unwrap();
    let slot = client.try_acquire_slot(1, NOW).unwrap();
    let off = client.pool().block_off(block);
    client.mem.write(off, b"body");
    let none = StringMap::new();
    client
        .write_request_direct(slot, block, 4, Method::Put, "/x?y=1", &none)
        .unwrap();
    let req = server.read_request_from_block(slot).unwrap();
    assert_eq!(req.method, Method::Put);
    assert_eq!(req.uri.raw(), "/x?y=1");
    assert_eq!(req.body.to_vec(), b"body".to_vec());
    assert!(matches!(req.body, Body::Mmap(_)));
    server.mem.write(off, b"done");
    server.write_response_direct(slot, block, 4, &none, 202);
    let resp = client.read_response_from_block(slot).unwrap();
    assert_eq!(resp.status, 202);
    assert_eq!(resp.body.to_vec(), b"done".to_vec());
}

// Requests in rings.

fn rings() -> PubSubRpcConfig {
    PubSubRpcConfig {
        max_clients: 2,
        block_count: 4,
        block_size: 256,
        ring_depth: 2,
        ..PubSubRpcConfig::default()
    }
}

fn rpc_of(config: PubSubRpcConfig) -> (RpcRegion<Shared>, Shared) {
    let mem = Shared::zeroed(checked_region_size(&config).unwrap());
    let server = RpcRegion::create(&config, mem.clone(), 7, NOW);
    (server, mem)
}

fn known() -> Vec<ClientState> {
    vec![ClientState::new(), ClientState::new()]
}

#[test]
fn a_request_is_answered_through_rings() {
    let (mut server, mem) = rpc_of(rings());
    let mut a = PubSubRpcClient::connect(mem.clone(), NOW, 1, 11).unwrap();
    let mut b = PubSubRpcClient::connect(mem.clone(), NOW, 2, 22).unwrap();
    assert_ne!(a.client_idx, b.client_idx);
    let mut clients = known();
    let router = routes();
    for i in 0..20 {
        a.send(&Request::new(Method::Get, &format!("/hello/a{i}")), NOW)
            .unwrap();
        b.send(&Request::new(Method::Post, "/echo").with_body(vec![i]), NOW)
            .unwrap();
        let (found, wake) = server.serve_round(&router, &mut clients);
        assert!(found);
        assert!(wake.is_empty());
        let ra = a.try_recv_response().unwrap().unwrap();
        assert_eq!(ra.body_str(), format!("hello a{i}"));
        assert_eq!(ra.headers.get("x-route").unwrap(), "hello");
        let rb = b.try_recv_response().unwrap().unwrap();
        assert_eq!(rb.status, 201);
        assert_eq!(rb.body.to_vec(), vec![i]);
        assert!(a.try_recv_response().unwrap().is_none());
        let (found, _) = server.serve_round(&router, &mut clients);
        assert!(!found);
    }
}

#[test]
fn client_entries_run_out_and_come_back() {
    let (_server, mem) = rpc_of(rings());
    let a = PubSubRpcClient::connect(mem.clone(), NOW, 1, 1).unwrap();
    let _b = PubSubRpcClient::connect(mem.clone(), NOW, 1, 2).unwrap();
    assert!(matches!(
        PubSubRpcClient::connect(mem.clone(), NOW, 1, 3),
        Err(CrossbarError::ShmSlotsFull)
    ));
    a.close();
    let c = PubSubRpcClient::connect(mem, NOW, 1, 3).unwrap();
    assert_eq!(c.client_idx, 0);
}

#[test]
fn a_large_answer_becomes_a_bare_failure() {
    let (mut server, mem) = rpc_of(rings());
    let mut a = PubSubRpcClient::connect(mem, NOW, 1, 1).unwrap();
    let mut clients = known();
    a.send(&Request::new(Method::Get, "/large"), NOW).unwrap();
    server.serve_round(&routes(), &mut clients);
    let resp = a.try_recv_response().unwrap().unwrap();
    assert_eq!(resp.status, 500);
    assert!(resp.body.is_empty());
}

#[test]
fn a_large_request_is_not_sent() {
    let (server, mem) = rpc_of(rings());
    let mut a = PubSubRpcClient::connect(mem, NOW, 1, 1).unwrap();
    for _ in 0..10 {
        let req = Request::new(Method::Post, "/echo").with_body(vec![0u8; 1000]);
        assert!(matches!(
            a.send(&req, NOW),
            Err(CrossbarError::ShmMessageTooLarge { max: 248, .. })
        ));
    }
    assert!(!server.has_request(0, 0));
}

#[test]
fn a_malformed_message_is_refused() {
    let (mut server, mem) = rpc_of(rings());
    let mut a = PubSubRpcClient::connect(mem.clone(), NOW, 1, 1).unwrap();
    let block = a.region.alloc_block().unwrap();
    a.region.publish_request(0, block, 3, 1);
    let mut state = ClientState::new();
    assert!(matches!(
        server.poll_client(0, &mut state),
        RpcWork::Refused(false)
    ));
    assert_eq!(state.last_req_seq, 1);
    assert_eq!(state.resp_seq, 1);
    let resp = a.try_recv_response().unwrap().unwrap();
    assert_eq!(resp.status, 400);
    assert_eq!(resp.body_str(), "malformed request");
    // A block that is none.
    a.region.publish_request(0, 1000, 3, 2);
    assert!(matches!(
        server.poll_client(0, &mut state),
        RpcWork::Refused(_)
    ));
    assert!(a.try_recv_response().is_err());
}

#[test]
fn a_waiting_client_spins_yields_sleeps_and_gives_up() {
    let (mut server, mem) = rpc_of(rings());
    let mut a = PubSubRpcClient::connect_with_timeout(mem, 1000, NOW, 1, 1).unwrap();
    let mut clients = known();
    a.send(&Request::new(Method::Get, "/hello/x"), NOW).unwrap();
    let mut wait = RpcWait::new();
    for _ in 0..2048 {
        assert!(matches!(a.wait_turn(&mut wait, NOW), RpcTurn::Spin));
    }
    for _ in 0..16 {
        assert!(matches!(a.wait_turn(&mut wait, NOW), RpcTurn::Yield));
    }
    let word = match a.wait_turn(&mut wait, NOW) {
        RpcTurn::Sleep(word) => word,
        _ => panic!("awake"),
    };
    assert_eq!(word, a.response_word());
    assert_eq!(wait.deadline, Some(NOW + 1000));
    // The server tells the sleeping client.
    let (_, wake) = server.serve_round(&routes(), &mut clients);
    assert_eq!(wake, vec![0]);
    assert_ne!(word, a.response_word());
    a.end_sleep();
    match a.wait_turn(&mut wait, NOW) {
        RpcTurn::Done(Ok(resp)) => assert_eq!(resp.body_str(), "hello x"),
        _ => panic!("no response"),
    }
    match a.wait_turn(&mut wait, NOW + 999) {
        RpcTurn::Sleep(_) => a.end_sleep(),
        _ => panic!("awake"),
    }
    assert!(matches!(
        a.wait_turn(&mut wait, NOW + 1000),
        RpcTurn::Done(Err(CrossbarError::ShmServerDead))
    ));
}

#[test]
fn an_idle_server_spins_and_sleeps() {
    let (mut server, mem) = rpc_of(rings());
    let mut a = PubSubRpcClient::connect(mem, NOW, 1, 1).unwrap();
    let mut clients = known();
    server.serve_round(&routes(), &mut clients);
    assert_eq!(server.idle_step(&clients, 0), ServerStep::Spin);
    assert_eq!(server.idle_step(&clients, 2047), ServerStep::Spin);
    assert!(matches!(
        server.idle_step(&clients, 2048),
        ServerStep::Sleep(_)
    ));
    assert!(a
        .send(&Request::new(Method::Get, "/hello/x"), NOW)
        .unwrap());
    server.work_wait_done();
    assert!(server.work_ready(&clients));
    assert_eq!(server.idle_step(&clients, 5), ServerStep::Serve);
    assert!(!a
        .send(&Request::new(Method::Get, "/hello/y"), NOW)
        .unwrap());
}

#[test]
fn every_1024_requests_the_server_is_checked() {
    let (mut server, mem) = rpc_of(rings());
    let mut a = PubSubRpcClient::connect(mem, NOW, 1, 1).unwrap();
    let mut clients = known();
    let router = routes();
    let late = NOW + 60_000_000;
    for _ in 0..1023 {
        a.send(&Request::new(Method::Get, "/hello/x"), late).unwrap();
        server.serve_round(&router, &mut clients);
        a.try_recv_response().unwrap().unwrap();
    }
    assert!(matches!(
        a.send(&Request::new(Method::Get, "/hello/x"), late),
        Err(CrossbarError::ShmServerDead)
    ));
}

#[test]
fn ring_segments_are_checked() {
    let refused = |mem: Shared| match PubSubRpcClient::connect(mem, NOW, 1, 1) {
        Err(CrossbarError::ShmInvalidRegion(t)) => t,
        _ => panic!("accepted"),
    };
    assert_eq!(refused(Shared::zeroed(8)), "region too small for header");
    assert_eq!(
        refused(Shared::zeroed(1000)),
        "invalid magic (expected XBAR_RC)"
    );
    let (_server, mem) = rpc_of(rings());
    let mut newer = mem.clone();
    newer.store_u32(8, 2);
    assert_eq!(refused(newer.clone()), "unsupported version 2, expected 1");
    newer.store_u32(8, 1);
    newer.store_u32(0x0c, 3);
    let size = checked_region_size(&rings()).unwrap();
    assert_eq!(
        refused(newer),
        format!("region size {size} < expected {}", size + 64 + 2 * 2 * 16)
    );
    assert_eq!(size, 128 + 2 * 64 + 2 * 2 * 2 * 16 + 4 * 256);
    let (_server, mem) = rpc_of(rings());
    assert!(matches!(
        PubSubRpcClient::connect(mem, NOW + 6_000_000, 1, 1),
        Err(CrossbarError::ShmServerDead)
    ));
    assert_eq!(checked_region_size(&PubSubRpcConfig { ring_depth: 0, ..rings() }), None);
    let (_server, mem) = rpc_of(rings());
    let mut odd = mem.clone();
    odd.store_u32(pubsub_rpc::GH_RING_DEPTH, 0);
    let client = PubSubRpcClient::connect(odd.clone(), NOW, 1, 1).unwrap();
    assert!(!client.region.is_usable());
    client.close();
    odd.store_u32(pubsub_rpc::GH_RING_DEPTH, 2);
    odd.store_u32(pubsub_rpc::GH_BLOCK_COUNT, 0);
    let mut client = PubSubRpcClient::connect(odd, NOW, 1, 1).unwrap();
    assert!(client.region.is_usable());
    assert!(client.try_recv_response().unwrap().is_none());
    assert_eq!(pubsub_rpc::shm_path("x", true), "/dev/shm/crossbar-rpc-x");
    assert_eq!(pubsub_rpc::shm_path("x", false), "/tmp/crossbar-rpc-shm-x");
}

#[test]
fn messages_in_blocks_keep_their_correlation() {
    let (mut server, _mem) = rpc_of(rings());
    let block = server.alloc_block().unwrap();
    let req = Request::new(Method::Delete, "/x").with_body("abc");
    let n = server.encode_request(block, &req, 77).unwrap();
    assert_eq!(n, 16 + 3 + 2);
    let (back, correlation) = server.decode_request(block, n).unwrap();
    assert_eq!(correlation, 77);
    assert_eq!(back.method, Method::Delete);
    assert_eq!(back.body.to_vec(), b"abc".to_vec());
    let n = server
        .encode_response(block, &Response::not_found(), 78)
        .unwrap();
    let (resp, correlation) = server.decode_response(block, n).unwrap();
    assert_eq!((resp.status, correlation), (404, 78));
    assert!(server.decode_response(block, 4).is_err());
    server.publish_response(1, block, n, 1);
    assert_eq!(server.try_recv_response(1, 0), Some((block, n, 1)));
    assert_eq!(server.try_recv_response(1, 1), None);
    assert_eq!(server.try_recv_request(1, 0), None);
    assert_eq!(server.client_active(1), 0);
    server.free_block(block);
    server.update_heartbeat(NOW);
    assert!(server.check_heartbeat(NOW).is_ok());
    assert!(!server.notify_server());
}

// Waiting for a word, and the rest.

#[test]
fn a_word_is_waited_for_in_three_phases() {
    let mut wait = WordWait::new();
    assert_eq!(wait.step(2, 1, false), WaitAction::Changed(2));
    for _ in 0..100 {
        assert_eq!(wait.step(1, 1, true), WaitAction::Spin);
    }
    for _ in 0..10 {
        assert!(!wait.is_parking());
        assert_eq!(wait.step(1, 1, true), WaitAction::Yield);
    }
    assert!(wait.is_parking());
    assert_eq!(wait.step(1, 1, false), WaitAction::Park);
    assert_eq!(wait.step(1, 1, true), WaitAction::TimedOut);
    assert_eq!(wait.step(2, 1, true), WaitAction::Changed(2));
    assert_eq!(park_time(9_999), 9_999);
    assert_eq!(park_time(10_001), 10_000);
    assert_eq!(poll_time(0), 1);
    assert_eq!(poll_time(60_000), 20);
    assert_eq!(poll_time(5_000_000), 50);
}

#[test]
fn events_have_a_segment_of_their_own() {
    assert_eq!(events_name("app"), "app-events");
    let c = BidiConfig::default();
    assert_eq!(c.rpc, ShmConfig::default());
    assert_eq!(c.events, PoolPubSubConfig::default());
}
