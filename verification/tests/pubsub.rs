//! Publishing and subscribing by URI.

use crossbar::error::Error;
use crossbar::ffi::{
    config_or_default, crossbar_config_default, guard_to_sample, topic_handle, topic_or_none,
};
use crossbar::memory::{Accesses, Delays, HeapMemory, Image, SharedMemory};
use crossbar::platform::channel::{client_name, keep_looking, server_name};
use crossbar::platform::place::Place;
use crossbar::platform::pod_bus::pod_bus_shm_path;
use crossbar::platform::registry::{
    discover, read_fixed_str, registry_path, write_fixed_str, Pattern, REG_TOTAL_SIZE,
};
use crossbar::platform::shm::{publisher_id, shm_path, Clock};
use crossbar::platform::subscription::{RecvTurn, RecvWait};
use crossbar::protocol::layout::{is_valid_segment_name, power_of_two, region_size_checked, uri_hash};
use crossbar::{
    Channel, Pod, PubSubConfig, Registry, ShmPublisher, ShmSubscriber, Subscription, WaitStrategy,
};
use std::cell::RefCell;
use std::rc::Rc;

/// One of several handles on a segment on the heap.
#[derive(Clone)]
struct Shared(Rc<RefCell<HeapMemory>>);

impl Shared {
    fn zeroed(len: usize) -> Shared {
        Shared(Rc::new(RefCell::new(HeapMemory::zeroed(len))))
    }
}

impl SharedMemory for Shared {
    fn image(&self) -> Image {
        unreachable!()
    }
    fn exclusive(&self) -> bool {
        unreachable!()
    }
    fn contention(&self) -> Delays {
        unreachable!()
    }
    fn accesses(&self) -> Accesses {
        unreachable!()
    }
    fn size(&self) -> usize {
        self.0.borrow().size()
    }
    fn read(&self, off: usize, len: usize) -> Vec<u8> {
        self.0.borrow().read(off, len)
    }
    fn write(&mut self, off: usize, data: &[u8]) {
        self.0.borrow_mut().write(off, data)
    }
    fn wait_while_u64(&mut self, off: usize, busy: u64) -> u64 {
        self.0.borrow_mut().wait_while_u64(off, busy)
    }
    fn load_u32(&self, off: usize) -> u32 {
        self.0.borrow().load_u32(off)
    }
    fn load_u64(&self, off: usize) -> u64 {
        self.0.borrow().load_u64(off)
    }
    fn look_u32(&mut self, off: usize) -> u32 {
        self.load_u32(off)
    }
    fn look_u64(&mut self, off: usize) -> u64 {
        self.load_u64(off)
    }
    fn copy(&mut self, off: usize, len: usize) -> Vec<u8> {
        self.read(off, len)
    }
    fn store_u32(&mut self, off: usize, v: u32) {
        self.0.borrow_mut().store_u32(off, v)
    }
    fn store_u64(&mut self, off: usize, v: u64) {
        self.0.borrow_mut().store_u64(off, v)
    }
    fn compare_exchange_u32(&mut self, off: usize, current: u32, new: u32) -> Result<u32, u32> {
        self.0.borrow_mut().compare_exchange_u32(off, current, new)
    }
    fn compare_exchange_u64(&mut self, off: usize, current: u64, new: u64) -> Result<u64, u64> {
        self.0.borrow_mut().compare_exchange_u64(off, current, new)
    }
    fn fetch_add_u32(&mut self, off: usize, v: u32) -> u32 {
        self.0.borrow_mut().fetch_add_u32(off, v)
    }
    fn fetch_sub_u32(&mut self, off: usize, v: u32) -> u32 {
        self.0.borrow_mut().fetch_sub_u32(off, v)
    }
    fn fetch_add_u64(&mut self, off: usize, v: u64) -> u64 {
        self.0.borrow_mut().fetch_add_u64(off, v)
    }
    fn fetch_max_u64(&mut self, off: usize, v: u64) -> u64 {
        self.0.borrow_mut().fetch_max_u64(off, v)
    }
}

const START: u64 = 1_000_000;

fn at(us: u64) -> Clock {
    Clock {
        mono_us: us,
        wall_us: Some(us),
    }
}

fn small() -> PubSubConfig {
    PubSubConfig {
        max_topics: 4,
        block_count: 8,
        block_size: 64,
        ring_depth: 4,
        ..PubSubConfig::default()
    }
}

fn publisher_of(config: PubSubConfig) -> (ShmPublisher<Shared>, Shared) {
    let size = ShmPublisher::<Shared>::plan("prices", &config).unwrap();
    let mem = Shared::zeroed(size);
    let publisher =
        ShmPublisher::create("prices", config, mem.clone(), 11, 1, at(START)).unwrap();
    (publisher, mem)
}

fn subscribe(mem: &Shared, uri: &str) -> Subscription<Shared> {
    let sub = ShmSubscriber::connect("prices", mem.clone(), Some(START)).unwrap();
    sub.subscribe(mem.clone(), uri).unwrap()
}

fn publish(p: &mut ShmPublisher<Shared>, t: &crossbar::Topic, data: &[u8]) {
    let mut loan = p.loan(t, at(START)).unwrap();
    loan.set_data(data).unwrap();
    loan.publish();
}

fn take(s: &mut Subscription<Shared>) -> Option<Vec<u8>> {
    let guard = s.try_recv()?;
    let data = guard.to_vec(&s.region);
    assert_eq!(guard.len(), data.len());
    assert_eq!(guard.is_empty(), data.is_empty());
    guard.release(&mut s.region);
    Some(data)
}

#[test]
fn a_published_sample_is_received_once() {
    let (mut p, mem) = publisher_of(small());
    let t = p.register("/tick/AAPL").unwrap();
    let mut s = subscribe(&mem, "/tick/AAPL");
    assert_eq!(take(&mut s), None);
    publish(&mut p, &t, b"hello");
    assert_eq!(take(&mut s), Some(b"hello".to_vec()));
    assert_eq!(take(&mut s), None);
}

#[test]
fn samples_come_in_order_and_stay_within_their_topic() {
    let (mut p, mem) = publisher_of(small());
    let a = p.register("/a").unwrap();
    let b = p.register("/b").unwrap();
    let mut sa = subscribe(&mem, "/a");
    let mut sb = subscribe(&mem, "/b");
    publish(&mut p, &a, b"a1");
    publish(&mut p, &b, b"b1");
    publish(&mut p, &a, b"a2");
    assert_eq!(take(&mut sa), Some(b"a1".to_vec()));
    assert_eq!(take(&mut sa), Some(b"a2".to_vec()));
    assert_eq!(take(&mut sa), None);
    assert_eq!(take(&mut sb), Some(b"b1".to_vec()));
    assert_eq!(take(&mut sb), None);
}

#[test]
fn a_slow_subscriber_skips_what_was_overwritten() {
    let (mut p, mem) = publisher_of(small());
    let t = p.register("/t").unwrap();
    let mut s = subscribe(&mem, "/t");
    for i in 0..10u8 {
        publish(&mut p, &t, &[i]);
    }
    let mut got = Vec::new();
    while let Some(d) = take(&mut s) {
        got.push(d[0]);
    }
    assert_eq!(got, vec![6, 7, 8, 9]);
}

#[test]
fn a_held_sample_survives_while_the_ring_goes_round() {
    let (mut p, mem) = publisher_of(small());
    let t = p.register("/t").unwrap();
    let mut s = subscribe(&mem, "/t");
    publish(&mut p, &t, b"keep me");
    let guard = s.try_recv().unwrap();
    for i in 0..20u8 {
        publish(&mut p, &t, &[i]);
    }
    assert_eq!(guard.to_vec(&s.region), b"keep me".to_vec());
    guard.release(&mut s.region);
}

#[test]
fn a_pool_whose_blocks_are_all_held_is_exhausted() {
    let config = PubSubConfig {
        block_count: 3,
        ring_depth: 2,
        ..small()
    };
    let (mut p, mem) = publisher_of(config);
    let t = p.register("/t").unwrap();
    let mut s = subscribe(&mem, "/t");
    let mut held = Vec::new();
    for i in 0..3u8 {
        publish(&mut p, &t, &[i]);
        held.push(s.try_recv().unwrap());
    }
    assert!(matches!(p.loan(&t, at(START)), Err(Error::PoolExhausted)));
    for g in held {
        g.release(&mut s.region);
    }
    publish(&mut p, &t, b"again");
    assert_eq!(take(&mut s), Some(b"again".to_vec()));
}

#[test]
fn a_discarded_loan_gives_its_block_back() {
    let config = PubSubConfig {
        block_count: 1,
        ring_depth: 1,
        ..small()
    };
    let (mut p, _mem) = publisher_of(config);
    let t = p.register("/t").unwrap();
    for _ in 0..5 {
        let loan = p.loan(&t, at(START)).unwrap();
        loan.discard();
    }
    assert!(p.loan(&t, at(START)).is_ok());
}

#[test]
fn data_that_is_too_large_is_refused() {
    let (mut p, _mem) = publisher_of(small());
    let t = p.register("/t").unwrap();
    let mut loan = p.loan(&t, at(START)).unwrap();
    assert_eq!(loan.capacity(), 56);
    assert!(matches!(
        loan.set_data(&[0u8; 57]),
        Err(Error::DataTooLarge {
            size: 57,
            capacity: 56
        })
    ));
    assert!(loan.set_len(57).is_err());
    assert!(loan.set_data(&[0u8; 56]).is_ok());
    loan.discard();
}

#[test]
fn a_loan_is_written_bit_by_bit() {
    let (mut p, mem) = publisher_of(small());
    let t = p.register("/t").unwrap();
    let mut s = subscribe(&mem, "/t");
    let mut loan = p.loan(&t, at(START)).unwrap();
    assert_eq!(loan.write(b"zero").unwrap(), 4);
    assert_eq!(loan.write(b" copy").unwrap(), 5);
    loan.write_at(0, b"Z").unwrap();
    loan.publish();
    assert_eq!(take(&mut s), Some(b"Zero copy".to_vec()));
}

#[test]
fn topics_are_limited_and_found_again() {
    let (mut p, _mem) = publisher_of(small());
    let first = p.register("/0").unwrap();
    for i in 1..4 {
        p.register(&format!("/{i}")).unwrap();
    }
    assert!(matches!(p.register("/4"), Err(Error::MaxTopicsReached)));
    assert_eq!(p.register("/0").unwrap().topic_idx, first.topic_idx);
    let long = "x".repeat(65);
    assert!(matches!(
        p.register(&long),
        Err(Error::UriTooLong { len: 65, max: 64 })
    ));
}

#[test]
fn an_unknown_topic_is_not_found() {
    let (_p, mem) = publisher_of(small());
    let sub = ShmSubscriber::connect("prices", mem.clone(), Some(START)).unwrap();
    match sub.subscribe(mem, "/nope") {
        Err(Error::TopicNotFound(uri)) => assert_eq!(uri, "/nope"),
        _ => panic!("found"),
    }
}

#[test]
fn a_topic_of_another_publisher_is_refused() {
    let (mut p, mem) = publisher_of(small());
    let t = p.register("/t").unwrap();
    let mut other = ShmPublisher::open("prices", mem, 2, at(START)).unwrap();
    assert!(matches!(
        other.loan(&t, at(START)),
        Err(Error::HandleMismatch)
    ));
    assert!(p.loan(&t, at(START)).is_ok());
}

#[test]
fn two_publishers_share_a_topic() {
    let (mut p, mem) = publisher_of(PubSubConfig {
        block_count: 32,
        ..small()
    });
    let t = p.register("/t").unwrap();
    let mut other = ShmPublisher::open("prices", mem.clone(), 2, at(START)).unwrap();
    let u = other.register("/t").unwrap();
    assert_eq!(u.topic_idx, t.topic_idx);
    let mut s = subscribe(&mem, "/t");
    publish(&mut p, &t, b"one");
    publish(&mut other, &u, b"two");
    assert_eq!(take(&mut s), Some(b"one".to_vec()));
    assert_eq!(take(&mut s), Some(b"two".to_vec()));
}

#[test]
fn subscribers_are_counted() {
    let (mut p, mem) = publisher_of(small());
    let t = p.register("/t").unwrap();
    assert_eq!(p.subscriber_count(&t), 0);
    let s = subscribe(&mem, "/t");
    let _u = subscribe(&mem, "/t");
    assert_eq!(p.subscriber_count(&t), 2);
    s.close();
    assert_eq!(p.subscriber_count(&t), 1);
}

#[test]
fn typed_values_go_through() {
    let (mut p, mem) = publisher_of(small());
    let t = p.register_typed::<u64>("/typed").unwrap();
    let mut s = subscribe(&mem, "/typed");
    let loan = p.loan_typed::<u64>(&t, at(START)).unwrap();
    loan.send(0x1122_3344_5566_7788);
    let g = s.try_recv_typed::<u64>().unwrap();
    assert_eq!(g.get(&s.region), 0x1122_3344_5566_7788);
    g.release(&mut s.region);
    let mut loan = p.loan_typed::<u64>(&t, at(START)).unwrap();
    loan.write(5);
    loan.publish();
    // A type of another size is not received.
    assert!(s.try_recv_typed::<u32>().is_none());
    let g = s.try_recv_typed::<u64>().unwrap();
    assert_eq!(g.get(&s.region), 5);
    g.release(&mut s.region);
}

#[test]
fn structured_samples_read_back() {
    let (mut p, mem) = publisher_of(small());
    let t = p.register("/book").unwrap();
    let mut s = subscribe(&mem, "/book");
    let mut loan = p.loan(&t, at(START)).unwrap();
    loan.write_structured(&7u64, &[1u32, 2, 3]).unwrap();
    loan.publish();
    let g = s.try_recv().unwrap();
    assert_eq!(g.len(), 8 + 12 + 4);
    assert_eq!(g.read_header::<u64, Shared>(&s.region), Some(7));
    assert_eq!(
        g.read_array::<u64, u32, Shared>(&s.region),
        Some(vec![1, 2, 3])
    );
    assert_eq!(g.read_array::<u64, u64, Shared>(&s.region), None);
    g.release(&mut s.region);
}

#[test]
fn a_pinned_sample_keeps_the_publisher_out_while_it_is_read() {
    let (mut p, mem) = publisher_of(small());
    let t = p.register("/pinned").unwrap();
    let mut s = subscribe(&mem, "/pinned");
    assert!(s.try_recv_pinned().is_none());
    let mut loan = p.loan_pinned(&t).unwrap();
    loan.set_data(b"first").unwrap();
    loan.publish();
    let g = s.try_recv_pinned().unwrap();
    assert_eq!(g.to_vec(&s.region), b"first".to_vec());
    assert!(matches!(
        p.loan_pinned(&t),
        Err(Error::PinnedReadersActive { count: 1, .. })
    ));
    g.release(&mut s.region);
    assert!(s.try_recv_pinned().is_none());
    let mut loan = p.loan_pinned(&t).unwrap();
    loan.set_data(b"second").unwrap();
    loan.publish();
    let g = s.try_recv_pinned().unwrap();
    assert_eq!(g.to_vec(&s.region), b"second".to_vec());
    assert_eq!(g.len(), 6);
    assert!(!g.is_empty());
    g.release(&mut s.region);
}

#[test]
fn a_stale_publisher_is_dead() {
    let (mut p, mem) = publisher_of(small());
    p.register("/t").unwrap();
    let limit = START + 5_000_000;
    assert!(ShmSubscriber::connect("prices", mem.clone(), Some(limit)).is_ok());
    assert!(matches!(
        ShmSubscriber::connect("prices", mem.clone(), Some(limit + 1)),
        Err(Error::PublisherDead)
    ));
    p.heartbeat(at(limit + 1)).unwrap();
    assert!(ShmSubscriber::connect("prices", mem.clone(), Some(limit + 1)).is_ok());
    assert!(matches!(
        ShmSubscriber::connect("prices", mem, None),
        Err(Error::ClockError)
    ));
}

#[test]
fn a_segment_that_is_none_is_refused() {
    let refused = |mem: Shared| match ShmSubscriber::connect("prices", mem, Some(START)) {
        Err(Error::InvalidRegion(t)) => t,
        _ => panic!("accepted"),
    };
    assert!(!refused(Shared::zeroed(10)).is_empty());
    assert!(!refused(Shared::zeroed(10_000)).is_empty());
    let (_p, mem) = publisher_of(small());
    let mut broken = mem.clone();
    broken.store_u32(0x18, 3);
    assert!(!refused(broken).is_empty());
    let mut newer = mem;
    newer.store_u32(0x18, 4);
    newer.store_u32(8, 99);
    assert!(refused(newer).contains("99"));
}

#[test]
fn a_plan_tells_what_is_wrong() {
    let plan = |c: PubSubConfig| ShmPublisher::<Shared>::plan("prices", &c);
    assert_eq!(
        plan(small()).unwrap(),
        region_size_checked(&small()).unwrap()
    );
    assert_eq!(plan(small()).unwrap(), 128 + 4 * 128 + 4 * 4 * 16 + 8 * 64);
    assert!(plan(PubSubConfig { block_size: 8, ..small() }).is_err());
    assert!(plan(PubSubConfig { ring_depth: 3, ..small() }).is_err());
    assert!(plan(PubSubConfig { block_count: 0, ..small() }).is_err());
    assert!(plan(PubSubConfig { max_topics: 0, ..small() }).is_err());
    assert!(matches!(
        ShmPublisher::<Shared>::plan("a/b", &small()),
        Err(Error::SegmentNameInvalid(_))
    ));
    for name in ["", "..", "a/b", "a\\b", "a\0b"] {
        assert!(!is_valid_segment_name(name), "{name:?}");
    }
    assert!(is_valid_segment_name("prices-1.2"));
}

#[test]
fn a_blocked_receiver_takes_turns() {
    let (mut p, mem) = publisher_of(small());
    let t = p.register("/t").unwrap();
    let mut s = subscribe(&mem, "/t");
    let strategy = WaitStrategy::Adaptive {
        spin_iters: 1,
        yield_iters: 1,
    };
    let mut wait = RecvWait::new(strategy, s.region.config.stale_timeout_us);
    assert!(matches!(s.recv_with(&mut wait, Some(START)), RecvTurn::Again));
    assert!(matches!(s.recv_with(&mut wait, Some(START)), RecvTurn::Again));
    assert!(matches!(
        s.recv_with(&mut wait, Some(START)),
        RecvTurn::Sleep { seen: 0, millis: 50 }
    ));
    // The publisher sees that somebody sleeps.
    let mut loan = p.loan(&t, at(START)).unwrap();
    loan.set_data(b"wake up").unwrap();
    assert!(loan.publish());
    assert!(s.end_sleep(false, Some(START)).is_ok());
    match s.recv_with(&mut wait, Some(START)) {
        RecvTurn::Got(g) => {
            assert_eq!(g.to_vec(&s.region), b"wake up".to_vec());
            g.release(&mut s.region);
        }
        _ => panic!("nothing there"),
    }
    // Nobody sleeps any more.
    let mut loan = p.loan(&t, at(START)).unwrap();
    loan.set_data(b"x").unwrap();
    assert!(!loan.publish());
}

#[test]
fn a_sleep_that_times_out_finds_a_dead_publisher() {
    let (mut p, mem) = publisher_of(small());
    p.register("/t").unwrap();
    let mut s = subscribe(&mem, "/t");
    let mut wait = s.recv();
    assert_eq!(wait.strategy, WaitStrategy::default());
    loop {
        match s.recv_with(&mut wait, Some(START)) {
            RecvTurn::Again => {}
            RecvTurn::Sleep { .. } => break,
            _ => panic!("nothing was published"),
        }
    }
    assert!(matches!(
        s.end_sleep(true, Some(START + 6_000_000)),
        Err(Error::PublisherDead)
    ));
    let mut spin = RecvWait::new(WaitStrategy::BusySpin, 0);
    let mut turns = 0;
    loop {
        match s.recv_with(&mut spin, Some(START + 6_000_000)) {
            RecvTurn::Again => turns += 1,
            RecvTurn::Failed(Error::PublisherDead) => break,
            _ => panic!("not dead"),
        }
    }
    assert_eq!(turns, 1023);
}

#[test]
fn blocked_receivers_of_values_and_pinned_samples_take_turns() {
    let (mut p, mem) = publisher_of(small());
    let t = p.register_typed::<u32>("/t").unwrap();
    let mut s = subscribe(&mem, "/t");
    let mut wait = RecvWait::new(WaitStrategy::YieldSpin, 0);
    assert!(matches!(
        s.recv_typed_with::<u32>(&mut wait, Some(START)),
        RecvTurn::Again
    ));
    p.loan_typed::<u32>(&t, at(START)).unwrap().send(9);
    match s.recv_typed_with::<u32>(&mut wait, Some(START)) {
        RecvTurn::Got(g) => {
            assert_eq!(g.get(&s.region), 9);
            g.release(&mut s.region);
        }
        _ => panic!("nothing there"),
    }
    let mut r = subscribe(&mem, "/t");
    assert!(matches!(
        r.recv_pinned_with(&mut wait, Some(START)),
        RecvTurn::Again
    ));
    let mut loan = p.loan_pinned(&t).unwrap();
    loan.set_data(b"pin").unwrap();
    loan.publish();
    match r.recv_pinned_with(&mut wait, Some(START)) {
        RecvTurn::Got(g) => {
            assert_eq!(g.to_vec(&r.region), b"pin".to_vec());
            g.release(&mut r.region);
        }
        _ => panic!("nothing there"),
    }
}

#[test]
fn a_channel_goes_both_ways() {
    assert_eq!(server_name("c"), "c-srv");
    assert_eq!(client_name("c"), "c-cli");
    let size = region_size_checked(&small()).unwrap();
    let server_mem = Shared::zeroed(size);
    let client_mem = Shared::zeroed(size);
    let server_end =
        Channel::listen("c", small(), server_mem.clone(), 1, 1, at(START)).unwrap();
    let client_end =
        Channel::connect("c", small(), client_mem.clone(), 2, 2, at(START)).unwrap();
    let to_server = subscribe(&client_mem, "/ch");
    let to_client = subscribe(&server_mem, "/ch");
    let mut server = server_end.join(to_server);
    let mut client = client_end.join(to_client);
    client.send(b"ping", at(START)).unwrap();
    let g = server.try_recv().unwrap();
    assert_eq!(g.to_vec(&server.rx.region), b"ping".to_vec());
    g.release(&mut server.rx.region);
    let mut loan = server.loan(at(START)).unwrap();
    loan.set_data(b"pong").unwrap();
    loan.publish();
    let g = client.try_recv().unwrap();
    assert_eq!(g.to_vec(&client.rx.region), b"pong".to_vec());
    g.release(&mut client.rx.region);
    assert!(client.try_recv().is_none());
    client.heartbeat(at(START + 1)).unwrap();
    assert!(keep_looking(Some(10), 9));
    assert!(!keep_looking(Some(10), 10));
    assert!(!keep_looking(None, 0));
}

#[test]
fn messages_come_in_order_and_once() {
    let size = region_size_checked(&small()).unwrap();
    let server_mem = Shared::zeroed(size);
    let client_mem = Shared::zeroed(size);
    let server_end =
        Channel::listen("c", small(), server_mem.clone(), 1, 1, at(START)).unwrap();
    let client_end =
        Channel::connect("c", small(), client_mem.clone(), 2, 2, at(START)).unwrap();
    let mut client = client_end.join(subscribe(&server_mem, "/ch"));
    // As many messages as the ring has room for, before the other end is there.
    for i in 1..=4u8 {
        client.send(&[i; 3], at(START)).unwrap();
    }
    let mut server = server_end.join(subscribe(&client_mem, "/ch"));
    for i in 1..=4u8 {
        let g = server.try_recv().unwrap();
        assert_eq!(g.to_vec(&server.rx.region), vec![i; 3]);
        g.release(&mut server.rx.region);
    }
    assert!(server.try_recv().is_none());
}

#[test]
fn a_loan_fails_only_when_every_block_is_in_use() {
    let (mut p, mem) = publisher_of(small());
    let t = p.register("/t").unwrap();
    let mut s = subscribe(&mem, "/t");
    let mut held = Vec::new();
    for i in 0..8u8 {
        publish(&mut p, &t, &[i]);
        held.push(s.try_recv().unwrap());
    }
    assert!(matches!(p.loan(&t, at(START)), Err(Error::PoolExhausted)));
    // The first sample is in no ring slot any more: without its guard it is free.
    held.remove(0).release(&mut s.region);
    p.loan(&t, at(START)).unwrap().discard();
    for (i, guard) in held.into_iter().enumerate() {
        assert_eq!(guard.to_vec(&s.region), vec![i as u8 + 1]);
        guard.release(&mut s.region);
    }
}

#[test]
fn a_held_sample_survives_any_number_of_publications() {
    let (mut p, mem) = publisher_of(small());
    let t = p.register("/t").unwrap();
    let mut s = subscribe(&mem, "/t");
    publish(&mut p, &t, b"keep");
    let guard = s.try_recv().unwrap();
    for i in 0..1000u32 {
        publish(&mut p, &t, &i.to_le_bytes());
        assert_eq!(guard.to_vec(&s.region), b"keep".to_vec());
    }
    guard.release(&mut s.region);
    assert_eq!(take(&mut s), Some(996u32.to_le_bytes().to_vec()));
}

#[test]
fn pinned_bytes_are_received_again_and_again() {
    let (mut p, mem) = publisher_of(small());
    let t = p.register("/pinned").unwrap();
    let other = p.register("/t").unwrap();
    let mut s = subscribe(&mem, "/pinned");
    for i in 0..20u8 {
        let mut loan = p.loan_pinned(&t).unwrap();
        loan.set_data(&[i, i + 1]).unwrap();
        loan.publish();
        publish(&mut p, &other, b"noise");
        let g = s.try_recv_pinned().unwrap();
        assert_eq!(g.to_vec(&s.region), vec![i, i + 1]);
        g.release(&mut s.region);
        assert!(s.try_recv_pinned().is_none());
    }
}

fn registry() -> Registry<Shared> {
    Registry::create_new(Shared::zeroed(REG_TOTAL_SIZE), "reg".to_string())
}

#[test]
fn a_registered_topic_is_discovered() {
    let mut reg = registry();
    reg.register("prices", "/tick/AAPL", 5, Some(100)).unwrap();
    reg.register("prices", "/tick/MSFT", 5, Some(200)).unwrap();
    reg.register("news", "/headline", 6, Some(300)).unwrap();
    let all = reg.discover("/tick/*");
    assert_eq!(all.len(), 2);
    assert_eq!(all[0].region, "prices");
    assert_eq!(all[0].uri, "/tick/AAPL");
    assert_eq!(all[0].pid, 5);
    assert_eq!(all[0].timestamp_us, 100);
    assert_eq!(reg.discover("/headline").len(), 1);
    assert_eq!(reg.discover("/head").len(), 0);
    assert_eq!(reg.discover("*").len(), 3);
    assert_eq!(reg.discover_since("*", 200).len(), 1);
    assert_eq!(reg.discover_since("*", 199).len(), 2);
    // Registering again is a heartbeat.
    reg.register("prices", "/tick/AAPL", 5, Some(900)).unwrap();
    let again = reg.discover("/tick/AAPL");
    assert_eq!(again.len(), 1);
    assert_eq!(again[0].timestamp_us, 900);
    assert_eq!(reg.path(), "reg");
}

#[test]
fn entries_leave_the_registry() {
    let mut reg = registry();
    reg.register("a", "/1", 5, Some(100)).unwrap();
    reg.register("a", "/2", 5, Some(100)).unwrap();
    reg.register("b", "/3", 5, Some(100)).unwrap();
    reg.unregister("a", 5);
    assert_eq!(reg.discover("*").len(), 1);
    reg.register("c", "/4", 7, Some(30_000_000)).unwrap();
    let left = discover(&mut reg, "*", Some(31_000_000));
    assert_eq!(left.len(), 1);
    assert_eq!(left[0].uri, "/4");
    reg.prune_stale(Some(60_000_000), 1);
    assert_eq!(reg.discover("*").len(), 0);
}

#[test]
fn a_full_registry_and_long_names_are_passed_over() {
    let mut reg = registry();
    for i in 0..256 {
        reg.register("r", &format!("/{i}"), 1, Some(1)).unwrap();
    }
    assert!(reg.register("r", "/more", 1, Some(1)).is_ok());
    assert_eq!(reg.discover("*").len(), 256);
    assert_eq!(reg.discover("/more").len(), 0);
    let mut reg = registry();
    assert!(reg.register("r", &"x".repeat(64), 1, Some(1)).is_ok());
    assert!(reg.register(&"x".repeat(48), "/x", 1, Some(1)).is_ok());
    assert_eq!(reg.discover("*").len(), 0);
    // Without a clock the time is zero.
    assert!(reg.register("r", "/x", 1, None).is_ok());
    assert_eq!(reg.discover("/x")[0].timestamp_us, 0);
}

#[test]
fn a_registry_is_opened_again() {
    let mut reg = registry();
    reg.register("r", "/x", 1, Some(1)).unwrap();
    let again = Registry::try_open_existing(reg.mem.clone(), "reg".to_string()).unwrap();
    assert_eq!(again.discover("/x").len(), 1);
    assert_eq!(again.discover("*"), reg.discover("*"));
    assert!(registry().discover("*").is_empty());
    assert!(Registry::try_open_existing(Shared::zeroed(10), "reg".to_string()).is_err());
    assert!(Registry::try_open_existing(Shared::zeroed(REG_TOTAL_SIZE), "r".to_string()).is_err());
}

#[test]
fn fixed_strings_are_padded_and_cut() {
    assert_eq!(write_fixed_str("ab", 4), vec![97, 98, 0, 0]);
    assert_eq!(write_fixed_str("abcdef", 4), vec![97, 98, 99, 0]);
    assert_eq!(read_fixed_str(&[97, 98, 0, 99]), "ab");
    assert_eq!(read_fixed_str(&[0xff, 97, 0]), "\u{fffd}a");
    let p = Pattern::parse("/a*");
    assert!(p.matches_uri("/abc"));
    assert!(!p.matches_uri("/b"));
}

#[test]
fn uris_are_hashed_as_fnv_1a() {
    assert_eq!(uri_hash(""), 0xcbf2_9ce4_8422_2325);
    assert_eq!(uri_hash("a"), 0xaf63_dc4c_8601_ec8c);
    assert_eq!(uri_hash("foobar"), 0x8594_4171_f739_67e8);
    assert!(power_of_two(8) && !power_of_two(6) && !power_of_two(0));
}

#[test]
fn callers_from_other_languages_get_plain_values() {
    let c = crossbar_config_default();
    assert_eq!(c.heartbeat_ms, 100);
    assert_eq!(c.stale_timeout_ms, 5000);
    assert_eq!(config_or_default(Some(c)), PubSubConfig::default());
    assert_eq!(config_or_default(None), PubSubConfig::default());
    let (mut p, mem) = publisher_of(small());
    let t = topic_or_none(p.register("/t"));
    assert_eq!(t.topic_idx, 0);
    let none = topic_or_none(p.register(&"x".repeat(65)));
    assert_eq!(none.topic_idx, u32::MAX);
    let mut s = subscribe(&mem, "/t");
    publish(&mut p, &topic_handle(t), b"plain");
    let sample = guard_to_sample(s.try_recv().unwrap());
    assert_eq!(sample.data_len(), 5);
    sample.free(&mut s.region);
}

#[test]
fn errors_read_well() {
    assert_eq!(
        Error::DataTooLarge {
            size: 9,
            capacity: 8
        }
        .message(),
        "data (9) exceeds block data capacity (8)"
    );
    assert_eq!(
        Error::TopicNotFound("/x".to_string()).message(),
        "topic '/x' not found"
    );
}

#[test]
fn every_1024_loans_the_clock_is_due() {
    let (mut p, mem) = publisher_of(small());
    let t = p.register("/t").unwrap();
    let later = START + 2_000_000;
    for _ in 0..1023 {
        assert!(!p.clock_due());
        p.loan(&t, at(later)).unwrap().discard();
    }
    assert!(p.clock_due());
    p.loan(&t, at(later)).unwrap().discard();
    // The heartbeat was set on the way.
    assert!(ShmSubscriber::connect("prices", mem, Some(later + 5_000_000)).is_ok());
    p.close();
}

#[test]
fn segments_lie_in_well_known_places() {
    let windows = Place::Windows("C:\\Temp\\".to_string());
    assert_eq!(shm_path("prices", &Place::Linux), "/dev/shm/crossbar-prices");
    assert_eq!(shm_path("prices", &windows), "C:\\Temp\\crossbar-prices");
    assert_eq!(shm_path("prices", &Place::Other), "/tmp/crossbar-shm-prices");
    assert_eq!(pod_bus_shm_path("ticks", &Place::Linux), "/dev/shm/crossbar-pod-ticks");
    assert_eq!(pod_bus_shm_path("ticks", &windows), "C:\\Temp\\crossbar-pod-ticks");
    assert_eq!(pod_bus_shm_path("ticks", &Place::Other), "/tmp/crossbar-pod-shm-ticks");
    assert_eq!(registry_path(None, &Place::Linux), "/dev/shm/crossbar-registry");
    assert_eq!(registry_path(None, &windows), "C:\\Temp\\crossbar-registry");
    assert_eq!(registry_path(None, &Place::Other), "/tmp/crossbar-shm-registry");
    let asked = Some("/srv/topics".to_string());
    assert_eq!(registry_path(asked, &windows), "/srv/topics");
}

#[test]
fn publishers_have_ids_of_their_own() {
    assert_eq!(publisher_id(7, 1, ""), 0xcbf2_9ce4_8422_2325 ^ 6);
    assert_eq!(publisher_id(0, 0, "a"), 0xaf63_dc4c_8601_ec8c);
    assert_ne!(publisher_id(7, 1, "a"), publisher_id(7, 2, "a"));
}

#[test]
fn no_block_is_lost() {
    let (mut p, mem) = publisher_of(small());
    let t = p.register("/t").unwrap();
    let mut s = subscribe(&mem, "/t");
    for i in 0..1000u32 {
        publish(&mut p, &t, &i.to_le_bytes());
        if i % 3 == 0 {
            assert_eq!(take(&mut s).map(|d| d.len()), Some(4));
        }
        if i % 5 == 0 {
            p.loan(&t, at(START)).unwrap().discard();
        }
    }
    // Four blocks lie in the ring; the others are free, and can be held at once.
    let mut held = Vec::new();
    while let Some(guard) = s.try_recv() {
        held.push(guard);
    }
    for guard in held {
        guard.release(&mut s.region);
    }
    p.close();
    let mut free = 0;
    while s.region.alloc_block().is_some() {
        free += 1;
    }
    assert_eq!(free, 8 - 4);
}

fn there_and_back<T: Pod>(value: T) -> T {
    let bytes = value.to_bytes();
    assert_eq!(bytes.len(), T::size_of());
    T::from_bytes(&bytes)
}

#[test]
fn plain_values_have_fixed_bytes() {
    assert_eq!((-1i128).to_bytes(), vec![255; 16]);
    assert_eq!(there_and_back(i128::MIN), i128::MIN);
    assert_eq!(there_and_back(i128::MAX), i128::MAX);
    assert_eq!(there_and_back(-42i128), -42);
    assert_eq!(there_and_back(usize::MAX), usize::MAX);
    assert_eq!(there_and_back(isize::MIN), isize::MIN);
    assert_eq!(usize::size_of(), std::mem::size_of::<usize>());
    assert_eq!([1u16, 2].to_bytes(), vec![1, 0, 2, 0]);
    assert_eq!(<[u16; 2]>::align_of(), 2);
    assert_eq!(there_and_back([[1i8, -2], [3, -4], [5, -6]]), [[1, -2], [3, -4], [5, -6]]);
    assert_eq!(there_and_back([0u64; 0]), [0u64; 0]);
}

#[test]
fn arrays_go_through() {
    let (mut p, mem) = publisher_of(small());
    let t = p.register_typed::<[u32; 3]>("/typed").unwrap();
    let mut s = subscribe(&mem, "/typed");
    p.loan_typed::<[u32; 3]>(&t, at(START)).unwrap().send([7, 8, 9]);
    assert!(s.try_recv_typed::<[u32; 2]>().is_none());
    let guard = s.try_recv_typed::<[u32; 3]>().unwrap();
    assert_eq!(guard.get(&s.region), [7, 8, 9]);
    guard.release(&mut s.region);
}
