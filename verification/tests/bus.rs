//! The bus of plain values.

use crossbar::error::Error;
use crossbar::memory::{Accesses, Delays, HeapMemory, Image, SharedMemory};
use crossbar::platform::pod_bus::bus_size;
use crossbar::{BusSubscriber, PodBus};
use std::cell::RefCell;
use std::rc::Rc;

/// One of several handles on a segment on the heap.
#[derive(Clone)]
struct Shared(Rc<RefCell<HeapMemory>>);

impl Shared {
    fn zeroed(len: usize) -> Shared {
        Shared(Rc::new(RefCell::new(HeapMemory::zeroed(len))))
    }
}

impl SharedMemory for Shared {
    fn image(&self) -> Image {
        unreachable!()
    }
    fn exclusive(&self) -> bool {
        unreachable!()
    }
    fn contention(&self) -> Delays {
        unreachable!()
    }
    fn accesses(&self) -> Accesses {
        unreachable!()
    }
    fn size(&self) -> usize {
        self.0.borrow().size()
    }
    fn read(&self, off: usize, len: usize) -> Vec<u8> {
        self.0.borrow().read(off, len)
    }
    fn write(&mut self, off: usize, data: &[u8]) {
        self.0.borrow_mut().write(off, data)
    }
    fn wait_while_u64(&mut self, off: usize, busy: u64) -> u64 {
        self.0.borrow_mut().wait_while_u64(off, busy)
    }
    fn load_u32(&self, off: usize) -> u32 {
        self.0.borrow().load_u32(off)
    }
    fn load_u64(&self, off: usize) -> u64 {
        self.0.borrow().load_u64(off)
    }
    fn look_u32(&mut self, off: usize) -> u32 {
        self.load_u32(off)
    }
    fn look_u64(&mut self, off: usize) -> u64 {
        self.load_u64(off)
    }
    fn copy(&mut self, off: usize, len: usize) -> Vec<u8> {
        self.read(off, len)
    }
    fn store_u32(&mut self, off: usize, v: u32) {
        self.0.borrow_mut().store_u32(off, v)
    }
    fn store_u64(&mut self, off: usize, v: u64) {
        self.0.borrow_mut().store_u64(off, v)
    }
    fn compare_exchange_u32(&mut self, off: usize, current: u32, new: u32) -> Result<u32, u32> {
        self.0.borrow_mut().compare_exchange_u32(off, current, new)
    }
    fn compare_exchange_u64(&mut self, off: usize, current: u64, new: u64) -> Result<u64, u64> {
        self.0.borrow_mut().compare_exchange_u64(off, current, new)
    }
    fn fetch_add_u32(&mut self, off: usize, v: u32) -> u32 {
        self.0.borrow_mut().fetch_add_u32(off, v)
    }
    fn fetch_sub_u32(&mut self, off: usize, v: u32) -> u32 {
        self.0.borrow_mut().fetch_sub_u32(off, v)
    }
    fn fetch_add_u64(&mut self, off: usize, v: u64) -> u64 {
        self.0.borrow_mut().fetch_add_u64(off, v)
    }
    fn fetch_max_u64(&mut self, off: usize, v: u64) -> u64 {
        self.0.borrow_mut().fetch_max_u64(off, v)
    }
}

const PID: u32 = 7;
const NOW: Option<u64> = Some(1_000_000);
const NOBODY: &[u32] = &[];

fn bus_of(name: &str, ring_size: usize) -> (PodBus<u64, Shared>, Shared) {
    let mem = Shared::zeroed(bus_size::<u64>(ring_size, None).unwrap());
    let bus = PodBus::create(name, ring_size, mem.clone(), PID as u64, NOW).unwrap();
    (bus, mem)
}

fn bounded_of(name: &str, ring_size: usize, mark: usize) -> (PodBus<u64, Shared>, Shared) {
    let mem = Shared::zeroed(bus_size::<u64>(ring_size, Some(mark as u64)).unwrap());
    let bus = PodBus::create_bounded(name, ring_size, mark, mem.clone(), PID as u64, NOW).unwrap();
    (bus, mem)
}

fn drain(sub: &mut BusSubscriber<u64, Shared>) -> Vec<u64> {
    let mut received = Vec::new();
    while let Some(v) = sub.try_recv() {
        received.push(v);
    }
    received
}

#[test]
fn basic_publish_subscribe() {
    let (mut bus, mem) = bus_of("basic", 4);
    let mut sub = bus.subscriber(mem, PID, NOW).unwrap();

    assert!(sub.try_recv().is_none());

    assert!(bus.publish(42u64, 0, NOBODY, NOW).is_none());
    assert_eq!(sub.try_recv(), Some(42));
    assert!(sub.try_recv().is_none());
}

#[test]
fn multiple_subscribers() {
    let mem = Shared::zeroed(bus_size::<u32>(8, None).unwrap());
    let mut bus = PodBus::<u32, Shared>::create("multi", 8, mem.clone(), PID as u64, NOW).unwrap();
    let mut s1 = bus.subscriber(mem.clone(), PID, NOW).unwrap();
    let mut s2 = bus.subscriber(mem.clone(), PID, NOW).unwrap();
    let mut s3 = bus.subscriber(mem, PID, NOW).unwrap();

    bus.publish(10, 0, NOBODY, NOW);
    bus.publish(20, 0, NOBODY, NOW);

    assert_eq!(s1.try_recv(), Some(10));
    assert_eq!(s1.try_recv(), Some(20));

    assert_eq!(s2.try_recv(), Some(10));
    assert_eq!(s2.try_recv(), Some(20));

    assert_eq!(s3.try_recv(), Some(10));
    assert_eq!(s3.try_recv(), Some(20));
}

#[test]
fn ring_overwrite() {
    let (mut bus, mem) = bus_of("overwrite", 4);
    let mut sub = bus.subscriber(mem, PID, NOW).unwrap();

    // Publish more than the ring holds.
    for i in 0..10u64 {
        bus.publish(i, 0, NOBODY, NOW);
    }

    // The subscriber skips ahead and reads the last four values.
    let received = drain(&mut sub);
    assert!(!received.is_empty());
    assert!(received.len() <= 4);
    assert_eq!(*received.last().unwrap(), 9);
    assert_eq!(received, vec![6, 7, 8, 9]);
    assert_eq!(sub.total_lagged(), 6);
}

#[test]
fn connect_by_name() {
    let (mut bus, mem) = bus_of("connect", 8);
    bus.publish(100, 0, NOBODY, NOW);
    bus.publish(200, 0, NOBODY, NOW);

    // A subscriber starts at the values that are published after it connected.
    let mut sub = BusSubscriber::<u64, Shared>::connect("connect", mem, PID, NOW).unwrap();
    bus.publish(300, 0, NOBODY, NOW);
    assert_eq!(sub.try_recv(), Some(300));
}

#[test]
#[should_panic]
fn rejects_non_power_of_two() {
    bus_of("pot", 3);
}

#[test]
#[should_panic]
fn rejects_zero() {
    bus_of("zero", 0);
}

#[test]
fn type_mismatch_rejected() {
    let (_bus, mem) = bus_of("mismatch", 8);

    // A type of another size.
    let result = BusSubscriber::<u32, Shared>::connect("mismatch", mem, PID, NOW);
    assert!(result.is_err());
}

#[test]
fn invalid_name_rejected() {
    let size = bus_size::<u64>(8, None).unwrap();
    let result = PodBus::<u64, Shared>::create("../evil", 8, Shared::zeroed(size), 1, NOW);
    assert!(result.is_err());

    let result = PodBus::<u64, Shared>::create("foo/bar", 8, Shared::zeroed(size), 1, NOW);
    assert!(matches!(result, Err(Error::SegmentNameInvalid(n)) if n == "foo/bar"));
}

#[test]
fn subscriber_survives_publisher_drop() {
    let mut sub;
    {
        let (mut bus, mem) = bus_of("surv", 8);
        bus.publish(42, 0, NOBODY, NOW);
        bus.publish(43, 0, NOBODY, NOW);
        sub = bus.subscriber(mem, PID, NOW).unwrap();
        bus.publish(44, 0, NOBODY, NOW);
        // The bus goes here; the subscriber has a handle of its own.
    }
    let received = drain(&mut sub);
    assert_eq!(received, vec![44]);
}

#[test]
fn lag_detection() {
    let (mut bus, mem) = bus_of("lag", 4);
    let mut sub = bus.subscriber(mem, PID, NOW).unwrap();

    // Publish far more than the ring holds.
    for i in 0..100u64 {
        bus.publish(i, 0, NOBODY, NOW);
    }

    while sub.try_recv().is_some() {}

    assert!(sub.total_lagged() > 0);
    assert_eq!(sub.total_lagged(), 96);
}

#[test]
fn heartbeat_method() {
    let (mut bus, _mem) = bus_of("hb", 4);
    bus.heartbeat(NOW).unwrap();
    assert!(matches!(bus.heartbeat(None), Err(Error::ClockError)));
}

#[test]
fn bounded_backpressure_blocks() {
    // A ring of 4 with one slot kept free holds 3 values.
    let (mut bus, mem) = bounded_of("bp-blocks", 4, 1);
    assert!(bus.is_bounded());

    let mut sub = bus.subscriber(mem, PID, NOW).unwrap();

    assert!(bus.try_publish(1, NOBODY, NOW).is_ok());
    assert!(bus.try_publish(2, NOBODY, NOW).is_ok());
    assert!(bus.try_publish(3, NOBODY, NOW).is_ok());

    // The ring is full.
    let result = bus.try_publish(4, NOBODY, NOW);
    assert!(
        matches!(result, Err(Error::Full)),
        "expected Error::Full, got {result:?}"
    );

    // The subscriber reads a value, which frees a slot.
    assert_eq!(sub.try_recv(), Some(1));

    assert!(bus.try_publish(4, NOBODY, NOW).is_ok());
}

#[test]
fn bounded_subscriber_advances() {
    let (mut bus, mem) = bounded_of("bp-adv", 8, 0);
    let mut sub = bus.subscriber(mem, PID, NOW).unwrap();

    // Fill the ring.
    for i in 0..8u64 {
        assert!(bus.try_publish(i, NOBODY, NOW).is_ok(), "failed to publish {i}");
    }

    assert!(matches!(bus.try_publish(99, NOBODY, NOW), Err(Error::Full)));

    let received = drain(&mut sub);
    assert_eq!(received, vec![0, 1, 2, 3, 4, 5, 6, 7]);

    // The subscriber has moved on.
    for i in 100..108u64 {
        assert!(bus.try_publish(i, NOBODY, NOW).is_ok(), "failed to publish {i}");
    }
    assert!(matches!(bus.try_publish(999, NOBODY, NOW), Err(Error::Full)));
}

#[test]
fn bounded_no_subscribers_unbounded() {
    // Without subscribers a bounded bus publishes freely.
    let (mut bus, _mem) = bounded_of("bp-nosub", 4, 1);

    for i in 0..100u64 {
        assert!(bus.try_publish(i, NOBODY, NOW).is_ok());
    }
}

#[test]
fn bounded_crashed_subscriber_pruned() {
    let (mut bus, mem) = bounded_of("bp-crash", 4, 0);

    // A subscriber that does not read.
    let sub = bus.subscriber(mem, PID, NOW).unwrap();
    for i in 0..4u64 {
        assert!(bus.try_publish(i, NOBODY, NOW).is_ok());
    }

    assert!(matches!(bus.try_publish(99, NOBODY, NOW), Err(Error::Full)));

    // It leaves, and its slot is free.
    sub.close();

    assert!(bus.try_publish(99, NOBODY, NOW).is_ok());
}

#[test]
fn bounded_publish_spin_waits() {
    let (mut bus, mem) = bounded_of("bp-spin", 4, 1);
    let mut sub = bus.subscriber(mem, PID, NOW).unwrap();

    // Five values through a ring that holds three: the publisher waits, and the
    // subscriber reads in between.
    let mut count = 0;
    let mut waited = 0;
    for i in 0..5u64 {
        let mut spins = 0;
        while let Some(n) = bus.publish(i, spins, NOBODY, NOW) {
            assert_eq!(n, spins + 1);
            spins = n;
            waited += 1;
            assert!(sub.try_recv().is_some());
            count += 1;
        }
    }
    assert_eq!(waited, 2);
    count += drain(&mut sub).len();
    assert_eq!(count, 5);
}

#[test]
#[should_panic(expected = "watermark")]
fn bounded_rejects_watermark_ge_ring_size() {
    let size = bus_size::<u64>(4, Some(4)).expect("watermark must be less than ring_size");
    println!("{size}");
}

#[test]
fn unbounded_try_publish_always_succeeds() {
    let (mut bus, mem) = bus_of("unbounded-try", 4);
    let _sub = bus.subscriber(mem, PID, NOW).unwrap();

    // An unbounded bus never waits for its subscribers.
    for i in 0..100u64 {
        assert!(bus.try_publish(i, NOBODY, NOW).is_ok());
    }
}

#[test]
fn a_dead_subscriber_does_not_hold_the_publisher_back() {
    let (mut bus, mem) = bounded_of("bp-dead", 4, 0);
    let _sub = bus.subscriber(mem, 4321, NOW).unwrap();
    for i in 0..4u64 {
        assert!(bus.try_publish(i, NOBODY, NOW).is_ok());
    }
    let pids = bus.subscriber_pids();
    assert!(pids.contains(&4321));
    assert!(matches!(bus.try_publish(4, NOBODY, NOW), Err(Error::Full)));
    assert!(bus.try_publish(4, &[4321], NOW).is_ok());
}

#[test]
fn a_bounded_bus_loses_nothing() {
    let (mut bus, mem) = bounded_of("lossless", 4, 1);
    let mut sub = bus.subscriber(mem, PID, NOW).unwrap();
    let mut received = Vec::new();
    let mut next = 0u64;
    while next < 50 {
        if bus.try_publish(next, NOBODY, NOW).is_ok() {
            next += 1;
        } else {
            received.push(sub.try_recv().unwrap());
        }
    }
    received.extend(drain(&mut sub));
    assert_eq!(received, (0..50).collect::<Vec<u64>>());
    assert_eq!(sub.total_lagged(), 0);
    assert_eq!(bus.published_count(), 50);
    assert_eq!(sub.published_count(), 50);
    assert_eq!(bus.ring_size(), 4);
    assert_eq!(sub.ring_size(), 4);
}

#[test]
fn a_bounded_bus_takes_a_limited_number_of_subscribers() {
    let (bus, mem) = bounded_of("many", 4, 0);
    let mut subs = Vec::new();
    loop {
        match bus.subscriber(mem.clone(), PID, NOW) {
            Ok(s) => subs.push(s),
            Err(e) => {
                assert!(matches!(e, Error::PoolExhausted), "{e:?}");
                break;
            }
        }
    }
    assert_eq!(subs.len(), 64);
    subs.pop().unwrap().close();
    assert!(bus.subscriber(mem, PID, NOW).is_ok());
}

#[test]
fn a_segment_that_is_no_bus_is_refused() {
    let result = BusSubscriber::<u64, Shared>::connect("x", Shared::zeroed(16), PID, NOW);
    assert!(matches!(result, Err(Error::InvalidRegion(_))));
    let result = BusSubscriber::<u64, Shared>::connect("x", Shared::zeroed(4096), PID, NOW);
    match result {
        Err(Error::InvalidRegion(t)) => {
            assert_eq!(t, "invalid PodBus magic (expected XPOD_ZC)")
        }
        _ => panic!("not refused"),
    }
}

#[test]
fn a_stale_publisher_is_refused() {
    let (_bus, mem) = bus_of("stale", 4);
    let later = Some(1_000_000 + 3_600_000_000);
    let result = BusSubscriber::<u64, Shared>::connect("stale", mem.clone(), PID, later);
    assert!(matches!(result, Err(Error::PublisherDead)));
    let result = BusSubscriber::<u64, Shared>::connect("stale", mem, PID, None);
    assert!(matches!(result, Err(Error::ClockError)));
}
