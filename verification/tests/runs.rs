//! Several parties at work on one segment at the same time: at chosen moments
//! of an operation, others step in.

use crossbar::memory::{Accesses, Delays, HeapMemory, Image, SharedMemory};
use crossbar::platform::pod_bus::bus_size;
use crossbar::platform::shm::Clock;
use crossbar::protocol::layout::ring_entry_off;
use crossbar::protocol::region::Region;
use crossbar::transport::shm::pool_pubsub::{
    self, PoolPubSubConfig, ShmPoolPublisher, ShmPoolSubscriber,
};
use crossbar::transport::shm::pubsub;
use crossbar::{BusSubscriber, PodBus, PubSubConfig, ShmPublisher, ShmSubscriber};
use std::cell::RefCell;
use std::rc::Rc;

type Interruption = Box<dyn FnOnce()>;

/// A handle on a segment. The next read, or the next exchange, lets another
/// party act first, if one is waiting.
#[derive(Clone)]
struct Shared {
    mem: Rc<RefCell<HeapMemory>>,
    before_read: Rc<RefCell<Option<Interruption>>>,
    before_exchange: Rc<RefCell<Option<Interruption>>>,
    while_waiting: Rc<RefCell<Option<Interruption>>>,
}

fn interrupt(waiting: &Rc<RefCell<Option<Interruption>>>) {
    let other = waiting.borrow_mut().take();
    if let Some(act) = other {
        act();
    }
}

impl Shared {
    fn zeroed(len: usize) -> Shared {
        Shared {
            mem: Rc::new(RefCell::new(HeapMemory::zeroed(len))),
            before_read: Rc::new(RefCell::new(None)),
            before_exchange: Rc::new(RefCell::new(None)),
            while_waiting: Rc::new(RefCell::new(None)),
        }
    }

    /// Another handle on the same segment, which nobody interrupts.
    fn handle(&self) -> Shared {
        Shared {
            mem: Rc::clone(&self.mem),
            before_read: Rc::new(RefCell::new(None)),
            before_exchange: Rc::new(RefCell::new(None)),
            while_waiting: Rc::new(RefCell::new(None)),
        }
    }
}

impl SharedMemory for Shared {
    fn image(&self) -> Image {
        unreachable!()
    }
    fn exclusive(&self) -> bool {
        unreachable!()
    }
    fn contention(&self) -> Delays {
        unreachable!()
    }
    fn accesses(&self) -> Accesses {
        unreachable!()
    }
    fn size(&self) -> usize {
        self.mem.borrow().size()
    }
    fn read(&self, off: usize, len: usize) -> Vec<u8> {
        interrupt(&self.before_read);
        self.mem.borrow().read(off, len)
    }
    fn write(&mut self, off: usize, data: &[u8]) {
        self.mem.borrow_mut().write(off, data)
    }
    fn wait_while_u64(&mut self, off: usize, busy: u64) -> u64 {
        loop {
            let found = self.load_u64(off);
            if found != busy {
                return found;
            }
            interrupt(&self.while_waiting);
        }
    }
    fn load_u32(&self, off: usize) -> u32 {
        self.mem.borrow().load_u32(off)
    }
    fn load_u64(&self, off: usize) -> u64 {
        self.mem.borrow().load_u64(off)
    }
    fn look_u32(&mut self, off: usize) -> u32 {
        self.load_u32(off)
    }
    fn look_u64(&mut self, off: usize) -> u64 {
        self.load_u64(off)
    }
    fn copy(&mut self, off: usize, len: usize) -> Vec<u8> {
        self.read(off, len)
    }
    fn store_u32(&mut self, off: usize, v: u32) {
        self.mem.borrow_mut().store_u32(off, v)
    }
    fn store_u64(&mut self, off: usize, v: u64) {
        self.mem.borrow_mut().store_u64(off, v)
    }
    fn compare_exchange_u32(&mut self, off: usize, current: u32, new: u32) -> Result<u32, u32> {
        interrupt(&self.before_exchange);
        self.mem.borrow_mut().compare_exchange_u32(off, current, new)
    }
    fn compare_exchange_u64(&mut self, off: usize, current: u64, new: u64) -> Result<u64, u64> {
        interrupt(&self.before_exchange);
        self.mem.borrow_mut().compare_exchange_u64(off, current, new)
    }
    fn fetch_add_u32(&mut self, off: usize, v: u32) -> u32 {
        self.mem.borrow_mut().fetch_add_u32(off, v)
    }
    fn fetch_sub_u32(&mut self, off: usize, v: u32) -> u32 {
        self.mem.borrow_mut().fetch_sub_u32(off, v)
    }
    fn fetch_add_u64(&mut self, off: usize, v: u64) -> u64 {
        self.mem.borrow_mut().fetch_add_u64(off, v)
    }
    fn fetch_max_u64(&mut self, off: usize, v: u64) -> u64 {
        self.mem.borrow_mut().fetch_max_u64(off, v)
    }
}

const NOW: u64 = 1_000_000;

fn clock() -> Clock {
    Clock {
        mono_us: NOW,
        wall_us: Some(NOW),
    }
}

#[test]
fn a_value_that_is_overwritten_while_it_is_read_is_not_received() {
    let mem = Shared::zeroed(bus_size::<u64>(4, None).unwrap());
    let mut bus = PodBus::create("bus", 4, mem.handle(), 7, Some(NOW)).unwrap();
    let mut sub: BusSubscriber<u64, Shared> =
        BusSubscriber::connect("bus", mem.clone(), 7, Some(NOW)).unwrap();
    assert!(bus.publish(100u64, 0, &[], Some(NOW)).is_none());
    *mem.before_read.borrow_mut() = Some(Box::new(move || {
        for value in 101u64..105 {
            assert!(bus.publish(value, 0, &[], Some(NOW)).is_none());
        }
    }));
    assert_eq!(sub.try_recv(), None);
    assert_eq!(sub.try_recv(), Some(101));
    assert_eq!(sub.total_lagged(), 1);
    assert_eq!(sub.try_recv(), Some(102));
    assert_eq!(sub.try_recv(), Some(103));
    assert_eq!(sub.try_recv(), Some(104));
    assert_eq!(sub.try_recv(), None);
}

fn small() -> PubSubConfig {
    PubSubConfig {
        max_topics: 2,
        block_count: 4,
        block_size: 64,
        ring_depth: 2,
        ..PubSubConfig::default()
    }
}

#[test]
fn a_list_that_changes_and_looks_the_same_is_noticed() {
    let mem = Shared::zeroed(ShmPublisher::<Shared>::plan("x", &small()).unwrap());
    ShmPublisher::create("x", small(), mem.handle(), 1, 1, clock()).unwrap();
    let mut party = Region::from_memory(mem.clone(), small());
    let mut other = Region::from_memory(mem.handle(), small());
    // The other one takes blocks 0 and 1, and gives 0 back: the first block is
    // the same again, but not the second.
    *mem.before_exchange.borrow_mut() = Some(Box::new(move || {
        assert_eq!(other.alloc_block(), Some(0));
        assert_eq!(other.alloc_block(), Some(1));
        other.free_block(0);
    }));
    assert_eq!(party.alloc_block(), Some(0));
    assert_eq!(party.alloc_block(), Some(2));
    assert_eq!(party.alloc_block(), Some(3));
    assert_eq!(party.alloc_block(), None);
}

#[test]
fn a_ring_slot_that_another_publisher_writes_is_waited_for() {
    let mem = Shared::zeroed(ShmPublisher::<Shared>::plan("x", &small()).unwrap());
    let mut publisher =
        ShmPublisher::create("x", small(), mem.handle(), 1, 1, clock()).unwrap();
    let topic = publisher.register("/t").unwrap();
    let mut party = Region::from_memory(mem.clone(), small());
    let block = party.alloc_block().unwrap();
    let entry = ring_entry_off(&small(), topic.topic_idx, 1);
    let mut other = mem.handle();
    other.store_u64(entry, u64::MAX);
    let done = Rc::new(RefCell::new(false));
    let finished = Rc::clone(&done);
    *mem.while_waiting.borrow_mut() = Some(Box::new(move || {
        other.store_u64(entry, 0);
        *finished.borrow_mut() = true;
    }));
    party.commit_to_ring(block, 3, topic.topic_idx, false, false);
    assert!(*done.borrow());
    assert_eq!(mem.load_u64(entry), 1);
}

#[test]
fn a_sample_that_is_let_go_while_it_is_taken_is_not_received() {
    let config = PubSubConfig {
        block_count: 8,
        ..small()
    };
    let mem = Shared::zeroed(ShmPublisher::<Shared>::plan("x", &config).unwrap());
    let mut publisher =
        ShmPublisher::create("x", config, mem.handle(), 1, 1, clock()).unwrap();
    let topic = publisher.register("/t").unwrap();
    let sub = ShmSubscriber::connect("x", mem.handle(), Some(NOW)).unwrap();
    let mut stream = sub.subscribe(mem.clone(), "/t").unwrap();
    let mut publish = move |data: &[u8]| {
        let mut loan = publisher.loan(&topic, clock()).unwrap();
        loan.set_data(data).unwrap();
        loan.publish();
    };
    publish(b"first");
    *mem.before_exchange.borrow_mut() = Some(Box::new(move || {
        publish(b"second");
        publish(b"third");
    }));
    assert!(stream.try_recv().is_none());
    for expected in [&b"second"[..], &b"third"[..]] {
        let guard = stream.try_recv().unwrap();
        assert_eq!(guard.to_vec(&stream.region), expected);
        guard.release(&mut stream.region);
    }
    assert!(stream.try_recv().is_none());
}

#[test]
fn a_sample_that_is_overwritten_while_it_is_copied_is_not_received() {
    let config = pubsub::PubSubConfig {
        max_topics: 1,
        sample_capacity: 16,
        ring_depth: 4,
        ..pubsub::PubSubConfig::default()
    };
    let size = pubsub::ShmPublisher::<Shared>::plan(&config).unwrap();
    let mem = Shared::zeroed(size);
    let mut publisher = pubsub::ShmPublisher::create(&config, mem.handle(), 1, 7, NOW, 0);
    publisher.register("/t").unwrap();
    let sub = pubsub::ShmSubscriber::connect(mem.handle(), None, NOW).unwrap();
    let mut stream = sub.subscribe(mem.clone(), "/t").unwrap();
    let mut publish = move |data: &[u8]| {
        let mut loan = publisher.loan("/t", NOW).unwrap();
        loan.set_data(data);
        loan.publish();
    };
    publish(b"sample 1");
    *mem.before_read.borrow_mut() = Some(Box::new(move || {
        for i in 2..6 {
            publish(format!("sample {i}").as_bytes());
        }
    }));
    assert_eq!(stream.try_recv().unwrap().to_vec(), b"sample 5");
    assert!(stream.try_recv().is_none());
}

#[test]
fn a_pooled_sample_that_is_let_go_while_it_is_taken_is_not_received() {
    let config = PoolPubSubConfig {
        max_topics: 1,
        block_count: 4,
        block_size: 64,
        ring_depth: 2,
        ..PoolPubSubConfig::default()
    };
    let mem = Shared::zeroed(pool_pubsub::check_config(&config).unwrap());
    let mut publisher = ShmPoolPublisher::create(&config, mem.handle(), 1, 7, NOW, 0);
    let topic = publisher.register("/t").unwrap();
    let sub = ShmPoolSubscriber::connect(mem.handle(), NOW).unwrap();
    let mut stream = sub.subscribe(mem.clone(), "/t").unwrap();
    let mut publish = move |data: &[u8]| {
        let mut loan = publisher.loan(&topic, NOW, 0).unwrap();
        loan.set_data(data);
        loan.publish();
    };
    publish(b"first");
    *mem.before_exchange.borrow_mut() = Some(Box::new(move || {
        publish(b"second");
        publish(b"third");
    }));
    let guard = stream.try_recv().unwrap();
    assert_eq!(guard.to_vec(&stream.region), b"third");
    guard.release(&mut stream.region);
    assert!(stream.try_recv().is_none());
}

#[test]
fn a_pinned_sample_that_is_replaced_while_it_is_taken_is_not_received() {
    let mem = Shared::zeroed(ShmPublisher::<Shared>::plan("x", &small()).unwrap());
    let mut publisher =
        ShmPublisher::create("x", small(), mem.handle(), 1, 1, clock()).unwrap();
    let topic = publisher.register("/t").unwrap();
    let sub = ShmSubscriber::connect("x", mem.handle(), Some(NOW)).unwrap();
    let mut stream = sub.subscribe(mem.clone(), "/t").unwrap();
    let mut publish = move |data: &[u8]| {
        let mut loan = publisher.loan_pinned(&topic).unwrap();
        loan.set_data(data).unwrap();
        loan.publish();
    };
    publish(b"first");
    *mem.before_exchange.borrow_mut() = Some(Box::new(move || {
        publish(b"second");
    }));
    assert!(stream.try_recv_pinned().is_none());
    let guard = stream.try_recv_pinned().unwrap();
    assert_eq!(guard.to_vec(&stream.region), b"second");
    guard.release(&mut stream.region);
    assert!(stream.try_recv_pinned().is_none());
}

#[test]
fn a_pinned_block_is_not_written_while_it_is_read() {
    let mem = Shared::zeroed(ShmPublisher::<Shared>::plan("x", &small()).unwrap());
    let mut publisher =
        ShmPublisher::create("x", small(), mem.handle(), 1, 1, clock()).unwrap();
    let topic = publisher.register("/t").unwrap();
    let sub = ShmSubscriber::connect("x", mem.handle(), Some(NOW)).unwrap();
    let mut stream = sub.subscribe(mem.clone(), "/t").unwrap();
    let mut loan = publisher.loan_pinned(&topic).unwrap();
    loan.set_data(b"first").unwrap();
    // The publisher has the block: nobody gets in.
    let mut early = sub.subscribe(mem.handle(), "/t").unwrap();
    assert!(early.try_recv_pinned().is_none());
    loan.publish();
    let guard = stream.try_recv_pinned().unwrap();
    assert!(publisher.loan_pinned(&topic).is_err());
    assert_eq!(guard.to_vec(&stream.region), b"first");
    guard.release(&mut stream.region);
    assert!(publisher.loan_pinned(&topic).is_ok());
}
