//! A two-way channel, made of one segment for each direction.

use crate::error::Error;
use crate::memory::{self, Access, Accesses, SharedMemory};
use crate::platform::loan::{Loan, Topic};
use crate::platform::publisher_laws;
use crate::platform::shm::{self, Clock, ShmPublisher};
use crate::platform::subscription::{self, RecvWait, SampleGuard, SlotRead, Subscription};
use crate::protocol::config::PubSubConfig;
use crate::protocol::header;
use crate::protocol::layout;
use crate::protocol::pool::NO_BLOCK;
use crate::protocol::reading;
use crate::protocol::region;
use crate::text::{add_text, text};
use crate::wait::WaitStrategy;
use vstd::prelude::*;

verus! {

broadcast use crate::memory::group_memory;

/// One end of a channel: it publishes in its own segment and reads from the
/// segment of the other end.
pub struct Channel<M: SharedMemory> {
    /// Publishes to the other end.
    pub tx_pub: ShmPublisher<M>,
    /// The topic that it publishes on.
    pub tx_topic: Topic,
    /// Reads from the other end.
    pub rx: Subscription<M>,
}

/// One end of a channel that has not found the other end yet.
pub struct ChannelEnd<M: SharedMemory> {
    /// Publishes to the other end.
    pub tx_pub: ShmPublisher<M>,
    /// The topic that it publishes on.
    pub tx_topic: Topic,
}

/// The URI of the one topic of a channel's segment, as bytes.
pub open spec fn channel_uri() -> Seq<u8> {
    vstd::utf8::encode_utf8("/ch"@)
}

/// Name of the server's segment.
pub fn server_name(name: &str) -> (r: String)
    ensures
        r@ == name@ + "-srv"@,
{
    add_text(text(name), "-srv")
}

/// Name of the client's segment.
pub fn client_name(name: &str) -> (r: String)
    ensures
        r@ == name@ + "-cli"@,
{
    add_text(text(name), "-cli")
}

/// Whether to look for the other end once more. Without a deadline there is
/// only one look.
pub fn keep_looking(deadline_us: Option<u64>, now_us: u64) -> (r: bool)
    ensures
        r == (deadline_us matches Some(d) && now_us < d),
{
    match deadline_us {
        Some(d) => now_us < d,
        None => false,
    }
}

/// The URI of a channel fits in a topic entry.
pub proof fn lemma_channel_uri()
    ensures
        channel_uri().len() == 3,
{
    reveal_strlit("/ch");
    assert(vstd::utf8::is_ascii_chars("/ch"@));
    vstd::utf8::is_ascii_chars_encode_utf8("/ch"@);
}

/// A message is written in a block.
pub open spec fn written(c: PubSubConfig, block: u32, data: Seq<u8>) -> Access {
    Access::Bytes { off: region::data_off(c, block as int), data }
}

/// What creating one end gives.
pub open spec fn end_created<M: SharedMemory>(
    name: Seq<char>,
    config: PubSubConfig,
    mem: M,
    pid: u64,
    id: u64,
    clock: Clock,
    r: Result<ChannelEnd<M>, Error>,
) -> bool {
    &&& r matches Ok(e) ==> e.wf() && e.tx_pub.region.config == config && e.tx_pub.id == id
        && e.tx_pub.block_cache@ == Seq::<u32>::empty() && e.tx_pub.region.last_freed == NO_BLOCK
    &&& if !layout::valid_segment_name(name) {
        r matches Err(Error::SegmentNameInvalid(n)) && n@ == name
    } else {
        match header::config_fault(config) {
            Some(f) => r matches Err(e) && header::reports_config_fault(e, f),
            None => match clock.wall_us {
                None => r matches Err(e) && e is ClockError,
                Some(t) => {
                    let m = header::created(config, mem.image(), pid, t);
                    let n = config.max_topics as int;
                    &&& r matches Err(e) ==> e is MaxTopicsReached
                    &&& mem.exclusive() ==> match shm::find_topic(m, 0, n, channel_uri()) {
                        Some(i) => r matches Ok(e) && e.tx_topic.topic_idx == i
                            && e.tx_pub.region.mem.image() == m,
                        None => match shm::find_free(m, 0, n) {
                            Some(i) => r matches Ok(e) && e.tx_topic.topic_idx == i
                                && e.tx_pub.region.mem.image() == shm::with_topic(
                                m,
                                i,
                                channel_uri(),
                                0,
                            ),
                            None => r is Err,
                        },
                    }
                },
            },
        }
    }
}

impl<M: SharedMemory> ChannelEnd<M> {
    /// The publisher is sound and owns its segment, and the topic is its own.
    pub open spec fn wf(&self) -> bool {
        &&& self.tx_pub.wf()
        &&& self.tx_pub.is_owner
        &&& self.tx_topic.publisher_id == self.tx_pub.id
        &&& self.tx_topic.topic_idx < self.tx_pub.region.config.max_topics
    }

    fn create(
        name: &str,
        config: PubSubConfig,
        mem: M,
        pid: u64,
        id: u64,
        clock: Clock,
    ) -> (r: Result<ChannelEnd<M>, Error>)
        requires
            layout::region_size(config) <= mem.image().len() <= usize::MAX,
        ensures
            end_created(name@, config, mem, pid, id, clock, r),
    {
        let mut tx_pub: ShmPublisher<M> = match ShmPublisher::create(
            name,
            config,
            mem,
            pid,
            id,
            clock,
        ) {
            Ok(p) => p,
            Err(e) => {
                return Err(e);
            },
        };
        proof {
            lemma_channel_uri();
        }
        match tx_pub.register("/ch") {
            Ok(tx_topic) => Ok(ChannelEnd { tx_pub, tx_topic }),
            Err(e) => Err(e),
        }
    }

    /// Joins the two directions. Reading starts at the first message, so that
    /// none is missed that was sent before.
    pub fn join(self, rx: Subscription<M>) -> (r: Channel<M>)
        requires
            self.wf(),
            rx.wf(),
        ensures
            r.wf(),
            r.tx_pub == self.tx_pub,
            r.tx_topic == self.tx_topic,
            r.rx.region == rx.region,
            r.rx.topic_idx == rx.topic_idx,
            r.rx.type_size == rx.type_size,
            r.rx.last_seq == 0,
    {
        let mut rx: Subscription<M> = rx;
        rx.last_seq = 0;
        Channel { tx_pub: self.tx_pub, tx_topic: self.tx_topic, rx }
    }
}

impl<M: SharedMemory> Channel<M> {
    /// Both directions are sound.
    pub open spec fn wf(&self) -> bool {
        &&& self.tx_pub.wf()
        &&& self.tx_pub.is_owner
        &&& self.tx_topic.publisher_id == self.tx_pub.id
        &&& self.tx_topic.topic_idx < self.tx_pub.region.config.max_topics
        &&& self.rx.wf()
    }

    /// What sending does. A block is taken, as for a loan; the data are written
    /// into it and published. Data that does not fit is refused, and the block
    /// goes back to the pool.
    pub open spec fn sent(
        &self,
        after: &Self,
        data: Seq<u8>,
        clock: Clock,
        r: Result<bool, Error>,
    ) -> bool {
        let c = self.tx_pub.region.config;
        let p = layout::pool_of(c);
        let t = self.tx_topic.topic_idx as int;
        let (block, stock) = shm::taken(p, self.tx_pub.stock_after_beat(clock));
        &&& after.tx_pub.block_cache@ == stock.cache
        &&& match block {
            None => {
                &&& r matches Err(e)
                &&& e is PoolExhausted
                &&& after.tx_pub.stock() == stock
            },
            Some(b) => if data.len() > region::capacity_of(c) {
                &&& r matches Err(Error::DataTooLarge { size, capacity })
                &&& size == data.len()
                &&& capacity == region::capacity_of(c)
                &&& after.tx_pub.region.mem.image() == p.after_free(stock.image, b)
                &&& after.tx_pub.region.last_freed == stock.warm
            } else {
                let written = memory::put(stock.image, region::data_off(c, b as int), data);
                &&& r matches Ok(wake)
                &&& wake == (region::waiters(written, t) > 0)
                &&& (after.tx_pub.region.mem.image(), after.tx_pub.region.last_freed)
                    == region::after_commit(c, written, stock.warm, t, b, data.len() as u32)
            },
        }
    }

    /// The last thing that was done at this end is to send a message: it was in its
    /// block before the block was published.
    pub open spec fn sent_last(&self, data: Seq<u8>) -> bool {
        exists|b: u32, ops: Accesses, warm: u32|
            {
                &&& reading::ends_with(
                    self.tx_pub.region.mem.accesses(),
                    seq![written(self.tx_pub.region.config, b, data)] + ops,
                )
                &&& #[trigger] region::commits(
                    self.tx_pub.region.config,
                    ops,
                    self.tx_topic.topic_idx as int,
                    b,
                    data.len() as u32,
                    true,
                    warm,
                )
            }
    }

    /// Creates the server's end, in fresh memory.
    pub fn listen(
        name: &str,
        config: PubSubConfig,
        mem: M,
        pid: u64,
        id: u64,
        clock: Clock,
    ) -> (r: Result<ChannelEnd<M>, Error>)
        requires
            layout::region_size(config) <= mem.image().len() <= usize::MAX,
        ensures
            end_created(name@ + "-srv"@, config, mem, pid, id, clock, r),
    {
        let own: String = server_name(name);
        ChannelEnd::create(own.as_str(), config, mem, pid, id, clock)
    }

    /// Creates the client's end, in fresh memory.
    pub fn connect(
        name: &str,
        config: PubSubConfig,
        mem: M,
        pid: u64,
        id: u64,
        clock: Clock,
    ) -> (r: Result<ChannelEnd<M>, Error>)
        requires
            layout::region_size(config) <= mem.image().len() <= usize::MAX,
        ensures
            end_created(name@ + "-cli"@, config, mem, pid, id, clock, r),
    {
        let own: String = client_name(name);
        ChannelEnd::create(own.as_str(), config, mem, pid, id, clock)
    }

    /// Copies `data` into a block and sends it to the other end. `Ok` says
    /// whether a sleeping receiver is to be woken. Data that does not fit is
    /// refused, and its block goes back to the pool.
    pub fn send(&mut self, data: &[u8], clock: Clock) -> (r: Result<bool, Error>)
        requires
            old(self).wf(),
        ensures
            final(self).wf(),
            final(self).rx == old(self).rx,
            final(self).tx_topic == old(self).tx_topic,
            old(self).tx_pub.same_publisher(&final(self).tx_pub),
            r is Ok ==> final(self).sent_last(data@),
            r matches Err(e) ==> e is PoolExhausted || e is DataTooLarge,
            r matches Err(Error::DataTooLarge { size, capacity }) ==> size == data@.len()
                && capacity == region::capacity_of(old(self).tx_pub.region.config) && size
                > capacity,
            old(self).tx_pub.region.mem.exclusive() ==> old(self).sent(
                final(self),
                data@,
                clock,
                r,
            ),
    {
        let ghost c = self.tx_pub.region.config;
        let ghost pins = self.tx_pub.pinned_blocks@;
        let ghost alone = self.tx_pub.region.mem.exclusive();
        let ghost beaten = self.tx_pub.stock_after_beat(clock);
        let ghost stock = shm::taken(layout::pool_of(c), beaten).1;
        let ghost t = self.tx_topic.topic_idx as int;
        proof {
            if alone {
                if self.tx_pub.beats(clock) {
                    publisher_laws::lemma_heartbeat_keeps_pins(
                        c,
                        self.tx_pub.region.mem.image(),
                        clock.wall_us->0,
                        pins,
                    );
                }
                publisher_laws::lemma_loan_keeps_pins(c, beaten, pins);
            }
        }
        match self.tx_pub.loan(&self.tx_topic, clock) {
            Err(e) => Err(e),
            Ok(mut loan) => {
                let ghost b = loan.block_idx;
                let ghost warm = loan.region.last_freed;
                let ghost first = loan.region.mem.accesses();
                match loan.set_data(data) {
                    Err(e) => {
                        proof {
                            if alone {
                                publisher_laws::lemma_discard_keeps_pins(c, stock.image, b, pins);
                            }
                        }
                        loan.discard();
                        Err(e)
                    },
                    Ok(()) => {
                        proof {
                            if alone {
                                publisher_laws::lemma_publish_keeps_pins(
                                    c,
                                    stock.image,
                                    stock.warm,
                                    t,
                                    b,
                                    data@,
                                    pins,
                                );
                            }
                        }
                        let wake: bool = loan.publish();
                        proof {
                            let write = written(c, b, data@);
                            let ops = choose|ops: Accesses|
                                {
                                    &&& self.tx_pub.region.mem.accesses() == first.push(write)
                                        + ops
                                    &&& #[trigger] region::commits(
                                        c,
                                        ops,
                                        t,
                                        b,
                                        data@.len() as u32,
                                        true,
                                        warm,
                                    )
                                };
                            let all = seq![write] + ops;
                            assert(self.tx_pub.region.mem.accesses() =~= first + all);
                            reading::lemma_ends_with(first, all);
                        }
                        Ok(wake)
                    },
                }
            },
        }
    }

    /// Loans a block for writing a message in place.
    pub fn loan(&mut self, clock: Clock) -> (r: Result<Loan<'_, M>, Error>)
        requires
            old(self).wf(),
        ensures
            final(self).rx == old(self).rx,
            final(self).tx_topic == old(self).tx_topic,
            old(self).tx_pub.loaned(
                &final(self).tx_pub,
                old(self).tx_topic,
                clock,
                match r {
                    Ok(l) => Ok(l.block_idx),
                    Err(e) => Err(e),
                },
                match r {
                    Ok(l) => Some((*l.region, *final(l.region))),
                    Err(_) => None,
                },
            ),
            r matches Ok(l) ==> {
                &&& l.wf()
                &&& l.len == 0
                &&& l.topic_idx == old(self).tx_topic.topic_idx
                &&& l.single_publisher
            },
    {
        self.tx_pub.loan(&self.tx_topic, clock)
    }

    /// Receives the next message, if there is one.
    pub fn try_recv(&mut self) -> (r: Option<SampleGuard>)
        requires
            old(self).wf(),
        ensures
            final(self).wf(),
            final(self).tx_pub == old(self).tx_pub,
            final(self).tx_topic == old(self).tx_topic,
            old(self).rx.same_stream(&final(self).rx),
            r matches Some(g) ==> g.of(&final(self).rx.region),
            r matches Some(g) ==> final(self).rx.took_last(g.block_idx, g.len as u32),
            final(self).rx.last_seq >= old(self).rx.last_seq,
            r is None ==> final(self).rx.last_seq == old(self).rx.last_seq,
            old(self).rx.region.mem.exclusive() ==> old(self).rx.received(
                &final(self).rx,
                match r {
                    Some(g) => Some(
                        SlotRead { block_idx: g.block_idx, data_len: g.len as u32 },
                    ),
                    None => None,
                },
            ),
    {
        self.rx.try_recv()
    }

    /// Begins to wait for a message in the default way.
    pub fn recv(&self) -> (r: RecvWait)
        ensures
            r.strategy == (WaitStrategy::Adaptive { spin_iters: 100, yield_iters: 10 }),
            r.iter == 0,
            r.poll_ms == subscription::poll_interval(self.rx.region.config.stale_timeout_us),
    {
        self.recv_with(WaitStrategy::default())
    }

    /// Begins to wait for a message in the given way.
    pub fn recv_with(&self, strategy: WaitStrategy) -> (r: RecvWait)
        ensures
            r.strategy == strategy,
            r.iter == 0,
            r.poll_ms == subscription::poll_interval(self.rx.region.config.stale_timeout_us),
    {
        RecvWait::new(strategy, self.rx.region.config.stale_timeout_us)
    }

    /// Tells the other end that this one is alive.
    pub fn heartbeat(&mut self, clock: Clock) -> (r: Result<(), Error>)
        requires
            old(self).wf(),
        ensures
            final(self).wf(),
            final(self).rx == old(self).rx,
            final(self).tx_topic == old(self).tx_topic,
            clock.wall_us is Some <==> r is Ok,
            r matches Err(e) ==> e is ClockError && *final(self) == *old(self),
            r is Ok ==> final(self).tx_pub.last_heartbeat == clock.mono_us,
            r is Ok ==> exists|was: u64|
                final(self).tx_pub.region.mem.accesses() == old(self).tx_pub.region.mem.accesses().push(
                    #[trigger] memory::raised(layout::GH_HEARTBEAT as int, clock.wall_us->0, was),
                ),
            r is Ok && old(self).tx_pub.region.mem.exclusive()
                ==> final(self).tx_pub.region.mem.image() == shm::with_heartbeat(
                old(self).tx_pub.region.mem.image(),
                clock.wall_us->0,
            ),
    {
        self.tx_pub.heartbeat(clock)
    }
}

} // verus!
