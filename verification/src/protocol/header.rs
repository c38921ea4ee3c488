//! Creating and opening a publish/subscribe segment.

use crate::error::Error;
use crate::memory::{self, SharedMemory};
use crate::protocol::config::PubSubConfig;
use crate::protocol::layout::{
    self, magic_bytes, power_of_two, region_size_checked, ring_entry_off, BLOCK_DATA_OFFSET,
    GH_BLOCK_COUNT, GH_BLOCK_SIZE, GH_HEARTBEAT, GH_MAGIC, GH_MAX_TOPICS, GH_PID, GH_RING_DEPTH,
    GH_STALE_TIMEOUT_US, GH_VERSION, HEADER_SIZE, MAX_TOPICS_LIMIT, RE_BLOCK_IDX, RE_DATA_LEN,
    RE_SEQ, VERSION,
};
use crate::protocol::pool::NO_BLOCK;
use crate::protocol::region::{self, Region};
use crate::text::{add_number, add_text, text};
use vstd::prelude::*;

verus! {

broadcast use crate::memory::group_memory;

/// What is wrong with a configuration that a segment is to be created with.
#[derive(Clone, Copy, Debug, PartialEq, Eq, Structural)]
pub enum ConfigFault {
    /// A block has no room for data.
    BlockSize(u32),
    /// The ring depth is not a power of two.
    RingDepth(u32),
    /// There are no blocks.
    BlockCount,
    /// There are no topics.
    MaxTopics,
    /// The segment would not fit the address space.
    Overflow,
}

/// What is wrong with a segment that is to be opened.
#[derive(Clone, Copy, Debug, PartialEq, Eq, Structural)]
pub enum HeaderFault {
    /// It has no room for the header.
    TooSmall,
    /// It does not start with the magic bytes.
    Magic,
    /// It has another version.
    Version(u32),
    /// Its blocks have no room for data.
    BlockSize(u32),
    /// Its ring depth is not a power of two.
    RingDepth(u32),
    /// It has no blocks.
    BlockCount,
    /// It has no topics.
    MaxTopics,
    /// It announces too many topics.
    TooManyTopics(u32),
    /// It would not fit the address space.
    Overflow,
    /// It is shorter than its header says.
    Truncated {
        /// Its length.
        len: usize,
        /// The length that the header asks for.
        expected: usize,
    },
}

/// The first thing that is wrong with a configuration.
pub open spec fn config_fault(c: PubSubConfig) -> Option<ConfigFault> {
    if c.block_size < BLOCK_DATA_OFFSET + 1 {
        Some(ConfigFault::BlockSize(c.block_size))
    } else if !layout::is_power_of_two(c.ring_depth as int) {
        Some(ConfigFault::RingDepth(c.ring_depth))
    } else if c.block_count == 0 {
        Some(ConfigFault::BlockCount)
    } else if c.max_topics == 0 {
        Some(ConfigFault::MaxTopics)
    } else if layout::region_size(c) > usize::MAX {
        Some(ConfigFault::Overflow)
    } else {
        None
    }
}

/// The size that a segment of this configuration needs, or what is wrong with
/// the configuration.
pub fn check_config(config: &PubSubConfig) -> (r: Result<usize, ConfigFault>)
    ensures
        match config_fault(*config) {
            Some(f) => r == Err::<usize, ConfigFault>(f),
            None => {
                &&& r matches Ok(n)
                &&& n == layout::region_size(*config)
                &&& layout::valid_config(*config)
            },
        },
{
    if config.block_size < BLOCK_DATA_OFFSET as u32 + 1 {
        return Err(ConfigFault::BlockSize(config.block_size));
    }
    if !power_of_two(config.ring_depth) {
        return Err(ConfigFault::RingDepth(config.ring_depth));
    }
    if config.block_count == 0 {
        return Err(ConfigFault::BlockCount);
    }
    if config.max_topics == 0 {
        return Err(ConfigFault::MaxTopics);
    }
    match region_size_checked(config) {
        Some(n) => Ok(n),
        None => Err(ConfigFault::Overflow),
    }
}

/// `e` reports the fault `f`.
pub open spec fn reports_config_fault(e: Error, f: ConfigFault) -> bool {
    match f {
        ConfigFault::BlockSize(n) => e matches Error::InvalidRegion(m) && m@
            == "block_size must be at least 9 (got "@ + crate::text::decimal(n as nat) + ")"@,
        ConfigFault::RingDepth(n) => e matches Error::InvalidRegion(m) && m@
            == "ring_depth must be a power of 2 (got "@ + crate::text::decimal(n as nat) + ")"@,
        ConfigFault::BlockCount => e matches Error::InvalidRegion(m) && m@
            == "block_count must be at least 1"@,
        ConfigFault::MaxTopics => e matches Error::InvalidRegion(m) && m@
            == "max_topics must be at least 1"@,
        ConfigFault::Overflow => e is RegionSizeOverflow,
    }
}

/// The error that reports a fault in a configuration.
pub fn config_error(f: ConfigFault) -> (r: Error)
    ensures
        reports_config_fault(r, f),
{
    match f {
        ConfigFault::BlockSize(n) => Error::InvalidRegion(
            add_text(add_number(text("block_size must be at least 9 (got "), n as u64), ")"),
        ),
        ConfigFault::RingDepth(n) => Error::InvalidRegion(
            add_text(add_number(text("ring_depth must be a power of 2 (got "), n as u64), ")"),
        ),
        ConfigFault::BlockCount => Error::InvalidRegion(text("block_count must be at least 1")),
        ConfigFault::MaxTopics => Error::InvalidRegion(text("max_topics must be at least 1")),
        ConfigFault::Overflow => Error::RegionSizeOverflow,
    }
}

/// The configuration in a header. The heartbeat interval is not part of it.
pub open spec fn header_config(m: Seq<u8>) -> PubSubConfig {
    PubSubConfig {
        max_topics: memory::u32_at(m, GH_MAX_TOPICS as int),
        block_count: memory::u32_at(m, GH_BLOCK_COUNT as int),
        block_size: memory::u32_at(m, GH_BLOCK_SIZE as int),
        ring_depth: memory::u32_at(m, GH_RING_DEPTH as int),
        heartbeat_interval_us: crate::protocol::config::default_config().heartbeat_interval_us,
        stale_timeout_us: memory::u64_at(m, GH_STALE_TIMEOUT_US as int),
    }
}

/// The first thing that is wrong with a segment.
pub open spec fn header_fault(m: Seq<u8>) -> Option<HeaderFault> {
    let c = header_config(m);
    if m.len() < HEADER_SIZE {
        Some(HeaderFault::TooSmall)
    } else if memory::bytes_at(m, GH_MAGIC as int, 8) != layout::magic() {
        Some(HeaderFault::Magic)
    } else if memory::u32_at(m, GH_VERSION as int) != VERSION {
        Some(HeaderFault::Version(memory::u32_at(m, GH_VERSION as int)))
    } else if c.block_size < BLOCK_DATA_OFFSET + 1 {
        Some(HeaderFault::BlockSize(c.block_size))
    } else if !layout::is_power_of_two(c.ring_depth as int) {
        Some(HeaderFault::RingDepth(c.ring_depth))
    } else if c.block_count == 0 {
        Some(HeaderFault::BlockCount)
    } else if c.max_topics == 0 {
        Some(HeaderFault::MaxTopics)
    } else if c.max_topics > MAX_TOPICS_LIMIT {
        Some(HeaderFault::TooManyTopics(c.max_topics))
    } else if layout::region_size(c) > usize::MAX {
        Some(HeaderFault::Overflow)
    } else if m.len() < layout::region_size(c) {
        Some(
            HeaderFault::Truncated {
                len: m.len() as usize,
                expected: layout::region_size(c) as usize,
            },
        )
    } else {
        None
    }
}

/// Reads the configuration of a segment, or says what is wrong with the segment.
/// Whatever the segment holds, an accepted configuration is one that it has
/// room for.
pub fn read_header<M: SharedMemory>(mem: &M) -> (r: Result<PubSubConfig, HeaderFault>)
    ensures
        r matches Ok(c) ==> layout::valid_config(c) && layout::region_size(c) <= mem.image().len()
            <= usize::MAX && c.max_topics <= MAX_TOPICS_LIMIT,
        mem.exclusive() ==> match header_fault(mem.image()) {
            Some(f) => r == Err::<PubSubConfig, HeaderFault>(f),
            None => r == Ok::<PubSubConfig, HeaderFault>(header_config(mem.image())),
        },
{
    let len: usize = mem.size();
    if len < HEADER_SIZE {
        return Err(HeaderFault::TooSmall);
    }
    let found: Vec<u8> = mem.read(GH_MAGIC, 8);
    let expected: Vec<u8> = magic_bytes();
    if !memory::same_bytes(found.as_slice(), expected.as_slice()) {
        return Err(HeaderFault::Magic);
    }
    let version: u32 = mem.load_u32(GH_VERSION);
    if version != VERSION {
        return Err(HeaderFault::Version(version));
    }
    let defaults: PubSubConfig = PubSubConfig::default();
    let config: PubSubConfig = PubSubConfig {
        max_topics: mem.load_u32(GH_MAX_TOPICS),
        block_count: mem.load_u32(GH_BLOCK_COUNT),
        block_size: mem.load_u32(GH_BLOCK_SIZE),
        ring_depth: mem.load_u32(GH_RING_DEPTH),
        heartbeat_interval_us: defaults.heartbeat_interval_us,
        stale_timeout_us: mem.load_u64(GH_STALE_TIMEOUT_US),
    };
    if config.block_size < BLOCK_DATA_OFFSET as u32 + 1 {
        return Err(HeaderFault::BlockSize(config.block_size));
    }
    if !power_of_two(config.ring_depth) {
        return Err(HeaderFault::RingDepth(config.ring_depth));
    }
    if config.block_count == 0 {
        return Err(HeaderFault::BlockCount);
    }
    if config.max_topics == 0 {
        return Err(HeaderFault::MaxTopics);
    }
    if config.max_topics > MAX_TOPICS_LIMIT {
        return Err(HeaderFault::TooManyTopics(config.max_topics));
    }
    match region_size_checked(&config) {
        None => Err(HeaderFault::Overflow),
        Some(expected) => if len < expected {
            Err(HeaderFault::Truncated { len, expected })
        } else {
            Ok(config)
        },
    }
}

/// `e` reports the fault `f`.
pub open spec fn reports_header_fault(e: Error, f: HeaderFault) -> bool {
    match f {
        HeaderFault::TooSmall => e matches Error::InvalidRegion(m) && m@
            == "region too small for header"@,
        HeaderFault::Magic => e matches Error::InvalidRegion(m) && m@
            == "invalid magic (expected XBAR_ZC)"@,
        HeaderFault::Version(n) => e matches Error::InvalidRegion(m) && m@
            == "unsupported version "@ + crate::text::decimal(n as nat) + ", expected 3"@,
        HeaderFault::BlockSize(n) => e matches Error::InvalidRegion(m) && m@
            == "header block_size "@ + crate::text::decimal(n as nat) + " too small"@,
        HeaderFault::RingDepth(n) => e matches Error::InvalidRegion(m) && m@
            == "header ring_depth "@ + crate::text::decimal(n as nat) + " is not a power of 2"@,
        HeaderFault::BlockCount => e matches Error::InvalidRegion(m) && m@
            == "header block_count is 0"@,
        HeaderFault::MaxTopics => e matches Error::InvalidRegion(m) && m@
            == "header max_topics is 0"@,
        HeaderFault::TooManyTopics(n) => e matches Error::InvalidRegion(m) && m@
            == "header max_topics "@ + crate::text::decimal(n as nat) + " exceeds limit 4096"@,
        HeaderFault::Overflow => e is RegionSizeOverflow,
        HeaderFault::Truncated { len, expected } => e matches Error::InvalidRegion(m) && m@
            == "region size "@ + crate::text::decimal(len as nat) + " < expected "@
            + crate::text::decimal(expected as nat),
    }
}

/// The error that reports a fault in a segment.
pub fn header_error(f: HeaderFault) -> (r: Error)
    ensures
        reports_header_fault(r, f),
{
    match f {
        HeaderFault::TooSmall => Error::InvalidRegion(text("region too small for header")),
        HeaderFault::Magic => Error::InvalidRegion(text("invalid magic (expected XBAR_ZC)")),
        HeaderFault::Version(n) => Error::InvalidRegion(
            add_text(add_number(text("unsupported version "), n as u64), ", expected 3"),
        ),
        HeaderFault::BlockSize(n) => Error::InvalidRegion(
            add_text(add_number(text("header block_size "), n as u64), " too small"),
        ),
        HeaderFault::RingDepth(n) => Error::InvalidRegion(
            add_text(add_number(text("header ring_depth "), n as u64), " is not a power of 2"),
        ),
        HeaderFault::BlockCount => Error::InvalidRegion(text("header block_count is 0")),
        HeaderFault::MaxTopics => Error::InvalidRegion(text("header max_topics is 0")),
        HeaderFault::TooManyTopics(n) => Error::InvalidRegion(
            add_text(add_number(text("header max_topics "), n as u64), " exceeds limit 4096"),
        ),
        HeaderFault::Overflow => Error::RegionSizeOverflow,
        HeaderFault::Truncated { len, expected } => Error::InvalidRegion(
            add_number(
                add_text(add_number(text("region size "), len as u64), " < expected "),
                expected as u64,
            ),
        ),
    }
}

/// The segment with its global header written.
pub open spec fn with_header(c: PubSubConfig, m: Seq<u8>, pid: u64) -> Seq<u8> {
    let m = memory::put(m, GH_MAGIC as int, layout::magic());
    let m = memory::put32(m, GH_VERSION as int, VERSION);
    let m = memory::put32(m, GH_MAX_TOPICS as int, c.max_topics);
    let m = memory::put32(m, GH_BLOCK_COUNT as int, c.block_count);
    let m = memory::put32(m, GH_BLOCK_SIZE as int, c.block_size);
    let m = memory::put32(m, GH_RING_DEPTH as int, c.ring_depth);
    let m = memory::put64(m, GH_PID as int, pid);
    memory::put64(m, GH_STALE_TIMEOUT_US as int, c.stale_timeout_us)
}

/// An empty ring entry.
pub open spec fn with_empty_entry(m: Seq<u8>, off: int) -> Seq<u8> {
    let m = memory::put64(m, off + RE_SEQ, 0);
    let m = memory::put32(m, off + RE_BLOCK_IDX, NO_BLOCK);
    memory::put32(m, off + RE_DATA_LEN, 0)
}

/// The segment with the first `slots` entries of a topic's ring emptied.
pub open spec fn with_empty_ring(c: PubSubConfig, m: Seq<u8>, topic: int, slots: nat) -> Seq<u8>
    decreases slots,
{
    if slots == 0 {
        m
    } else {
        with_empty_entry(
            with_empty_ring(c, m, topic, (slots - 1) as nat),
            layout::ring_off(c, topic, slots - 1),
        )
    }
}

/// The segment with the rings of the first `topics` topics emptied.
pub open spec fn with_empty_rings(c: PubSubConfig, m: Seq<u8>, topics: nat) -> Seq<u8>
    decreases topics,
{
    if topics == 0 {
        m
    } else {
        with_empty_ring(
            c,
            with_empty_rings(c, m, (topics - 1) as nat),
            topics - 1,
            c.ring_depth as nat,
        )
    }
}

/// The segment as `Region::create` leaves it.
pub open spec fn created(c: PubSubConfig, m: Seq<u8>, pid: u64, now: u64) -> Seq<u8> {
    let m = layout::pool_of(c).after_init(with_header(c, m, pid));
    let m = memory::put64(
        m,
        GH_HEARTBEAT as int,
        memory::larger_u64(memory::u64_at(m, GH_HEARTBEAT as int), now),
    );
    with_empty_rings(c, m, c.max_topics as nat)
}

impl<M: SharedMemory> Region<M> {
    /// Lays out a new segment: header, free list, heartbeat, empty rings. The
    /// topic table is left as it is: all free in fresh memory.
    pub fn create(mem: M, config: PubSubConfig, pid: u64, now: Option<u64>) -> (r: Result<
        Region<M>,
        Error,
    >)
        requires
            layout::valid_config(config),
            layout::region_size(config) <= mem.image().len() <= usize::MAX,
        ensures
            now is Some <==> r is Ok,
            r matches Err(e) ==> e is ClockError,
            r matches Ok(region) ==> {
                &&& region.wf()
                &&& region.config == config
                &&& region.last_freed == NO_BLOCK
                &&& region.mem.image().len() == mem.image().len()
                &&& region.mem.exclusive() == mem.exclusive()
                &&& mem.exclusive() ==> region.mem.image() == created(
                    config,
                    mem.image(),
                    pid,
                    now->0,
                )
            },
    {
        let ghost m = mem.image();
        proof {
            layout::lemma_layout(config);
        }
        let mut mem: M = mem;
        let magic: Vec<u8> = magic_bytes();
        mem.write(GH_MAGIC, magic.as_slice());
        mem.store_u32(GH_VERSION, VERSION);
        mem.store_u32(GH_MAX_TOPICS, config.max_topics);
        mem.store_u32(GH_BLOCK_COUNT, config.block_count);
        mem.store_u32(GH_BLOCK_SIZE, config.block_size);
        mem.store_u32(GH_RING_DEPTH, config.ring_depth);
        mem.store_u64(GH_PID, pid);
        mem.store_u64(GH_STALE_TIMEOUT_US, config.stale_timeout_us);
        let mut region: Region<M> = Region::from_memory(mem, config);
        region.init_free_list();
        if let Err(e) = region.update_heartbeat(now) {
            return Err(e);
        }
        region.clear_rings();
        Ok(region)
    }

    /// Empties every ring.
    fn clear_rings(&mut self)
        requires
            old(self).wf(),
        ensures
            final(self).wf(),
            old(self).same_segment(final(self)),
            final(self).last_freed == old(self).last_freed,
            old(self).mem.exclusive() ==> final(self).mem.image() == with_empty_rings(
                old(self).config,
                old(self).mem.image(),
                old(self).config.max_topics as nat,
            ),
    {
        let mut t: u32 = 0;
        while t < self.config.max_topics
            invariant
                self.wf(),
                old(self).same_segment(self),
                self.last_freed == old(self).last_freed,
                t <= self.config.max_topics,
                self.mem.exclusive() ==> self.mem.image() == with_empty_rings(
                    self.config,
                    old(self).mem.image(),
                    t as nat,
                ),
            decreases self.config.max_topics - t,
        {
            self.clear_ring(t);
            t = t + 1;
        }
    }

    /// Empties the ring of one topic.
    fn clear_ring(&mut self, topic: u32)
        requires
            old(self).wf(),
            topic < old(self).config.max_topics,
        ensures
            final(self).wf(),
            old(self).same_segment(final(self)),
            final(self).last_freed == old(self).last_freed,
            old(self).mem.exclusive() ==> final(self).mem.image() == with_empty_ring(
                old(self).config,
                old(self).mem.image(),
                topic as int,
                old(self).config.ring_depth as nat,
            ),
    {
        let mut s: u32 = 0;
        while s < self.config.ring_depth
            invariant
                self.wf(),
                topic < self.config.max_topics,
                old(self).same_segment(self),
                self.last_freed == old(self).last_freed,
                s <= self.config.ring_depth,
                self.mem.exclusive() ==> self.mem.image() == with_empty_ring(
                    self.config,
                    old(self).mem.image(),
                    topic as int,
                    s as nat,
                ),
            decreases self.config.ring_depth - s,
        {
            proof {
                layout::lemma_layout(self.config);
                layout::lemma_ring(self.config, topic as int, s as int);
            }
            let off: usize = ring_entry_off(&self.config, topic, s);
            self.mem.store_u64(off + RE_SEQ, 0);
            self.mem.store_u32(off + RE_BLOCK_IDX, NO_BLOCK);
            self.mem.store_u32(off + RE_DATA_LEN, 0);
            s = s + 1;
        }
    }

    /// Opens an existing segment, which must have a valid header and a live
    /// publisher.
    pub fn open(mem: M, now: Option<u64>) -> (r: Result<Region<M>, Error>)
        ensures
            r matches Ok(region) ==> region.wf() && region.mem == mem && region.last_freed
                == NO_BLOCK && region.config.max_topics <= MAX_TOPICS_LIMIT,
            mem.exclusive() ==> match header_fault(mem.image()) {
                Some(f) => r matches Err(e) && reports_header_fault(e, f),
                None => {
                    let c = header_config(mem.image());
                    let beat = memory::u64_at(mem.image(), GH_HEARTBEAT as int);
                    match now {
                        None => r matches Err(e) && e is ClockError,
                        Some(t) => if t > beat + c.stale_timeout_us {
                            r matches Err(e) && e is PublisherDead
                        } else {
                            r matches Ok(region) && region.config == c
                        },
                    }
                },
            },
    {
        let config: PubSubConfig = match read_header(&mem) {
            Ok(c) => c,
            Err(f) => {
                return Err(header_error(f));
            },
        };
        let region: Region<M> = Region::from_memory(mem, config);
        match region.check_heartbeat(now) {
            Err(e) => Err(e),
            Ok(()) => Ok(region),
        }
    }
}

} // verus!
